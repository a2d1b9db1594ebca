use std::io::Write;

use kaiki::config::{GcsPluginConfig, S3PluginConfig};
use kaiki::storage::{
    build_gcs_key, build_s3_key, gcs_report_url, maybe_decompress, percent_encode, plan_downloads, plan_uploads, prepare_upload, prepare_uploads, s3_put_params,
    s3_report_url, should_upload, strip_listing_prefix, GcsStorage, ReportFile, SseConfig, MAX_CONCURRENCY, UPLOAD_EXTENSIONS,
};

#[test]
fn test_build_s3_key_with_prefix() {
    let key = build_s3_key(Some("my-prefix"), "abc123", "screenshot.png");
    assert_eq!(key, "my-prefix/abc123/screenshot.png");
}

#[test]
fn test_build_s3_key_no_prefix() {
    let key = build_s3_key(None, "abc123", "screenshot.png");
    assert_eq!(key, "abc123/screenshot.png");
}

#[test]
fn test_build_s3_key_empty_prefix() {
    let key = build_s3_key(Some(""), "abc123", "screenshot.png");
    assert_eq!(key, "abc123/screenshot.png");
}

#[test]
fn test_build_s3_key_nested_path() {
    let key = build_s3_key(Some("prefix"), "key1", "subdir/file.png");
    assert_eq!(key, "prefix/key1/subdir/file.png");
}

#[test]
fn test_s3_report_url_with_prefix() {
    let url = s3_report_url("my-bucket", Some("my-prefix"), "abc123");
    assert_eq!(url, "https://my-bucket.s3.amazonaws.com/my-prefix/abc123/index.html");
}

#[test]
fn test_s3_report_url_no_prefix() {
    let url = s3_report_url("my-bucket", None, "abc123");
    assert_eq!(url, "https://my-bucket.s3.amazonaws.com/abc123/index.html");
}

#[test]
fn test_s3_report_url_empty_prefix() {
    let url = s3_report_url("my-bucket", Some(""), "abc123");
    assert_eq!(url, "https://my-bucket.s3.amazonaws.com/abc123/index.html");
}

#[test]
fn test_build_gcs_key_with_prefix() {
    assert_eq!(build_gcs_key(Some("my-prefix"), "abc123", "screenshot.png"), "my-prefix/abc123/screenshot.png");
}

#[test]
fn test_build_gcs_key_no_prefix() {
    assert_eq!(build_gcs_key(None, "abc123", "screenshot.png"), "abc123/screenshot.png");
}

#[test]
fn test_build_gcs_key_empty_prefix() {
    assert_eq!(build_gcs_key(Some(""), "abc123", "screenshot.png"), "abc123/screenshot.png");
}

#[test]
fn test_build_gcs_key_nested_path() {
    assert_eq!(build_gcs_key(Some("prefix"), "key1", "subdir/file.png"), "prefix/key1/subdir/file.png");
}

#[test]
fn test_gcs_report_url_with_prefix() {
    let url = gcs_report_url("my-bucket", Some("my-prefix"), "abc123");
    assert_eq!(url, "https://storage.googleapis.com/my-bucket/my-prefix/abc123/index.html");
}

#[test]
fn test_gcs_report_url_no_prefix() {
    let url = gcs_report_url("my-bucket", None, "abc123");
    assert_eq!(url, "https://storage.googleapis.com/my-bucket/abc123/index.html");
}

#[test]
fn test_gcs_report_url_empty_prefix() {
    let url = gcs_report_url("my-bucket", Some(""), "abc123");
    assert_eq!(url, "https://storage.googleapis.com/my-bucket/abc123/index.html");
}

#[test]
fn gcs_storage_uses_its_configuration() {
    let config = GcsPluginConfig { bucket_name: "b".into(), path_prefix: Some("p".into()) };
    let storage = GcsStorage::with_client(config, 7u8);
    assert_eq!(*storage.client(), 7u8);
    assert_eq!(storage.build_key("k", "a.png"), "p/k/a.png");
    assert_eq!(storage.report_url("k"), "https://storage.googleapis.com/b/p/k/index.html");
}

#[test]
fn test_upload_extensions_coverage() {
    for ext in UPLOAD_EXTENSIONS {
        assert!(!ext.is_empty(), "empty extension in UPLOAD_EXTENSIONS");
    }
}

#[test]
fn upload_filter_is_case_sensitive() {
    assert!(should_upload("png"));
    assert!(should_upload("html"));
    assert!(should_upload("wasm"));
    assert!(!should_upload("PNG"));
    assert!(!should_upload("txt"));
    assert!(!should_upload(""));
    assert_eq!(MAX_CONCURRENCY, 50);
}

fn gzip_compress(data: &[u8]) -> Vec<u8> {
    let mut encoder = flate2::write::GzEncoder::new(Vec::new(), flate2::Compression::default());
    encoder.write_all(data).unwrap();
    encoder.finish().unwrap()
}

#[test]
fn test_maybe_decompress_gzip_header() {
    let original = b"hello world";
    let compressed = gzip_compress(original);
    let result = maybe_decompress(&compressed, Some("gzip"));
    assert_eq!(result, original);
}

#[test]
fn test_maybe_decompress_no_header() {
    let data = b"raw bytes";
    let result = maybe_decompress(data, None);
    assert_eq!(result, data);
}

#[test]
fn test_maybe_decompress_no_encoding_string() {
    let data = b"raw bytes";
    let result = maybe_decompress(data, Some("identity"));
    assert_eq!(result, data);
}

#[test]
fn test_maybe_decompress_corrupt_data_with_gzip_header() {
    let corrupt = b"not valid gzip data";
    let result = maybe_decompress(corrupt, Some("gzip"));
    assert_eq!(result, corrupt);
}

#[test]
fn maybe_decompress_ignores_case_of_encoding() {
    let compressed = gzip_compress(b"abc");
    assert_eq!(maybe_decompress(&compressed, Some("x-GZip")), b"abc");
}

#[test]
fn prepared_upload_round_trips() {
    let data = b"<html>report</html>".to_vec();
    let up = prepare_upload(Some("pre"), "key", "index.html", &data).unwrap();
    assert_eq!(up.object_key, "pre/key/index.html");
    assert_eq!(up.content_type, "text/html");
    assert_ne!(up.body, data);
    assert_eq!(maybe_decompress(&up.body, Some("gzip")), data);
}

#[test]
fn prepared_upload_guesses_image_type() {
    let up = prepare_upload(None, "key", "diff/a.png", b"x").unwrap();
    assert_eq!(up.object_key, "key/diff/a.png");
    assert_eq!(up.content_type, "image/png");
}

#[test]
fn download_plan_strips_prefix_and_skips_folder() {
    let keys = vec!["p/k/".to_string(), "p/k/a.png".to_string(), "p/k/sub/b.png".to_string(), "other/c.png".to_string()];
    let plan = plan_downloads("p/k/", &keys);
    assert_eq!(
        plan,
        vec![
            ("p/k/a.png".to_string(), "a.png".to_string()),
            ("p/k/sub/b.png".to_string(), "sub/b.png".to_string()),
            ("other/c.png".to_string(), "other/c.png".to_string()),
        ]
    );
    assert_eq!(strip_listing_prefix("ab", "a"), "a");
}

fn s3_config() -> S3PluginConfig {
    S3PluginConfig {
        bucket_name: "b".into(),
        acl: None,
        sse: None,
        sse_kms_key_id: None,
        path_prefix: None,
        endpoint: None,
        region: None,
    }
}

#[test]
fn put_params_encryption_choice() {
    let p = s3_put_params(&s3_config(), "image/png".into());
    assert_eq!(p.content_encoding, "gzip");
    assert!(p.sse.is_none());
    let p = s3_put_params(&S3PluginConfig { sse: Some(true), acl: Some("public-read".into()), ..s3_config() }, "t".into());
    assert!(matches!(p.sse, Some(SseConfig::Aes256)));
    assert_eq!(p.acl.as_deref(), Some("public-read"));
    let p = s3_put_params(
        &S3PluginConfig { sse: Some(false), sse_kms_key_id: Some("kms".into()), ..s3_config() },
        "t".into(),
    );
    assert!(matches!(p.sse, Some(SseConfig::Kms(ref k)) if k == "kms"));
}

#[test]
fn report_url_points_at_index_object() {
    for prefix in [None, Some(""), Some("pre")] {
        let key = build_s3_key(prefix, "k1", "index.html");
        assert_eq!(s3_report_url("bkt", prefix, "k1"), format!("https://bkt.s3.amazonaws.com/{key}"));
        let key = build_gcs_key(prefix, "k1", "index.html");
        assert_eq!(gcs_report_url("bkt", prefix, "k1"), format!("https://storage.googleapis.com/bkt/{key}"));
    }
}

#[test]
fn fetch_recovers_published_paths() {
    let relatives = ["index.html", "diff/a.png", "actual/sub/b.png"];
    for prefix in [None, Some("pre")] {
        let keys: Vec<String> = relatives.iter().map(|r| build_s3_key(prefix, "k1", r)).collect();
        let listing_prefix = build_s3_key(prefix, "k1", "");
        let plan = plan_downloads(&listing_prefix, &keys);
        let recovered: Vec<&str> = plan.iter().map(|(_, rel)| rel.as_str()).collect();
        assert_eq!(recovered, relatives.to_vec());
    }
}

#[test]
fn object_names_are_percent_encoded_as_one_segment() {
    assert_eq!(percent_encode("reports/abc 1/index.html".as_bytes()), "reports%2Fabc%201%2Findex.html");
    assert_eq!(percent_encode("A-z_0.9~".as_bytes()), "A-z_0.9~");
    assert_eq!(percent_encode("é".as_bytes()), "%C3%A9");
    assert_eq!(percent_encode(b""), "");
}

#[test]
fn upload_plan_keeps_one_upload_per_report_file_in_order() {
    let file = |p: &str, e: Option<&str>| ReportFile { relative_path: p.to_string(), extension: e.map(str::to_string) };
    let files = vec![
        file("index.html", Some("html")),
        file("notes.txt", Some("txt")),
        file("actual/a.png", Some("png")),
        file("README", None),
        file("out.json", Some("json")),
    ];
    let plan = plan_uploads(Some("reports"), "abc", &files);
    let got: Vec<(usize, &str)> = plan.iter().map(|u| (u.file, u.object_key.as_str())).collect();
    assert_eq!(got, vec![(0, "reports/abc/index.html"), (2, "reports/abc/actual/a.png"), (4, "reports/abc/out.json")]);
}

#[test]
fn prepared_uploads_compress_each_planned_file() {
    let file = |p: &str, e: Option<&str>| ReportFile { relative_path: p.to_string(), extension: e.map(str::to_string) };
    let files = vec![file("index.html", Some("html")), file("notes.txt", Some("txt")), file("out.json", Some("json"))];
    let contents = vec![Some(b"<html></html>".to_vec()), None, Some(b"{}".to_vec())];
    let uploads = prepare_uploads(None, "k", &files, &contents).unwrap();
    let keys: Vec<(usize, &str)> = uploads.iter().map(|(i, u)| (*i, u.object_key.as_str())).collect();
    assert_eq!(keys, vec![(0, "k/index.html"), (2, "k/out.json")]);
    assert_eq!(maybe_decompress(&uploads[1].1.body, Some("gzip")), b"{}".to_vec());
    assert_eq!(uploads[0].1.content_type, "text/html");
}
