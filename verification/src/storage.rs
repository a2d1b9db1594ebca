//! Object keys, report URLs, and the byte handling of report upload and
//! download for S3 and Google Cloud Storage.
use vstd::prelude::*;

use crate::config::{GcsPluginConfig, S3PluginConfig};
use crate::text::{
    ascii_lower, chars_of, contains_chars, contains_seq, owned, push_char, push_str, string_of, strings_view,
    to_ascii_lower,
};

verus! {

broadcast use vstd::string::group_string_axioms;

/// Errors raised by a storage backend.
#[derive(Debug)]
pub enum StorageError {
    /// Local file access failed.
    Io(String),
    /// An S3 request failed.
    S3(String),
    /// A Google Cloud Storage request failed.
    Gcs(String),
    /// Compressing an upload failed.
    Compression(String),
    /// The backend is misconfigured.
    Config(String),
}

/// What publishing a report gives back.
#[derive(Debug, Clone)]
pub struct PublishResult {
    pub report_url: Option<String>,
}

/// File extensions that are uploaded when a report is published.
pub const UPLOAD_EXTENSIONS: [&'static str; 10] = [
    "html",
    "js",
    "wasm",
    "png",
    "json",
    "jpeg",
    "jpg",
    "tiff",
    "bmp",
    "gif",
];

/// How many transfers run at once.
pub const MAX_CONCURRENCY: usize = 50;

/// A listed S3 object.
#[derive(Debug, Clone)]
pub struct ObjectEntry {
    pub key: String,
}

/// One page of an S3 listing.
#[derive(Debug, Clone)]
pub struct ListObjectsOutput {
    pub objects: Vec<ObjectEntry>,
    pub is_truncated: bool,
    pub next_continuation_token: Option<String>,
}

/// A downloaded S3 object.
#[derive(Debug)]
pub struct GetObjectOutput {
    pub body: Vec<u8>,
    pub content_encoding: Option<String>,
}

/// Server-side encryption of an uploaded object.
#[derive(Debug, Clone)]
pub enum SseConfig {
    Aes256,
    Kms(String),
}

/// Headers of an S3 upload.
#[derive(Debug, Clone)]
pub struct PutObjectParams {
    pub content_type: String,
    pub content_encoding: String,
    pub acl: Option<String>,
    pub sse: Option<SseConfig>,
}

/// A listed Google Cloud Storage object.
#[derive(Debug, Clone)]
pub struct GcsObjectEntry {
    pub name: String,
    pub content_encoding: Option<String>,
}

/// A Google Cloud Storage listing.
#[derive(Debug, Clone)]
pub struct GcsListOutput {
    pub objects: Vec<GcsObjectEntry>,
}

// ----- keys and URLs -----

/// The view of an optional string.
pub open spec fn opt_view(o: Option<&str>) -> Option<Seq<char>> {
    match o {
        Some(s) => Some(s@),
        None => None,
    }
}

/// The object key of `relative` under `storage_key`, below a non-empty prefix.
pub open spec fn object_key(prefix: Option<Seq<char>>, storage_key: Seq<char>, relative: Seq<char>) -> Seq<char> {
    match prefix {
        Some(p) if p.len() > 0 => p + seq!['/'] + storage_key + seq!['/'] + relative,
        _ => storage_key + seq!['/'] + relative,
    }
}

/// The part of a report URL between the host and `index.html`.
pub open spec fn report_path(prefix: Option<Seq<char>>, storage_key: Seq<char>) -> Seq<char> {
    match prefix {
        Some(p) if p.len() > 0 => p + seq!['/'] + storage_key + seq!['/'],
        _ => storage_key + seq!['/'],
    }
}

/// The public URL of a report published to an S3 bucket.
pub open spec fn s3_url(bucket: Seq<char>, prefix: Option<Seq<char>>, storage_key: Seq<char>) -> Seq<char> {
    "https://"@ + bucket + ".s3.amazonaws.com/"@ + report_path(prefix, storage_key) + "index.html"@
}

/// The public URL of a report published to a Google Cloud Storage bucket.
pub open spec fn gcs_url(bucket: Seq<char>, prefix: Option<Seq<char>>, storage_key: Seq<char>) -> Seq<char> {
    "https://storage.googleapis.com/"@ + bucket + seq!['/'] + report_path(prefix, storage_key)
        + "index.html"@
}

fn key_under_prefix(path_prefix: Option<&str>, storage_key: &str, relative_path: &str) -> (r: String)
    ensures
        r@ == object_key(opt_view(path_prefix), storage_key@, relative_path@),
{
    let mut r = String::new();
    match path_prefix {
        Some(p) => {
            if p.unicode_len() > 0 {
                push_str(&mut r, p);
                push_char(&mut r, '/');
            }
        },
        None => {},
    }
    push_str(&mut r, storage_key);
    push_char(&mut r, '/');
    push_str(&mut r, relative_path);
    proof {
        match path_prefix {
            Some(p) if p@.len() > 0 => {
                assert(r@ =~= p@ + seq!['/'] + storage_key@ + seq!['/'] + relative_path@);
            },
            _ => {
                assert(r@ =~= storage_key@ + seq!['/'] + relative_path@);
            },
        }
    }
    r
}

fn push_report_path(r: &mut String, path_prefix: Option<&str>, storage_key: &str)
    ensures
        final(r)@ == old(r)@ + report_path(opt_view(path_prefix), storage_key@),
{
    let ghost start = r@;
    match path_prefix {
        Some(p) => {
            if p.unicode_len() > 0 {
                push_str(r, p);
                push_char(r, '/');
            }
        },
        None => {},
    }
    push_str(r, storage_key);
    push_char(r, '/');
    proof {
        match path_prefix {
            Some(p) if p@.len() > 0 => {
                assert(r@ =~= start + (p@ + seq!['/'] + storage_key@ + seq!['/']));
            },
            _ => {
                assert(r@ =~= start + (storage_key@ + seq!['/']));
            },
        }
    }
}

/// The S3 object key of `relative_path` in the report stored under
/// `storage_key`, below `path_prefix` when it is non-empty.
pub fn build_s3_key(path_prefix: Option<&str>, storage_key: &str, relative_path: &str) -> (r: String)
    ensures
        r@ == object_key(opt_view(path_prefix), storage_key@, relative_path@),
{
    key_under_prefix(path_prefix, storage_key, relative_path)
}

/// The public URL of the report stored under `storage_key` in an S3 bucket.
pub fn s3_report_url(bucket_name: &str, path_prefix: Option<&str>, storage_key: &str) -> (r: String)
    ensures
        r@ == s3_url(bucket_name@, opt_view(path_prefix), storage_key@),
{
    let mut r = owned("https://");
    push_str(&mut r, bucket_name);
    push_str(&mut r, ".s3.amazonaws.com/");
    push_report_path(&mut r, path_prefix, storage_key);
    push_str(&mut r, "index.html");
    proof {
        assert(r@ =~= s3_url(bucket_name@, opt_view(path_prefix), storage_key@));
    }
    r
}

/// The Google Cloud Storage object name of `relative_path` in the report
/// stored under `storage_key`, below `path_prefix` when it is non-empty.
pub fn build_gcs_key(path_prefix: Option<&str>, storage_key: &str, relative_path: &str) -> (r: String)
    ensures
        r@ == object_key(opt_view(path_prefix), storage_key@, relative_path@),
{
    key_under_prefix(path_prefix, storage_key, relative_path)
}

/// The public URL of the report stored under `storage_key` in a Google
/// Cloud Storage bucket.
pub fn gcs_report_url(bucket_name: &str, path_prefix: Option<&str>, storage_key: &str) -> (r: String)
    ensures
        r@ == gcs_url(bucket_name@, opt_view(path_prefix), storage_key@),
{
    let mut r = owned("https://storage.googleapis.com/");
    push_str(&mut r, bucket_name);
    push_char(&mut r, '/');
    push_report_path(&mut r, path_prefix, storage_key);
    push_str(&mut r, "index.html");
    proof {
        assert(r@ =~= gcs_url(bucket_name@, opt_view(path_prefix), storage_key@));
    }
    r
}

/// The view of an optional owned string.
pub open spec fn opt_string_view(o: Option<String>) -> Option<Seq<char>> {
    match o {
        Some(s) => Some(s@),
        None => None,
    }
}

/// The Google Cloud Storage backend with its client.
pub struct GcsStorage<C> {
    client: C,
    config: GcsPluginConfig,
}

impl<C> GcsStorage<C> {
    /// The configuration this backend was made with.
    pub closed spec fn spec_config(&self) -> GcsPluginConfig {
        self.config
    }

    /// The client this backend was made with.
    pub closed spec fn spec_client(&self) -> C {
        self.client
    }

    /// A backend that talks to the bucket through `client`.
    pub fn with_client(config: GcsPluginConfig, client: C) -> (r: Self)
        ensures
            r.spec_config() == config,
            r.spec_client() == client,
    {
        GcsStorage { client, config }
    }

    /// The client.
    pub fn client(&self) -> (r: &C)
        ensures
            *r == self.spec_client(),
    {
        &self.client
    }

    /// The configuration.
    pub fn config(&self) -> (r: &GcsPluginConfig)
        ensures
            *r == self.spec_config(),
    {
        &self.config
    }

    /// The object name of `relative_path` in the report under `storage_key`.
    pub fn build_key(&self, storage_key: &str, relative_path: &str) -> (r: String)
        ensures
            r@ == object_key(opt_string_view(self.spec_config().path_prefix), storage_key@, relative_path@),
    {
        let prefix = match &self.config.path_prefix {
            Some(p) => Some(p.as_str()),
            None => None,
        };
        build_gcs_key(prefix, storage_key, relative_path)
    }

    /// The public URL of the report under `storage_key`.
    pub fn report_url(&self, storage_key: &str) -> (r: String)
        ensures
            r@ == gcs_url(self.spec_config().bucket_name@, opt_string_view(self.spec_config().path_prefix), storage_key@),
    {
        let prefix = match &self.config.path_prefix {
            Some(p) => Some(p.as_str()),
            None => None,
        };
        gcs_report_url(self.config.bucket_name.as_str(), prefix, storage_key)
    }
}

/// The S3 object key of `relative_path` under `storage_key` for `config`.
pub fn s3_object_key(config: &S3PluginConfig, storage_key: &str, relative_path: &str) -> (r: String)
    ensures
        r@ == object_key(opt_string_view(config.path_prefix), storage_key@, relative_path@),
{
    let prefix = match &config.path_prefix {
        Some(p) => Some(p.as_str()),
        None => None,
    };
    build_s3_key(prefix, storage_key, relative_path)
}

/// The public URL of the report under `storage_key` for `config`.
pub fn s3_config_report_url(config: &S3PluginConfig, storage_key: &str) -> (r: String)
    ensures
        r@ == s3_url(config.bucket_name@, opt_string_view(config.path_prefix), storage_key@),
{
    let prefix = match &config.path_prefix {
        Some(p) => Some(p.as_str()),
        None => None,
    };
    s3_report_url(config.bucket_name.as_str(), prefix, storage_key)
}

// ----- which objects and files move -----

/// Whether a file with extension `ext` is uploaded.
pub open spec fn is_upload_extension(ext: Seq<char>) -> bool {
    exists|i: int| 0 <= i < 10 && UPLOAD_EXTENSIONS[i]@ == ext
}

/// The uploaded extensions are exactly the ten of `UPLOAD_EXTENSIONS`:
/// pages, scripts, data and every image format of a report.
pub proof fn lemma_upload_extensions(ext: Seq<char>)
    ensures
        is_upload_extension(ext) <==> (ext == "html"@ || ext == "js"@ || ext == "wasm"@ || ext == "png"@ || ext
            == "json"@ || ext == "jpeg"@ || ext == "jpg"@ || ext == "tiff"@ || ext == "bmp"@ || ext == "gif"@),
{
    if ext == "html"@ { assert(UPLOAD_EXTENSIONS[0]@ == ext); }
    if ext == "js"@ { assert(UPLOAD_EXTENSIONS[1]@ == ext); }
    if ext == "wasm"@ { assert(UPLOAD_EXTENSIONS[2]@ == ext); }
    if ext == "png"@ { assert(UPLOAD_EXTENSIONS[3]@ == ext); }
    if ext == "json"@ { assert(UPLOAD_EXTENSIONS[4]@ == ext); }
    if ext == "jpeg"@ { assert(UPLOAD_EXTENSIONS[5]@ == ext); }
    if ext == "jpg"@ { assert(UPLOAD_EXTENSIONS[6]@ == ext); }
    if ext == "tiff"@ { assert(UPLOAD_EXTENSIONS[7]@ == ext); }
    if ext == "bmp"@ { assert(UPLOAD_EXTENSIONS[8]@ == ext); }
    if ext == "gif"@ { assert(UPLOAD_EXTENSIONS[9]@ == ext); }
}

/// Every listed extension is uploaded: a report file whose extension is
/// any of the ten of `UPLOAD_EXTENSIONS` is one that `plan_uploads` plans
/// exactly one upload for.
pub proof fn lemma_every_listed_extension_uploads(i: int, f: ReportFile)
    requires
        0 <= i < 10,
        f.extension matches Some(e) && e@ == UPLOAD_EXTENSIONS[i]@,
    ensures
        is_upload_extension(UPLOAD_EXTENSIONS[i]@),
        uploads(f),
{
}

/// Whether a file with extension `ext` (case as found) is uploaded.
pub fn should_upload(ext: &str) -> (r: bool)
    ensures
        r == is_upload_extension(ext@),
{
    let mut i: usize = 0;
    while i < 10
        invariant
            i <= 10,
            forall|j: int| 0 <= j < i ==> UPLOAD_EXTENSIONS[j]@ != ext@,
        decreases 10 - i,
    {
        let candidate: &str = UPLOAD_EXTENSIONS[i];
        if candidate.unicode_len() == ext.unicode_len() && same_chars(candidate, ext) {
            return true;
        }
        i = i + 1;
    }
    false
}

fn same_chars(a: &str, b: &str) -> (r: bool)
    ensures
        r == (a@ == b@),
{
    let x = chars_of(a);
    let y = chars_of(b);
    if x.len() != y.len() {
        return false;
    }
    let mut i: usize = 0;
    while i < x.len()
        invariant
            x@ == a@,
            y@ == b@,
            x@.len() == y@.len(),
            i <= x@.len(),
            forall|j: int| 0 <= j < i ==> x@[j] == y@[j],
        decreases x@.len() - i,
    {
        if x[i] != y[i] {
            return false;
        }
        i = i + 1;
    }
    proof {
        assert(x@ =~= y@);
    }
    true
}

/// The path of a listed object relative to the listing prefix: the key
/// without the prefix when it starts with it, else the whole key.
pub open spec fn relative_to_prefix(prefix: Seq<char>, key: Seq<char>) -> Seq<char> {
    if prefix.len() <= key.len() && key.subrange(0, prefix.len() as int) == prefix {
        key.subrange(prefix.len() as int, key.len() as int)
    } else {
        key
    }
}

/// `key` relative to `prefix` (see `relative_to_prefix`).
pub fn strip_listing_prefix(prefix: &str, key: &str) -> (r: String)
    ensures
        r@ == relative_to_prefix(prefix@, key@),
{
    let p = chars_of(prefix);
    let k = chars_of(key);
    if p.len() <= k.len() {
        let mut i: usize = 0;
        while i < p.len()
            invariant
                p@ == prefix@,
                k@ == key@,
                p@.len() <= k@.len(),
                i <= p@.len(),
                forall|j: int| 0 <= j < i ==> k@[j] == p@[j],
            decreases p@.len() - i,
        {
            if k[i] != p[i] {
                proof {
                    assert(k@.subrange(0, p@.len() as int)[i as int] != p@[i as int]);
                }
                return owned(key);
            }
            i = i + 1;
        }
        proof {
            assert(k@.subrange(0, p@.len() as int) =~= p@);
        }
        let rest = slice_from(&k, p.len());
        return string_of(rest.as_slice());
    }
    owned(key)
}

fn slice_from(v: &Vec<char>, from: usize) -> (r: Vec<char>)
    requires
        from <= v@.len(),
    ensures
        r@ == v@.subrange(from as int, v@.len() as int),
{
    let mut r: Vec<char> = Vec::new();
    let mut i = from;
    while i < v.len()
        invariant
            from <= i <= v@.len(),
            r@ == v@.subrange(from as int, i as int),
        decreases v@.len() - i,
    {
        r.push(v[i]);
        proof {
            assert(v@.subrange(from as int, i + 1) =~= v@.subrange(from as int, i as int).push(v@[i as int]));
        }
        i = i + 1;
    }
    r
}

/// The objects of a listing that are downloaded, with their local paths:
/// each key taken relative to the prefix, in listing order, leaving out
/// those that are the prefix itself.
pub open spec fn download_targets(prefix: Seq<char>, keys: Seq<Seq<char>>) -> Seq<(Seq<char>, Seq<char>)>
    decreases keys.len(),
{
    if keys.len() == 0 {
        Seq::empty()
    } else {
        let rest = download_targets(prefix, keys.drop_last());
        let rel = relative_to_prefix(prefix, keys.last());
        if rel.len() == 0 {
            rest
        } else {
            rest.push((keys.last(), rel))
        }
    }
}

/// The views of a list of string pairs.
pub open spec fn pairs_view(v: Seq<(String, String)>) -> Seq<(Seq<char>, Seq<char>)> {
    v.map_values(|p: (String, String)| (p.0@, p.1@))
}

/// A file found in a report directory: its path relative to the directory,
/// and its extension as the file system gives it (`None` when it has none or
/// it is not Unicode).
#[derive(Debug, Clone)]
pub struct ReportFile {
    pub relative_path: String,
    pub extension: Option<String>,
}

/// Whether a report file is uploaded: its extension is one of
/// `UPLOAD_EXTENSIONS`.
pub open spec fn uploads(f: ReportFile) -> bool {
    f.extension matches Some(e) && is_upload_extension(e@)
}

/// One upload of a publication: which file, and the object key it goes to.
#[derive(Debug, Clone)]
pub struct PlannedUpload {
    pub file: usize,
    pub object_key: String,
}

/// The uploads that publish the report files `files` under `storage_key`:
/// exactly one per file whose extension is uploaded, in the order of
/// `files`, each to the object key of the file's relative path.
pub fn plan_uploads(path_prefix: Option<&str>, storage_key: &str, files: &Vec<ReportFile>) -> (r: Vec<PlannedUpload>)
    ensures
        forall|i: int|
            0 <= i < r@.len() ==> {
                let k = #[trigger] r@[i].file as int;
                &&& k < files@.len()
                &&& uploads(files@[k])
                &&& r@[i].object_key@ == object_key(opt_view(path_prefix), storage_key@, files@[k].relative_path@)
            },
        forall|i: int, j: int| 0 <= i < j < r@.len() ==> r@[i].file < r@[j].file,
        forall|k: int| 0 <= k < files@.len() && uploads(#[trigger] files@[k]) ==> exists|i: int|
            0 <= i < r@.len() && r@[i].file == k,
{
    let mut r: Vec<PlannedUpload> = Vec::new();
    let mut n: usize = 0;
    while n < files.len()
        invariant
            n <= files@.len(),
            forall|i: int|
                0 <= i < r@.len() ==> {
                    let k = #[trigger] r@[i].file as int;
                    &&& k < n
                    &&& uploads(files@[k])
                    &&& r@[i].object_key@ == object_key(opt_view(path_prefix), storage_key@, files@[k].relative_path@)
                },
            forall|i: int, j: int| 0 <= i < j < r@.len() ==> r@[i].file < r@[j].file,
            forall|k: int| 0 <= k < n && uploads(#[trigger] files@[k]) ==> exists|i: int|
                0 <= i < r@.len() && r@[i].file == k,
        decreases files@.len() - n,
    {
        let selected = match &files[n].extension {
            Some(e) => should_upload(e.as_str()),
            None => false,
        };
        if selected {
            let object_key = key_under_prefix(path_prefix, storage_key, files[n].relative_path.as_str());
            let ghost before = r@;
            r.push(PlannedUpload { file: n, object_key });
            proof {
                assert forall|k: int| 0 <= k < n + 1 && uploads(#[trigger] files@[k]) implies exists|i: int|
                    0 <= i < r@.len() && r@[i].file == k by {
                    if k < n {
                        let i = choose|i: int| 0 <= i < before.len() && before[i].file == k;
                        assert(r@[i].file == k);
                    } else {
                        assert(r@[before.len() as int].file == k);
                    }
                }
            }
        } else {
            proof {
                assert(!uploads(files@[n as int]));
            }
        }
        n = n + 1;
    }
    r
}

/// The listed objects to download, each with its path relative to `prefix`.
pub fn plan_downloads(prefix: &str, keys: &Vec<String>) -> (r: Vec<(String, String)>)
    ensures
        pairs_view(r@) == download_targets(prefix@, strings_view(keys@)),
{
    let mut r: Vec<(String, String)> = Vec::new();
    let mut i: usize = 0;
    while i < keys.len()
        invariant
            i <= keys@.len(),
            pairs_view(r@) == download_targets(prefix@, strings_view(keys@.subrange(0, i as int))),
        decreases keys@.len() - i,
    {
        let rel = strip_listing_prefix(prefix, keys[i].as_str());
        proof {
            let ks = strings_view(keys@.subrange(0, i + 1));
            assert(ks.drop_last() =~= strings_view(keys@.subrange(0, i as int)));
            assert(ks.last() == keys@[i as int]@);
        }
        if rel.unicode_len() > 0 {
            let key = keys[i].clone();
            proof {
                assert(key@ == keys@[i as int]@);
            }
            let ghost before = r@;
            r.push((key, rel));
            proof {
                assert(pairs_view(r@) =~= pairs_view(before).push((keys@[i as int]@, rel@)));
            }
        }
        i = i + 1;
    }
    proof {
        assert(keys@.subrange(0, keys@.len() as int) =~= keys@);
    }
    r
}

// ----- compression -----

/// What the gzip decoder gives back for `data`: the decompressed bytes, or
/// nothing when `data` is not a complete gzip stream.
pub uninterp spec fn gzip_decoded(data: Seq<u8>) -> Option<Seq<u8>>;

/// The gzip stream that the encoder writes for `data` at the default level,
/// or nothing when the encoder reports an error. The stream is written into
/// memory with a fixed header, so the outcome depends on `data` alone.
pub uninterp spec fn gzip_encoded(data: Seq<u8>) -> Option<Seq<u8>>;

/// Calls `flate2::read::GzDecoder::new` on `data` and reads it to the end;
/// a read error gives nothing.
#[verifier::external_body]
fn gunzip(data: &[u8]) -> (r: Option<Vec<u8>>)
    ensures
        match r {
            Some(v) => gzip_decoded(data@) == Some(v@),
            None => gzip_decoded(data@) is None,
        },
{
    let mut decoder = flate2::read::GzDecoder::new(data);
    let mut out: Vec<u8> = Vec::new();
    match std::io::Read::read_to_end(&mut decoder, &mut out) {
        Ok(_) => Some(out),
        Err(_) => None,
    }
}

/// Writes `data` through `flate2::write::GzEncoder` at the default level
/// and finishes the stream. What it returns, and whether it fails, is named
/// by `gzip_encoded`; the decoder reads the stream back to `data`; an I/O
/// error becomes its message.
#[verifier::external_body]
fn gzip(data: &[u8]) -> (r: Result<Vec<u8>, String>)
    ensures
        match r {
            Ok(v) => gzip_encoded(data@) == Some(v@) && gzip_decoded(v@) == Some(data@),
            Err(_) => gzip_encoded(data@) is None,
        },
{
    let mut encoder = flate2::write::GzEncoder::new(Vec::new(), flate2::Compression::default());
    match std::io::Write::write_all(&mut encoder, data) {
        Ok(()) => {},
        Err(e) => return Err(e.to_string()),
    }
    encoder.finish().map_err(|e| e.to_string())
}

/// Whether a content encoding names gzip (ASCII case ignored).
pub open spec fn names_gzip(encoding: Option<Seq<char>>) -> bool {
    match encoding {
        Some(e) => contains_seq(e.map_values(|c: char| ascii_lower(c)), "gzip"@),
        None => false,
    }
}

/// The bytes of a downloaded object: decompressed when its content encoding
/// names gzip and it decodes, else as they came.
pub open spec fn stored_bytes(data: Seq<u8>, encoding: Option<Seq<char>>) -> Seq<u8> {
    if names_gzip(encoding) {
        match gzip_decoded(data) {
            Some(d) => d,
            None => data,
        }
    } else {
        data
    }
}

fn lower_chars(s: &str) -> (r: Vec<char>)
    ensures
        r@ == s@.map_values(|c: char| ascii_lower(c)),
{
    let v = chars_of(s);
    let mut r: Vec<char> = Vec::new();
    let mut i: usize = 0;
    while i < v.len()
        invariant
            v@ == s@,
            i <= v@.len(),
            r@ == v@.subrange(0, i as int).map_values(|c: char| ascii_lower(c)),
        decreases v@.len() - i,
    {
        r.push(to_ascii_lower(v[i]));
        proof {
            assert(v@.subrange(0, i + 1).map_values(|c: char| ascii_lower(c)) =~= v@.subrange(
                0,
                i as int,
            ).map_values(|c: char| ascii_lower(c)).push(ascii_lower(v@[i as int])));
        }
        i = i + 1;
    }
    proof {
        assert(v@.subrange(0, v@.len() as int) =~= v@);
    }
    r
}

/// Whether `content_encoding` names gzip.
pub fn is_gzip_encoding(content_encoding: Option<&str>) -> (r: bool)
    ensures
        r == names_gzip(opt_view(content_encoding)),
{
    match content_encoding {
        Some(e) => {
            let lowered = lower_chars(e);
            let pat = chars_of("gzip");
            contains_chars(lowered.as_slice(), pat.as_slice())
        },
        None => false,
    }
}

/// The bytes to store for a downloaded object (see `stored_bytes`).
pub fn maybe_decompress(data: &[u8], content_encoding: Option<&str>) -> (r: Vec<u8>)
    ensures
        r@ == stored_bytes(data@, opt_view(content_encoding)),
{
    if !is_gzip_encoding(content_encoding) {
        return copy_bytes(data);
    }
    match gunzip(data) {
        Some(d) => d,
        None => copy_bytes(data),
    }
}

fn copy_bytes(data: &[u8]) -> (r: Vec<u8>)
    ensures
        r@ == data@,
{
    let mut r: Vec<u8> = Vec::new();
    let mut i: usize = 0;
    while i < data.len()
        invariant
            i <= data@.len(),
            r@ == data@.subrange(0, i as int),
        decreases data@.len() - i,
    {
        r.push(data[i]);
        proof {
            assert(data@.subrange(0, i + 1) =~= data@.subrange(0, i as int).push(data@[i as int]));
        }
        i = i + 1;
    }
    proof {
        assert(data@.subrange(0, data@.len() as int) =~= data@);
    }
    r
}

// ----- uploads -----

/// The MIME type guessed from a path's extension, `application/octet-stream`
/// when none is known.
pub uninterp spec fn guessed_mime(path: Seq<char>) -> Seq<char>;

/// Calls `mime_guess::from_path(path).first_or_octet_stream()` and renders
/// the type as text; the table is fixed, so the result is named by
/// `guessed_mime`.
#[verifier::external_body]
fn content_type_for(path: &str) -> (r: String)
    ensures
        r@ == guessed_mime(path@),
{
    mime_guess::from_path(path).first_or_octet_stream().to_string()
}

/// An upload ready to send: where it goes, its type, and the compressed body.
#[derive(Debug)]
pub struct PreparedUpload {
    pub object_key: String,
    pub content_type: String,
    pub body: Vec<u8>,
}

/// Prepares the upload of the file at `relative_path` (bytes `data`) in the
/// report under `storage_key`: its object key, the type guessed from its
/// path, and its gzip-compressed bytes.
pub fn prepare_upload(path_prefix: Option<&str>, storage_key: &str, relative_path: &str, data: &[u8]) -> (r: Result<
    PreparedUpload,
    StorageError,
>)
    ensures
        match gzip_encoded(data@) {
            Some(body) => r matches Ok(u) && {
                &&& u.object_key@ == object_key(opt_view(path_prefix), storage_key@, relative_path@)
                &&& u.content_type@ == guessed_mime(relative_path@)
                &&& u.body@ == body
                &&& stored_bytes(u.body@, Some("gzip"@)) == data@
            },
            None => r matches Err(StorageError::Compression(_)),
        },
{
    let object_key = key_under_prefix(path_prefix, storage_key, relative_path);
    let content_type = content_type_for(relative_path);
    match gzip(data) {
        Ok(body) => {
            proof {
                lemma_gzip_named();
            }
            Ok(PreparedUpload { object_key, content_type, body })
        },
        Err(e) => Err(StorageError::Compression(e)),
    }
}

/// The encoding name `gzip` names gzip.
pub proof fn lemma_gzip_named()
    ensures
        names_gzip(Some("gzip"@)),
{
    reveal_strlit("gzip");
    let s = "gzip"@;
    assert(s.map_values(|c: char| ascii_lower(c)) =~= s);
    assert(s.subrange(0, 4) =~= s);
    assert(crate::text::occurs_at(s.map_values(|c: char| ascii_lower(c)), s, 0));
}

/// The complete uploads that publish the report files `files`, where
/// `contents[k]` holds the bytes of file `k` (needed for the files that are
/// uploaded): exactly one per file whose extension is uploaded (see
/// `plan_uploads`), in the order of `files`, each with the file's object key,
/// the type guessed from its path and its gzip-compressed bytes. It fails
/// with a compression error exactly when one of those files does not
/// compress.
pub fn prepare_uploads(
    path_prefix: Option<&str>,
    storage_key: &str,
    files: &Vec<ReportFile>,
    contents: &Vec<Option<Vec<u8>>>,
) -> (r: Result<Vec<(usize, PreparedUpload)>, StorageError>)
    requires
        contents@.len() == files@.len(),
        forall|k: int| 0 <= k < files@.len() && uploads(#[trigger] files@[k]) ==> contents@[k] is Some,
    ensures
        (forall|k: int|
            0 <= k < files@.len() && uploads(#[trigger] files@[k]) ==> gzip_encoded(contents@[k]->0@) is Some) ==> (
        r matches Ok(v) && {
            &&& forall|i: int|
                0 <= i < v@.len() ==> {
                    let k = #[trigger] v@[i].0 as int;
                    let u = v@[i].1;
                    &&& k < files@.len()
                    &&& uploads(files@[k])
                    &&& u.object_key@ == object_key(opt_view(path_prefix), storage_key@, files@[k].relative_path@)
                    &&& u.content_type@ == guessed_mime(files@[k].relative_path@)
                    &&& gzip_encoded(contents@[k]->0@) == Some(u.body@)
                    &&& stored_bytes(u.body@, Some("gzip"@)) == contents@[k]->0@
                }
            &&& forall|i: int, j: int| 0 <= i < j < v@.len() ==> v@[i].0 < v@[j].0
            &&& forall|k: int| 0 <= k < files@.len() && uploads(#[trigger] files@[k]) ==> exists|i: int|
                0 <= i < v@.len() && v@[i].0 == k
        }),
        r matches Err(e) ==> e is Compression && exists|k: int|
            0 <= k < files@.len() && uploads(#[trigger] files@[k]) && gzip_encoded(contents@[k]->0@) is None,
{
    let plan = plan_uploads(path_prefix, storage_key, files);
    let mut v: Vec<(usize, PreparedUpload)> = Vec::new();
    let mut i: usize = 0;
    while i < plan.len()
        invariant
            contents@.len() == files@.len(),
            forall|k: int| 0 <= k < files@.len() && uploads(#[trigger] files@[k]) ==> contents@[k] is Some,
            forall|i: int|
                0 <= i < plan@.len() ==> {
                    let k = #[trigger] plan@[i].file as int;
                    &&& k < files@.len()
                    &&& uploads(files@[k])
                },
            forall|i: int, j: int| 0 <= i < j < plan@.len() ==> plan@[i].file < plan@[j].file,
            forall|k: int| 0 <= k < files@.len() && uploads(#[trigger] files@[k]) ==> exists|i: int|
                0 <= i < plan@.len() && plan@[i].file == k,
            i <= plan@.len(),
            v@.len() == i,
            forall|j: int|
                0 <= j < i ==> {
                    let k = #[trigger] v@[j].0 as int;
                    let u = v@[j].1;
                    &&& k == plan@[j].file
                    &&& u.object_key@ == object_key(opt_view(path_prefix), storage_key@, files@[k].relative_path@)
                    &&& u.content_type@ == guessed_mime(files@[k].relative_path@)
                    &&& gzip_encoded(contents@[k]->0@) == Some(u.body@)
                    &&& stored_bytes(u.body@, Some("gzip"@)) == contents@[k]->0@
                },
        decreases plan@.len() - i,
    {
        let k = plan[i].file;
        assert(uploads(files@[k as int]));
        let data = match &contents[k] {
            Some(d) => d,
            None => {
                return Err(StorageError::Compression(String::new()));
            },
        };
        match prepare_upload(path_prefix, storage_key, files[k].relative_path.as_str(), data.as_slice()) {
            Ok(u) => {
                v.push((k, u));
            },
            Err(e) => {
                return Err(e);
            },
        }
        i = i + 1;
    }
    proof {
        assert forall|a: int| 0 <= a < v@.len() implies v@[a].0 == plan@[a].file by {}
        assert forall|k: int| 0 <= k < files@.len() && uploads(#[trigger] files@[k]) implies exists|a: int|
            0 <= a < v@.len() && v@[a].0 == k by {
            let a = choose|a: int| 0 <= a < plan@.len() && plan@[a].file == k;
            assert(v@[a].0 == plan@[a].file);
        }
    }
    Ok(v)
}

/// The upload headers for an S3 object: gzip-encoded, with the configured
/// ACL, and KMS encryption when a key is configured, else AES-256 when
/// encryption is on, else none.
pub fn s3_put_params(config: &S3PluginConfig, content_type: String) -> (r: PutObjectParams)
    ensures
        r.content_type@ == content_type@,
        r.content_encoding@ == "gzip"@,
        opt_string_view(r.acl) == opt_string_view(config.acl),
        match config.sse_kms_key_id {
            Some(k) => r.sse matches Some(SseConfig::Kms(id)) && id@ == k@,
            None => if config.sse == Some(true) {
                r.sse matches Some(SseConfig::Aes256)
            } else {
                r.sse is None
            },
        },
{
    let acl = match &config.acl {
        Some(a) => Some(a.clone()),
        None => None,
    };
    let sse = match &config.sse_kms_key_id {
        Some(k) => Some(SseConfig::Kms(k.clone())),
        None => {
            let on = match config.sse {
                Some(b) => b,
                None => false,
            };
            if on {
                Some(SseConfig::Aes256)
            } else {
                None
            }
        },
    };
    PutObjectParams { content_type, content_encoding: owned("gzip"), acl, sse }
}


// ----- laws -----

/// The S3 report URL points at the published `index.html` object.
pub proof fn lemma_s3_url_is_index_object(bucket: Seq<char>, prefix: Option<Seq<char>>, storage_key: Seq<char>)
    ensures
        s3_url(bucket, prefix, storage_key) == "https://"@ + bucket + ".s3.amazonaws.com/"@ + object_key(
            prefix,
            storage_key,
            "index.html"@,
        ),
{
    assert(report_path(prefix, storage_key) + "index.html"@ =~= object_key(prefix, storage_key, "index.html"@));
    assert(s3_url(bucket, prefix, storage_key) =~= "https://"@ + bucket + ".s3.amazonaws.com/"@ + (report_path(
        prefix,
        storage_key,
    ) + "index.html"@));
}

/// The Google Cloud Storage report URL points at the published `index.html`
/// object.
pub proof fn lemma_gcs_url_is_index_object(bucket: Seq<char>, prefix: Option<Seq<char>>, storage_key: Seq<char>)
    ensures
        gcs_url(bucket, prefix, storage_key) == "https://storage.googleapis.com/"@ + bucket + seq!['/'] + object_key(
            prefix,
            storage_key,
            "index.html"@,
        ),
{
    assert(report_path(prefix, storage_key) + "index.html"@ =~= object_key(prefix, storage_key, "index.html"@));
    assert(gcs_url(bucket, prefix, storage_key) =~= "https://storage.googleapis.com/"@ + bucket + seq!['/'] + (
    report_path(prefix, storage_key) + "index.html"@));
}

/// A file published under `storage_key` is fetched back to the path it was
/// published from: the listing prefix is the key of the empty path, and
/// stripping it from an object key gives back the relative path.
pub proof fn lemma_fetch_recovers_path(prefix: Option<Seq<char>>, storage_key: Seq<char>, relative: Seq<char>)
    ensures
        relative_to_prefix(object_key(prefix, storage_key, Seq::empty()), object_key(prefix, storage_key, relative))
            == relative,
{
    let listing = object_key(prefix, storage_key, Seq::empty());
    let key = object_key(prefix, storage_key, relative);
    assert(key =~= listing + relative);
    assert(key.subrange(0, listing.len() as int) =~= listing);
    assert(key.subrange(listing.len() as int, key.len() as int) =~= relative);
}

// ----- object names in URLs -----

/// A byte that stands for itself in a URL path segment: an ASCII letter or
/// digit, or one of `-`, `_`, `.` and `~`.
pub open spec fn unreserved(b: u8) -> bool {
    (0x41 <= b && b <= 0x5a) || (0x61 <= b && b <= 0x7a) || (0x30 <= b && b <= 0x39) || b == 0x2d || b == 0x5f
        || b == 0x2e || b == 0x7e
}

/// The upper-case hexadecimal digit of `d`, below 16.
pub open spec fn hex_upper(d: int) -> char {
    if d < 10 {
        (0x30 + d) as char
    } else {
        (0x37 + d) as char
    }
}

/// How one byte is written in a path segment: itself when unreserved, else
/// `%` and its two upper-case hexadecimal digits.
pub open spec fn encoded_byte(b: u8) -> Seq<char> {
    if unreserved(b) {
        seq![b as char]
    } else {
        seq!['%', hex_upper(b as int / 16), hex_upper(b as int % 16)]
    }
}

/// The bytes `bytes` percent-encoded as one URL path segment.
pub open spec fn percent_encoded(bytes: Seq<u8>) -> Seq<char>
    decreases bytes.len(),
{
    if bytes.len() == 0 {
        Seq::empty()
    } else {
        percent_encoded(bytes.drop_last()) + encoded_byte(bytes.last())
    }
}

fn hex_digit(d: u8) -> (c: char)
    requires
        d < 16,
    ensures
        c == hex_upper(d as int),
{
    if d < 10 {
        (0x30u8 + d) as char
    } else {
        (0x37u8 + d) as char
    }
}

/// Percent-encodes `bytes` as one URL path segment (see `percent_encoded`),
/// so that an object name with `/` in it names one object.
pub fn percent_encode(bytes: &[u8]) -> (r: String)
    ensures
        r@ == percent_encoded(bytes@),
{
    let mut r = String::new();
    let mut i: usize = 0;
    while i < bytes.len()
        invariant
            i <= bytes@.len(),
            r@ == percent_encoded(bytes@.subrange(0, i as int)),
        decreases bytes@.len() - i,
    {
        let b = bytes[i];
        let ghost before = r@;
        proof {
            let next = bytes@.subrange(0, i + 1);
            assert(next.drop_last() =~= bytes@.subrange(0, i as int));
            assert(next.last() == b);
        }
        if (0x41 <= b && b <= 0x5a) || (0x61 <= b && b <= 0x7a) || (0x30 <= b && b <= 0x39) || b == 0x2d || b
            == 0x5f || b == 0x2e || b == 0x7e {
            push_char(&mut r, b as char);
            proof {
                assert(r@ =~= before + seq![b as char]);
            }
        } else {
            push_char(&mut r, '%');
            push_char(&mut r, hex_digit(b / 16));
            push_char(&mut r, hex_digit(b % 16));
            proof {
                assert(r@ =~= before + seq!['%', hex_upper(b as int / 16), hex_upper(b as int % 16)]);
            }
        }
        i = i + 1;
    }
    proof {
        assert(bytes@.subrange(0, bytes@.len() as int) =~= bytes@);
    }
    r
}

} // verus!
