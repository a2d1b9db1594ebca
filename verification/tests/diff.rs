use kaiki::antialias::{has_many_siblings, is_antialiased};
use kaiki::decode::{load_image_pair, settle_load, LoadedImages};
use kaiki::image::{compare_judged, draw_pixel_aa, draw_pixel_diff, expand_image, DiffColors, ImageData, PixelJudgement};
use kaiki::regions::detect_diff_regions;

fn flat_3x3(r: u8, g: u8, b: u8) -> Vec<u8> {
    let pixel = [r, g, b, 255];
    pixel.repeat(9)
}

/// The Y (brightness) part of the YIQ colour delta between two pixels.
fn y_delta(img1: &[u8], img2: &[u8], k: usize, m: usize) -> f64 {
    const PHI: f64 = 1.618033988749895;
    let (r1, g1, b1, a1) = (img1[k] as f64, img1[k + 1] as f64, img1[k + 2] as f64, img1[k + 3] as f64);
    let (r2, g2, b2, a2) = (img2[m] as f64, img2[m + 1] as f64, img2[m + 2] as f64, img2[m + 3] as f64);
    let (mut dr, mut dg, mut db, da) = (r1 - r2, g1 - g2, b1 - b2, a1 - a2);
    if dr == 0.0 && dg == 0.0 && db == 0.0 && da == 0.0 {
        return 0.0;
    }
    if a1 < 255.0 || a2 < 255.0 {
        let rb = 48.0 + 159.0 * ((k % 2) as f64);
        let gb = 48.0 + 159.0 * ((((k as f64) / PHI).floor() as usize % 2) as f64);
        let bb = 48.0 + 159.0 * ((((k as f64) / (1.0 + PHI)).floor() as usize % 2) as f64);
        dr = (r1 * a1 - r2 * a2 - rb * da) / 255.0;
        dg = (g1 * a1 - g2 * a2 - gb * da) / 255.0;
        db = (b1 * a1 - b2 * a2 - bb * da) / 255.0;
    }
    dr * 0.29889531 + dg * 0.58662247 + db * 0.11448223
}

/// The order keys of the brightness differences around `(x, y)`.
fn keys(img: &[u8], x: u32, y: u32, w: u32, h: u32) -> [i64; 9] {
    let mut out = [0i64; 9];
    let c = ((y * w + x) * 4) as usize;
    for t in 0..9u32 {
        let (nx, ny) = (x as i64 + (t % 3) as i64 - 1, y as i64 + (t / 3) as i64 - 1);
        if t == 4 || nx < 0 || ny < 0 || nx >= w as i64 || ny >= h as i64 {
            continue;
        }
        let d = y_delta(img, img, c, ((ny as usize) * (w as usize) + nx as usize) * 4);
        let magnitude = (d.to_bits() & 0x7fff_ffff_ffff_ffff) as i64;
        out[t as usize] = if d == 0.0 { 0 } else if d < 0.0 { -magnitude } else { magnitude };
    }
    out
}

#[test]
fn test_not_antialiased_flat_area() {
    let img = flat_3x3(128, 128, 128);
    assert!(!is_antialiased(&img, &img, 1, 1, 3, 3, &keys(&img, 1, 1, 3, 3)));
}

#[test]
fn test_not_antialiased_edge_pixel() {
    let img = flat_3x3(100, 100, 100);
    assert!(!is_antialiased(&img, &img, 0, 0, 3, 3, &keys(&img, 0, 0, 3, 3)));
}

#[test]
fn test_has_many_siblings_uniform() {
    let img = flat_3x3(50, 50, 50);
    assert!(has_many_siblings(&img, 1, 1, 3, 3));
}

#[test]
fn test_has_many_siblings_diverse() {
    let mut img = vec![0u8; 9 * 4];
    for i in 0..9 {
        img[i * 4] = (i * 28) as u8;
        img[i * 4 + 1] = (i * 17) as u8;
        img[i * 4 + 2] = (i * 37) as u8;
        img[i * 4 + 3] = 255;
    }
    assert!(!has_many_siblings(&img, 1, 1, 3, 3));
}

#[test]
fn test_edge_pixel_zeroes_initialization() {
    let img = flat_3x3(100, 100, 100);
    assert!(!is_antialiased(&img, &img, 0, 0, 3, 3, &keys(&img, 0, 0, 3, 3)));
}

#[test]
fn antialiased_step_between_dark_and_light() {
    // A vertical edge, 5 wide and 5 tall: black, black, grey, white, white.
    let mut img1 = Vec::new();
    for _y in 0..5 {
        for v in [0u8, 0, 128, 255, 255] {
            img1.extend_from_slice(&[v, v, v, 255]);
        }
    }
    let img2 = img1.clone();
    // The grey pixel sits between a darker and a brighter neighbour, each
    // inside a flat area with at least three equal neighbours.
    assert!(is_antialiased(&img1, &img2, 2, 2, 5, 5, &keys(&img1, 2, 2, 5, 5)));
    // A black pixel shares its brightness with more than two neighbours.
    assert!(!is_antialiased(&img1, &img2, 1, 2, 5, 5, &keys(&img1, 1, 2, 5, 5)));
}

#[test]
fn siblings_count_only_neighbours_inside_the_image() {
    // The corner (0, 0) of a 3x3 image has three neighbours; two are equal to it.
    let mut img = flat_3x3(10, 10, 10);
    img[4 * 4] = 200;
    assert!(!has_many_siblings(&img, 0, 0, 3, 3));
    // With the third equal too, it has many siblings.
    let flat = flat_3x3(10, 10, 10);
    assert!(has_many_siblings(&flat, 0, 0, 3, 3));
}

#[test]
fn antialiasing_follows_the_floating_point_keys() {
    // Keys decide as the differences they stand for: all neighbours darker.
    let img = flat_3x3(100, 100, 100);
    let darker = [-5i64, -5, -5, -5, 0, -5, -5, -5, -5];
    assert!(!is_antialiased(&img, &img, 1, 1, 3, 3, &darker));
}

#[test]
fn test_no_diff() {
    let mask = vec![false; 100];
    let result = detect_diff_regions(10, 10, &mask, 1);
    assert!(result.is_empty());
}

#[test]
fn test_all_diff() {
    let mask = vec![true; 100];
    let result = detect_diff_regions(10, 10, &mask, 1);
    assert_eq!(result.len(), 1);
    assert_eq!(result[0].x, 0);
    assert_eq!(result[0].y, 0);
    assert_eq!(result[0].width, 10);
    assert_eq!(result[0].height, 10);
}

#[test]
fn test_two_separate_clusters() {
    let mut mask = vec![false; 100];
    mask[0] = true;
    mask[1] = true;
    mask[10] = true;
    mask[11] = true;
    mask[88] = true;
    mask[89] = true;
    mask[98] = true;
    mask[99] = true;

    let result = detect_diff_regions(10, 10, &mask, 1);
    assert_eq!(result.len(), 2);

    assert_eq!(result[0].x, 0);
    assert_eq!(result[0].y, 0);
    assert_eq!(result[0].width, 2);
    assert_eq!(result[0].height, 2);

    assert_eq!(result[1].x, 8);
    assert_eq!(result[1].y, 8);
    assert_eq!(result[1].width, 2);
    assert_eq!(result[1].height, 2);
}

#[test]
fn test_min_area_filter() {
    let mut mask = vec![false; 100];
    mask[55] = true;
    for y in 0..3 {
        for x in 0..3 {
            mask[y * 10 + x] = true;
        }
    }
    let result = detect_diff_regions(10, 10, &mask, 5);
    assert_eq!(result.len(), 1);
    assert_eq!(result[0].x, 0);
    assert_eq!(result[0].y, 0);
    assert_eq!(result[0].width, 3);
    assert_eq!(result[0].height, 3);
}

#[test]
fn test_diagonal_connectivity() {
    let mut mask = vec![false; 25];
    mask[0] = true;
    mask[6] = true;
    let result = detect_diff_regions(5, 5, &mask, 1);
    assert_eq!(result.len(), 1);
    assert_eq!(result[0].width, 2);
    assert_eq!(result[0].height, 2);
}

#[test]
fn test_empty_image() {
    let mask: Vec<bool> = Vec::new();
    let result = detect_diff_regions(0, 0, &mask, 1);
    assert!(result.is_empty());
}

#[test]
fn regions_sorted_by_row_then_column() {
    // Three single pixels: (4,0), (1,2), (3,2) on a 5x3 image.
    let mut mask = vec![false; 15];
    mask[4] = true;
    mask[2 * 5 + 1] = true;
    mask[2 * 5 + 3] = true;
    let result = detect_diff_regions(5, 3, &mask, 1);
    let corners: Vec<(u32, u32)> = result.iter().map(|b| (b.x, b.y)).collect();
    assert_eq!(corners, vec![(4, 0), (1, 2), (3, 2)]);
}

#[test]
fn test_expand_image_no_change() {
    let img = ImageData { width: 2, height: 2, data: vec![0u8; 16] };
    assert!(expand_image(&img, 2, 2).is_none());
}

#[test]
fn test_expand_image_larger() {
    let img = ImageData { width: 1, height: 1, data: vec![255, 0, 0, 255] };
    let expanded = expand_image(&img, 2, 2).unwrap();
    assert_eq!(expanded.width, 2);
    assert_eq!(expanded.height, 2);
    assert_eq!(&expanded.data[0..4], &[255, 0, 0, 255]);
    assert_eq!(&expanded.data[4..8], &[0, 0, 0, 0]);
}

#[test]
fn expand_image_keeps_rows_in_place() {
    let img = ImageData { width: 1, height: 2, data: vec![1, 2, 3, 4, 5, 6, 7, 8] };
    let expanded = expand_image(&img, 2, 2).unwrap();
    assert_eq!(expanded.data, vec![1, 2, 3, 4, 0, 0, 0, 0, 5, 6, 7, 8, 0, 0, 0, 0]);
}

#[test]
fn test_draw_pixel_aa() {
    let mut output = vec![0u8; 4];
    let aa_color = [255, 255, 0];
    draw_pixel_aa(&mut output, 0, &aa_color);
    assert_eq!(output, [255, 255, 0, 255]);
}

#[test]
fn test_draw_pixel_aa_custom_color() {
    let mut output = vec![0u8; 4];
    let aa_color = [0, 128, 255];
    draw_pixel_aa(&mut output, 0, &aa_color);
    assert_eq!(output, [0, 128, 255, 255]);
}

#[test]
fn test_draw_pixel_diff_positive_delta() {
    let mut output = vec![0u8; 4];
    let diff_color = [255, 119, 119];
    draw_pixel_diff(&mut output, 0, false, &diff_color, None);
    assert_eq!(output, [255, 119, 119, 255]);
}

#[test]
fn test_draw_pixel_diff_negative_delta() {
    let mut output = vec![0u8; 4];
    let diff_color = [255, 119, 119];
    draw_pixel_diff(&mut output, 0, true, &diff_color, None);
    assert_eq!(output, [255, 119, 119, 255]);
}

#[test]
fn test_draw_pixel_diff_negative_delta_with_alt() {
    let mut output = vec![0u8; 4];
    let diff_color = [255, 119, 119];
    let diff_color_alt = [255, 0, 0];
    draw_pixel_diff(&mut output, 0, true, &diff_color, Some(&diff_color_alt));
    assert_eq!(output, [255, 0, 0, 255]);
}

#[test]
fn test_draw_pixel_diff_positive_delta_with_alt() {
    let mut output = vec![0u8; 4];
    let diff_color = [255, 119, 119];
    let diff_color_alt = [255, 0, 0];
    draw_pixel_diff(&mut output, 0, false, &diff_color, Some(&diff_color_alt));
    assert_eq!(output, [255, 119, 119, 255]);
}

fn colors() -> DiffColors {
    DiffColors { enable_antialias: false, diff_color: [255, 119, 119], diff_color_alt: None, aa_color: [255, 255, 0] }
}

#[test]
fn compare_judged_identical_pixels_report_no_difference() {
    let img = flat_3x3(10, 20, 30);
    let judgements: Vec<PixelJudgement> =
        (0..9).map(|_| PixelJudgement { exceeds_threshold: false, img1_brighter: false, blended_grey: 250, actual_keys: [0; 9], expected_keys: [0; 9] }).collect();
    let result = compare_judged(&img, &img, 3, 3, &colors(), &judgements);
    assert_eq!(result.diff_count, 0);
    assert_eq!(result.total_pixels, 9);
    assert!(!result.images_are_same);
    assert!(result.diff_mask.unwrap().iter().all(|b| !*b));
}

#[test]
fn compare_judged_counts_and_marks_differences() {
    let img1 = flat_3x3(10, 20, 30);
    let mut img2 = img1.clone();
    img2[4 * 4] = 200;
    let judgements: Vec<PixelJudgement> = (0..9)
        .map(|i| PixelJudgement { exceeds_threshold: i == 4, img1_brighter: false, blended_grey: 250, actual_keys: [0; 9], expected_keys: [0; 9] })
        .collect();
    let result = compare_judged(&img1, &img2, 3, 3, &colors(), &judgements);
    assert_eq!(result.diff_count, 1);
    assert!(!result.images_are_same);
    let diff = result.diff_image.unwrap();
    assert_eq!(&diff.data[16..20], &[255, 119, 119, 255]);
    assert_eq!(&diff.data[0..4], &[250, 250, 250, 255]);
    let mask = result.diff_mask.unwrap();
    assert_eq!(mask.iter().filter(|b| **b).count(), 1);
    assert!(mask[4]);
}

fn png_bytes(width: u32, height: u32, rgba: &[u8]) -> Vec<u8> {
    let img = image::RgbaImage::from_raw(width, height, rgba.to_vec()).unwrap();
    let mut out = std::io::Cursor::new(Vec::new());
    img.write_to(&mut out, image::ImageFormat::Png).unwrap();
    out.into_inner()
}

#[test]
fn test_compare_image_files_md5_fastpath() {
    let bytes = png_bytes(2, 2, &[7u8; 16]);
    match load_image_pair(&bytes, &bytes).unwrap() {
        LoadedImages::Identical(result) => {
            assert_eq!(result.diff_count, 0);
            assert_eq!(result.total_pixels, 4);
            assert!(result.images_are_same);
            assert!(result.diff_image.is_none());
        }
        LoadedImages::Decoded(_, _) => panic!("identical bytes must take the fast path"),
    }
}

#[test]
fn load_image_pair_decodes_different_files() {
    let a = png_bytes(1, 1, &[1, 2, 3, 255]);
    let b = png_bytes(1, 1, &[4, 5, 6, 255]);
    match load_image_pair(&a, &b).unwrap() {
        LoadedImages::Decoded(ia, ib) => {
            assert_eq!(ia.data, vec![1, 2, 3, 255]);
            assert_eq!(ib.data, vec![4, 5, 6, 255]);
        }
        LoadedImages::Identical(_) => panic!("different files must be decoded"),
    }
}

#[test]
fn load_image_pair_reports_decode_errors() {
    let a = b"not an image".to_vec();
    let b = png_bytes(1, 1, &[4, 5, 6, 255]);
    assert!(matches!(load_image_pair(&a, &b), Err(kaiki::image::DiffError::ImageDecode(_))));
}

#[test]
fn settling_a_load_from_hashes_and_decodings() {
    match settle_load(7, 7, Ok((2, 3, vec![0; 24])), None) {
        Ok(LoadedImages::Identical(r)) => {
            assert_eq!((r.width, r.height, r.total_pixels, r.diff_count), (2, 3, 6, 0));
            assert!(r.images_are_same);
        }
        other => panic!("unexpected {:?}", other),
    }
    assert!(matches!(settle_load(1, 2, Err("bad".into()), None), Err(kaiki::image::DiffError::ImageDecode(m)) if m == "bad"));
    assert!(matches!(
        settle_load(1, 2, Ok((1, 1, vec![0; 4])), Some(Err("worse".into()))),
        Err(kaiki::image::DiffError::ImageDecode(m)) if m == "worse"
    ));
    match settle_load(1, 2, Ok((1, 1, vec![1; 4])), Some(Ok((1, 1, vec![2; 4])))) {
        Ok(LoadedImages::Decoded(a, e)) => {
            assert_eq!(a.data, vec![1; 4]);
            assert_eq!(e.data, vec![2; 4]);
        }
        other => panic!("unexpected {:?}", other),
    }
}
