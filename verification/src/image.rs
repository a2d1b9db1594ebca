//! RGBA buffers, their expansion to a common size, and the rendering of a
//! diff image from per-pixel judgements.
use vstd::prelude::*;

use crate::antialias::{antialiased, is_antialiased, offset, same_pixel, valid_geometry};

verus! {

/// RGBA image with pixel data stored as a flat byte buffer (4 bytes per pixel).
#[derive(Debug, Clone)]
pub struct ImageData {
    pub width: u32,
    pub height: u32,
    pub data: Vec<u8>,
}

/// Result of an image comparison.
#[derive(Debug, Clone)]
pub struct DiffResult {
    /// Number of pixels that differ beyond the threshold.
    pub diff_count: u64,
    /// Total pixel count (based on the larger of the two images).
    pub total_pixels: u64,
    pub width: u32,
    pub height: u32,
    /// `true` when the input bytes were identical (hash fast-path).
    pub images_are_same: bool,
    /// Rendered diff image. `None` when `images_are_same` is `true`.
    pub diff_image: Option<ImageData>,
    /// Per-pixel mask of differing pixels. `None` when `images_are_same` is `true`.
    pub diff_mask: Option<Vec<bool>>,
}

/// Errors that can occur during image comparison.
#[derive(Debug)]
pub enum DiffError {
    ImageDecode(String),
    UnsupportedFormat,
}

/// Whether `img` holds `width * height` pixels and the sizes fit 32-bit offsets.
pub open spec fn well_formed(img: ImageData) -> bool {
    &&& img.data@.len() == img.width * img.height * 4
    &&& img.width * img.height * 4 <= u32::MAX
}

/// Byte `ch` of pixel `(x, y)` of `img` padded to any larger size with
/// transparent black.
pub open spec fn padded_byte(img: ImageData, x: int, y: int, ch: int) -> u8 {
    if x < img.width && y < img.height {
        img.data@[offset(img.width as int, x, y) + ch]
    } else {
        0
    }
}

/// `data` is `img` padded to `width` x `height`.
pub open spec fn is_padding_of(img: ImageData, width: int, height: int, data: Seq<u8>) -> bool {
    &&& data.len() == width * height * 4
    &&& forall|x: int, y: int, ch: int|
        0 <= x < width && 0 <= y < height && 0 <= ch < 4 ==> #[trigger] data[offset(width, x, y) + ch]
            == padded_byte(img, x, y, ch)
}

proof fn lemma_offset_step(w: int, x: int, y: int)
    requires
        0 <= x < w,
        0 <= y,
    ensures
        offset(w, x, y) + 4 == if x + 1 < w { offset(w, x + 1, y) } else { offset(w, 0, y + 1) },
{
    if x + 1 == w {
        assert((y * w + x + 1) * 4 == ((y + 1) * w + 0) * 4) by (nonlinear_arith)
            requires
                x + 1 == w,
        ;
    }
}

proof fn lemma_offset_order(w: int, x1: int, y1: int, x2: int, y2: int)
    requires
        0 <= x1 < w,
        0 <= x2 < w,
        0 <= y1,
        0 <= y2,
        y1 < y2 || (y1 == y2 && x1 < x2),
    ensures
        offset(w, x1, y1) + 4 <= offset(w, x2, y2),
{
    if y1 < y2 {
        assert(y1 * w + x1 + 1 <= y2 * w + x2) by (nonlinear_arith)
            requires
                0 <= x1 < w,
                0 <= x2,
                y1 < y2,
        ;
    }
}

proof fn lemma_offset_bound(w: int, h: int, x: int, y: int)
    requires
        0 <= x < w,
        0 <= y < h,
    ensures
        0 <= offset(w, x, y),
        offset(w, x, y) + 4 <= w * h * 4,
{
    assert(0 <= y * w + x < w * h) by (nonlinear_arith)
        requires
            0 <= x < w,
            0 <= y < h,
    ;
}

/// Pixels of `img` laid out on a `width` x `height` canvas, padded with
/// transparent black.
fn padded_pixels(img: &ImageData, width: u32, height: u32) -> (data: Vec<u8>)
    requires
        well_formed(*img),
        img.width <= width,
        img.height <= height,
        width as int * height as int * 4 <= u32::MAX,
    ensures
        is_padding_of(*img, width as int, height as int, data@),
{
    let ghost w = width as int;
    let ghost h = height as int;
    let mut data: Vec<u8> = Vec::new();
    let mut y: u32 = 0;
    while y < height
        invariant
            well_formed(*img),
            img.width <= width,
            img.height <= height,
            w == width,
            h == height,
            w * h * 4 <= u32::MAX,
            y <= height,
            data@.len() == offset(w, 0, y as int),
            forall|xx: int, yy: int, ch: int|
                0 <= xx < w && 0 <= yy < y && 0 <= ch < 4 ==> #[trigger] data@[offset(w, xx, yy) + ch]
                    == padded_byte(*img, xx, yy, ch),
        decreases height - y,
    {
        let mut x: u32 = 0;
        while x < width
            invariant
                well_formed(*img),
                img.width <= width,
                img.height <= height,
                w == width,
                h == height,
                w * h * 4 <= u32::MAX,
                y < height,
                x <= width,
                data@.len() == offset(w, x as int, y as int),
                forall|xx: int, yy: int, ch: int|
                    0 <= xx < w && 0 <= yy <= y && 0 <= ch < 4 && (yy < y || xx < x) ==> #[trigger] data@[offset(
                        w,
                        xx,
                        yy,
                    ) + ch] == padded_byte(*img, xx, yy, ch),
            decreases width - x,
        {
            let ghost before = data@;
            proof {
                lemma_offset_bound(w, h, x as int, y as int);
            }
            if x < img.width && y < img.height {
                proof {
                    lemma_offset_bound(img.width as int, img.height as int, x as int, y as int);
                }
                let src: usize = ((y * img.width + x) * 4) as usize;
                data.push(img.data[src]);
                data.push(img.data[src + 1]);
                data.push(img.data[src + 2]);
                data.push(img.data[src + 3]);
            } else {
                data.push(0);
                data.push(0);
                data.push(0);
                data.push(0);
            }
            proof {
                let o = offset(w, x as int, y as int);
                assert forall|xx: int, yy: int, ch: int|
                    0 <= xx < w && 0 <= yy <= y && 0 <= ch < 4 && (yy < y || xx < x + 1) implies #[trigger] data@[offset(
                    w,
                    xx,
                    yy,
                ) + ch] == padded_byte(*img, xx, yy, ch) by {
                    if yy == y && xx == x {
                        assert(data@[o + ch] == padded_byte(*img, xx, yy, ch));
                    } else {
                        lemma_offset_order(w, xx, yy, x as int, y as int);
                        assert(data@[offset(w, xx, yy) + ch] == before[offset(w, xx, yy) + ch]);
                    }
                }
                lemma_offset_step(w, x as int, y as int);
            }
            x = x + 1;
        }
        proof {
            assert(offset(w, w, y as int) == offset(w, 0, y as int + 1)) by (nonlinear_arith);
        }
        y = y + 1;
    }
    data
}

/// Expands an image to the given dimensions, padding with transparent black
/// (0, 0, 0, 0). Returns `None` if the image already has that size.
pub fn expand_image(img: &ImageData, width: u32, height: u32) -> (r: Option<ImageData>)
    requires
        well_formed(*img),
        img.width <= width,
        img.height <= height,
        width as int * height as int * 4 <= u32::MAX,
    ensures
        r is None <==> (img.width == width && img.height == height),
        r matches Some(e) ==> e.width == width && e.height == height && is_padding_of(
            *img,
            width as int,
            height as int,
            e.data@,
        ),
{
    if img.width == width && img.height == height {
        return None;
    }
    let data = padded_pixels(img, width, height);
    Some(ImageData { width, height, data })
}

/// The larger of two sizes.
pub open spec fn larger(a: u32, b: u32) -> u32 {
    if a >= b {
        a
    } else {
        b
    }
}

/// Brings two images to a common size, the larger width and the larger
/// height, padding each with transparent black (see `expand_image`): the
/// common width and height, then each image's padded copy, or `None` when it
/// already has the common size.
pub fn expand_to_common_size(actual: &ImageData, expected: &ImageData) -> (r: (
    u32,
    u32,
    Option<ImageData>,
    Option<ImageData>,
))
    requires
        well_formed(*actual),
        well_formed(*expected),
        larger(actual.width, expected.width) as int * larger(actual.height, expected.height) as int * 4
            <= u32::MAX,
    ensures
        r.0 == larger(actual.width, expected.width),
        r.1 == larger(actual.height, expected.height),
        r.2 is None <==> (actual.width == r.0 && actual.height == r.1),
        r.2 matches Some(a) ==> a.width == r.0 && a.height == r.1 && is_padding_of(
            *actual,
            r.0 as int,
            r.1 as int,
            a.data@,
        ),
        r.3 is None <==> (expected.width == r.0 && expected.height == r.1),
        r.3 matches Some(e) ==> e.width == r.0 && e.height == r.1 && is_padding_of(
            *expected,
            r.0 as int,
            r.1 as int,
            e.data@,
        ),
{
    let width = if actual.width >= expected.width {
        actual.width
    } else {
        expected.width
    };
    let height = if actual.height >= expected.height {
        actual.height
    } else {
        expected.height
    };
    let a = expand_image(actual, width, height);
    let e = expand_image(expected, width, height);
    (width, height, a, e)
}

/// Writes an opaque pixel of colour `color` at byte offset `pos`.
fn put_opaque(output: &mut [u8], pos: usize, color: &[u8; 3])
    requires
        pos + 4 <= old(output)@.len(),
    ensures
        final(output)@ == old(output)@.update(pos as int, color@[0]).update(pos + 1, color@[1]).update(
            pos + 2,
            color@[2],
        ).update(pos + 3, 255u8),
{
    output[pos] = color[0];
    output[pos + 1] = color[1];
    output[pos + 2] = color[2];
    output[pos + 3] = 255;
}

/// Draws a diff pixel: `diff_color_alt` (falling back to `diff_color`) when
/// the first image is the brighter one, `diff_color` otherwise.
pub fn draw_pixel_diff(
    output: &mut [u8],
    pos: usize,
    img1_brighter: bool,
    diff_color: &[u8; 3],
    diff_color_alt: Option<&[u8; 3]>,
)
    requires
        pos + 4 <= old(output)@.len(),
    ensures
        ({
            let c = diff_colour(img1_brighter, *diff_color, copied_colour(diff_color_alt));
            final(output)@ == old(output)@.update(pos as int, c@[0]).update(pos + 1, c@[1]).update(
                pos + 2,
                c@[2],
            ).update(pos + 3, 255u8)
        }),
{
    let color = if img1_brighter {
        match diff_color_alt {
            Some(c) => c,
            None => diff_color,
        }
    } else {
        diff_color
    };
    put_opaque(output, pos, color);
}

/// The colour behind an optional reference.
pub open spec fn copied_colour(c: Option<&[u8; 3]>) -> Option<[u8; 3]> {
    match c {
        Some(v) => Some(*v),
        None => None,
    }
}

/// The colour of a differing pixel.
pub open spec fn diff_colour(img1_brighter: bool, diff_color: [u8; 3], diff_color_alt: Option<[u8; 3]>) -> [u8; 3] {
    if img1_brighter {
        match diff_color_alt {
            Some(c) => c,
            None => diff_color,
        }
    } else {
        diff_color
    }
}

/// Draws an anti-aliased pixel using the configured colour.
pub fn draw_pixel_aa(output: &mut [u8], pos: usize, aa_color: &[u8; 3])
    requires
        pos + 4 <= old(output)@.len(),
    ensures
        final(output)@ == old(output)@.update(pos as int, aa_color@[0]).update(pos + 1, aa_color@[1]).update(
            pos + 2,
            aa_color@[2],
        ).update(pos + 3, 255u8),
{
    put_opaque(output, pos, aa_color);
}


/// Colour settings of a comparison.
#[derive(Debug, Clone, Copy)]
pub struct DiffColors {
    /// When `false`, anti-aliased pixels are detected and shown separately.
    pub enable_antialias: bool,
    /// RGB colour for differing pixels.
    pub diff_color: [u8; 3],
    /// Optional alternate RGB colour when the first image is brighter.
    pub diff_color_alt: Option<[u8; 3]>,
    /// RGB colour for anti-aliased pixels.
    pub aa_color: [u8; 3],
}

/// The verdict of the colour metric on one pixel.
#[derive(Debug, Clone, Copy)]
pub struct PixelJudgement {
    /// Whether the colour distance exceeds the matching threshold.
    pub exceeds_threshold: bool,
    /// Whether the first image is the brighter one at this pixel.
    pub img1_brighter: bool,
    /// The grey level a matching pixel is drawn with.
    pub blended_grey: u8,
    /// Order keys of the brightness differences between the pixel and each
    /// cell of its 3x3 window in the actual image (see `is_antialiased`).
    pub actual_keys: [i64; 9],
    /// The same in the expected image.
    pub expected_keys: [i64; 9],
}

/// How a pixel is drawn in the diff image.
pub enum PixelClass {
    Matching,
    Antialiased,
    Different,
}

/// Whether the pixels at offset `k` of `a` and `b` hold the same bytes.
pub open spec fn same_bytes(a: Seq<u8>, b: Seq<u8>, k: int) -> bool {
    a[k] == b[k] && a[k + 1] == b[k + 1] && a[k + 2] == b[k + 2] && a[k + 3] == b[k + 3]
}

/// The class of pixel `(x, y)`: identical bytes or a colour distance within
/// the threshold match; otherwise, with detection on, a pixel that looks
/// anti-aliased in either image is anti-aliased; the rest differ.
pub open spec fn classify(
    a: Seq<u8>,
    e: Seq<u8>,
    w: int,
    h: int,
    x: int,
    y: int,
    j: PixelJudgement,
    enable_antialias: bool,
) -> PixelClass {
    if same_bytes(a, e, offset(w, x, y)) || !j.exceeds_threshold {
        PixelClass::Matching
    } else if !enable_antialias && (antialiased(a, e, j.actual_keys@, x, y, w, h) || antialiased(
        e,
        a,
        j.expected_keys@,
        x,
        y,
        w,
        h,
    )) {
        PixelClass::Antialiased
    } else {
        PixelClass::Different
    }
}

/// Byte `ch` of a pixel of class `c` in the diff image.
pub open spec fn drawn_byte(c: PixelClass, j: PixelJudgement, colors: DiffColors, ch: int) -> u8 {
    if ch == 3 {
        255
    } else {
        match c {
            PixelClass::Matching => j.blended_grey,
            PixelClass::Antialiased => colors.aa_color@[ch],
            PixelClass::Different => diff_colour(j.img1_brighter, colors.diff_color, colors.diff_color_alt)@[ch],
        }
    }
}

/// Number of `true` entries.
pub open spec fn count_true(s: Seq<bool>) -> nat
    decreases s.len(),
{
    if s.len() == 0 {
        0
    } else {
        count_true(s.drop_last()) + if s.last() {
            1nat
        } else {
            0nat
        }
    }
}

proof fn lemma_count_true_push(s: Seq<bool>, b: bool)
    ensures
        count_true(s.push(b)) == count_true(s) + if b { 1nat } else { 0nat },
        count_true(s) <= s.len(),
    decreases s.len(),
{
    assert(s.push(b).drop_last() =~= s);
    if s.len() > 0 {
        lemma_count_true_push(s.drop_last(), s.last());
        assert(s.drop_last().push(s.last()) =~= s);
    }
}

/// The diff of two equally sized RGBA buffers, given the colour metric's
/// verdict on every pixel.
pub open spec fn judged_diff(
    a: Seq<u8>,
    e: Seq<u8>,
    w: int,
    h: int,
    colors: DiffColors,
    judgements: Seq<PixelJudgement>,
    r: DiffResult,
) -> bool {
    &&& r.width == w
    &&& r.height == h
    &&& r.total_pixels == w * h
    &&& !r.images_are_same
    &&& r.diff_mask matches Some(m) && m@.len() == w * h && r.diff_count == count_true(m@) && forall|x: int, y: int|
        0 <= x < w && 0 <= y < h ==> #[trigger] m@[y * w + x] == (classify(
            a,
            e,
            w,
            h,
            x,
            y,
            judgements[y * w + x],
            colors.enable_antialias,
        ) is Different)
    &&& r.diff_image matches Some(img) && img.width == w && img.height == h && img.data@.len() == w * h * 4
        && forall|x: int, y: int, ch: int|
        0 <= x < w && 0 <= y < h && 0 <= ch < 4 ==> #[trigger] img.data@[offset(w, x, y) + ch] == drawn_byte(
            classify(a, e, w, h, x, y, judgements[y * w + x], colors.enable_antialias),
            judgements[y * w + x],
            colors,
            ch,
        )
}

/// Classifies pixel `(x, y)`.
fn classify_pixel(
    actual: &[u8],
    expected: &[u8],
    width: u32,
    height: u32,
    x: u32,
    y: u32,
    j: PixelJudgement,
    enable_antialias: bool,
) -> (c: PixelClass)
    requires
        valid_geometry(actual@.len() as int, expected@.len() as int, width as int, height as int),
        x < width,
        y < height,
    ensures
        c == classify(actual@, expected@, width as int, height as int, x as int, y as int, j, enable_antialias),
{
    proof {
        lemma_offset_bound(width as int, height as int, x as int, y as int);
    }
    let pos: usize = ((y * width + x) * 4) as usize;
    if (actual[pos] == expected[pos] && actual[pos + 1] == expected[pos + 1] && actual[pos + 2] == expected[pos + 2]
        && actual[pos + 3] == expected[pos + 3]) || !j.exceeds_threshold {
        PixelClass::Matching
    } else if !enable_antialias && (is_antialiased(actual, expected, x, y, width, height, &j.actual_keys)
        || is_antialiased(expected, actual, x, y, width, height, &j.expected_keys)) {
        PixelClass::Antialiased
    } else {
        PixelClass::Different
    }
}

/// Renders the diff image and the mask of differing pixels of two RGBA
/// buffers of the same size, from the colour metric's verdict on each pixel:
/// matching pixels are drawn in their grey level, anti-aliased ones in
/// `aa_color` and differing ones in the diff colour; only the differing ones
/// are counted.
pub fn compare_judged(
    actual: &[u8],
    expected: &[u8],
    width: u32,
    height: u32,
    colors: &DiffColors,
    judgements: &[PixelJudgement],
) -> (r: DiffResult)
    requires
        width as int * height as int * 4 <= u32::MAX,
        actual@.len() == width as int * height as int * 4,
        expected@.len() == width as int * height as int * 4,
        judgements@.len() == width as int * height as int,
    ensures
        judged_diff(actual@, expected@, width as int, height as int, *colors, judgements@, r),
{
    let ghost w = width as int;
    let ghost h = height as int;
    let mut out: Vec<u8> = Vec::new();
    let mut mask: Vec<bool> = Vec::new();
    let mut diff_count: u64 = 0;
    let mut y: u32 = 0;
    while y < height
        invariant
            w == width,
            h == height,
            w * h * 4 <= u32::MAX,
            actual@.len() == w * h * 4,
            expected@.len() == w * h * 4,
            judgements@.len() == w * h,
            y <= height,
            out@.len() == offset(w, 0, y as int),
            mask@.len() == y * w,
            diff_count == count_true(mask@),
            forall|xx: int, yy: int|
                0 <= xx < w && 0 <= yy < y ==> #[trigger] mask@[yy * w + xx] == (classify(
                    actual@,
                    expected@,
                    w,
                    h,
                    xx,
                    yy,
                    judgements@[yy * w + xx],
                    colors.enable_antialias,
                ) is Different),
            forall|xx: int, yy: int, ch: int|
                0 <= xx < w && 0 <= yy < y && 0 <= ch < 4 ==> #[trigger] out@[offset(w, xx, yy) + ch] == drawn_byte(
                    classify(actual@, expected@, w, h, xx, yy, judgements@[yy * w + xx], colors.enable_antialias),
                    judgements@[yy * w + xx],
                    *colors,
                    ch,
                ),
        decreases height - y,
    {
        let mut x: u32 = 0;
        while x < width
            invariant
                w == width,
                h == height,
                w * h * 4 <= u32::MAX,
                actual@.len() == w * h * 4,
                expected@.len() == w * h * 4,
                judgements@.len() == w * h,
                y < height,
                x <= width,
                out@.len() == offset(w, x as int, y as int),
                mask@.len() == y * w + x,
                diff_count == count_true(mask@),
                forall|xx: int, yy: int|
                    0 <= xx < w && 0 <= yy <= y && (yy < y || xx < x) ==> #[trigger] mask@[yy * w + xx] == (classify(
                        actual@,
                        expected@,
                        w,
                        h,
                        xx,
                        yy,
                        judgements@[yy * w + xx],
                        colors.enable_antialias,
                    ) is Different),
                forall|xx: int, yy: int, ch: int|
                    0 <= xx < w && 0 <= yy <= y && 0 <= ch < 4 && (yy < y || xx < x) ==> #[trigger] out@[offset(
                        w,
                        xx,
                        yy,
                    ) + ch] == drawn_byte(
                        classify(actual@, expected@, w, h, xx, yy, judgements@[yy * w + xx], colors.enable_antialias),
                        judgements@[yy * w + xx],
                        *colors,
                        ch,
                    ),
            decreases width - x,
        {
            let ghost out_before = out@;
            let ghost mask_before = mask@;
            proof {
                lemma_offset_bound(w, h, x as int, y as int);
                assert(0 <= y * w + x < w * h) by (nonlinear_arith)
                    requires
                        0 <= x < w,
                        0 <= y < h,
                ;
            }
            let p: usize = (y as usize) * (width as usize) + (x as usize);
            let j = judgements[p];
            let class = classify_pixel(actual, expected, width, height, x, y, j, colors.enable_antialias);
            let is_diff: bool;
            match class {
                PixelClass::Matching => {
                    let g = j.blended_grey;
                    out.push(g);
                    out.push(g);
                    out.push(g);
                    out.push(255);
                    is_diff = false;
                },
                PixelClass::Antialiased => {
                    out.push(colors.aa_color[0]);
                    out.push(colors.aa_color[1]);
                    out.push(colors.aa_color[2]);
                    out.push(255);
                    is_diff = false;
                },
                PixelClass::Different => {
                    let c = if j.img1_brighter {
                        match colors.diff_color_alt {
                            Some(alt) => alt,
                            None => colors.diff_color,
                        }
                    } else {
                        colors.diff_color
                    };
                    out.push(c[0]);
                    out.push(c[1]);
                    out.push(c[2]);
                    out.push(255);
                    is_diff = true;
                },
            }
            proof {
                lemma_count_true_push(mask@, is_diff);
            }
            mask.push(is_diff);
            if is_diff {
                diff_count = diff_count + 1;
            }
            proof {
                let o = offset(w, x as int, y as int);
                assert forall|xx: int, yy: int|
                    0 <= xx < w && 0 <= yy <= y && (yy < y || xx < x + 1) implies #[trigger] mask@[yy * w + xx] == (
                    classify(
                        actual@,
                        expected@,
                        w,
                        h,
                        xx,
                        yy,
                        judgements@[yy * w + xx],
                        colors.enable_antialias,
                    ) is Different) by {
                    if !(yy == y && xx == x) {
                        lemma_offset_order(w, xx, yy, x as int, y as int);
                        assert(yy * w + xx < y * w + x);
                        assert(mask@[yy * w + xx] == mask_before[yy * w + xx]);
                    }
                }
                assert forall|xx: int, yy: int, ch: int|
                    0 <= xx < w && 0 <= yy <= y && 0 <= ch < 4 && (yy < y || xx < x + 1) implies #[trigger] out@[offset(
                    w,
                    xx,
                    yy,
                ) + ch] == drawn_byte(
                    classify(actual@, expected@, w, h, xx, yy, judgements@[yy * w + xx], colors.enable_antialias),
                    judgements@[yy * w + xx],
                    *colors,
                    ch,
                ) by {
                    if yy == y && xx == x {
                        assert(out@[o + ch] == out@[offset(w, xx, yy) + ch]);
                    } else {
                        lemma_offset_order(w, xx, yy, x as int, y as int);
                        assert(out@[offset(w, xx, yy) + ch] == out_before[offset(w, xx, yy) + ch]);
                    }
                }
                lemma_offset_step(w, x as int, y as int);
            }
            x = x + 1;
        }
        proof {
            assert(offset(w, w, y as int) == offset(w, 0, y as int + 1)) by (nonlinear_arith);
            assert(y * w + w == (y + 1) * w) by (nonlinear_arith);
        }
        y = y + 1;
    }
    proof {
        lemma_count_true_push(mask@, false);
        assert(0 <= h * w <= u32::MAX) by (nonlinear_arith)
            requires
                0 <= w,
                0 <= h,
                w * h * 4 <= u32::MAX,
        ;
        assert(offset(w, 0, h) == w * h * 4) by (nonlinear_arith);
    }
    let total: u64 = (width as u64) * (height as u64);
    DiffResult {
        diff_count,
        total_pixels: total,
        width,
        height,
        images_are_same: false,
        diff_image: Some(ImageData { width, height, data: out }),
        diff_mask: Some(mask),
    }
}


proof fn lemma_count_true_none(s: Seq<bool>)
    requires
        forall|i: int| 0 <= i < s.len() ==> !s[i],
    ensures
        count_true(s) == 0,
    decreases s.len(),
{
    if s.len() > 0 {
        lemma_count_true_none(s.drop_last());
    }
}

proof fn lemma_cell_of_index(i: int, w: int, h: int)
    requires
        0 <= i < w * h,
        w > 0,
    ensures
        0 <= i % w < w,
        0 <= i / w < h,
        i == (i / w) * w + i % w,
{
    vstd::arithmetic::div_mod::lemma_fundamental_div_mod(i, w);
    vstd::arithmetic::mul::lemma_mul_is_commutative(w, i / w);
    vstd::arithmetic::div_mod::lemma_mod_bound(i, w);
    vstd::arithmetic::div_mod::lemma_div_pos_is_pos(i, w);
    vstd::arithmetic::div_mod::lemma_div_is_ordered(i, w * h - 1, w);
    vstd::arithmetic::mul::lemma_mul_is_commutative(w, h);
    vstd::arithmetic::div_mod::lemma_div_multiples_vanish(h, w);
    assert((w * h - 1) / w < h) by {
        vstd::arithmetic::div_mod::lemma_div_by_multiple_is_strongly_ordered(w * h - 1, w * h, h, w);
    }
}

/// Comparing an image with itself finds no differing pixel, whatever the
/// colour metric said of each pixel: the mask is all false, and every pixel
/// of the diff image is grey (its three colour bytes equal) and opaque.
pub proof fn lemma_identical_images_no_diff(
    a: Seq<u8>,
    w: int,
    h: int,
    colors: DiffColors,
    judgements: Seq<PixelJudgement>,
    r: DiffResult,
)
    requires
        judged_diff(a, a, w, h, colors, judgements, r),
        w >= 0,
        h >= 0,
    ensures
        r.diff_count == 0,
        r.diff_mask matches Some(m) && forall|i: int| 0 <= i < m@.len() ==> !m@[i],
        r.diff_image matches Some(img) && forall|x: int, y: int|
            0 <= x < w && 0 <= y < h ==> {
                let k = #[trigger] offset(w, x, y);
                &&& img.data@[k] == img.data@[k + 1]
                &&& img.data@[k + 1] == img.data@[k + 2]
                &&& img.data@[k + 3] == 255
            },
{
    let m = r.diff_mask->0;
    let img = r.diff_image->0;
    assert forall|x: int, y: int| 0 <= x < w && 0 <= y < h implies {
        let k = #[trigger] offset(w, x, y);
        &&& img.data@[k] == img.data@[k + 1]
        &&& img.data@[k + 1] == img.data@[k + 2]
        &&& img.data@[k + 3] == 255
    } by {
        let j = judgements[y * w + x];
        assert(same_bytes(a, a, offset(w, x, y)));
        assert(classify(a, a, w, h, x, y, j, colors.enable_antialias) is Matching);
        assert(img.data@[offset(w, x, y) + 0] == drawn_byte(PixelClass::Matching, j, colors, 0));
        assert(img.data@[offset(w, x, y) + 1] == drawn_byte(PixelClass::Matching, j, colors, 1));
        assert(img.data@[offset(w, x, y) + 2] == drawn_byte(PixelClass::Matching, j, colors, 2));
        assert(img.data@[offset(w, x, y) + 3] == drawn_byte(PixelClass::Matching, j, colors, 3));
    }
    assert forall|i: int| 0 <= i < m@.len() implies !m@[i] by {
        if w == 0 {
            assert(w * h == 0) by (nonlinear_arith)
                requires
                    w == 0,
            ;
        }
        lemma_cell_of_index(i, w, h);
        let x = i % w;
        let y = i / w;
        assert(y * w + x == i);
        assert(same_bytes(a, a, offset(w, x, y)));
        assert(m@[y * w + x] == (classify(a, a, w, h, x, y, judgements[y * w + x], colors.enable_antialias) is Different));
    }
    lemma_count_true_none(m@);
}

/// Comparing two images brought to a common size (see
/// `expand_to_common_size`) gives a result of that size: `w * h` pixels, a
/// mask of `w * h` entries with as many differing pixels as it has `true`
/// entries, never more than the pixels, and a diff image of `w * h * 4` bytes.
pub proof fn lemma_common_size_result(
    actual: ImageData,
    expected: ImageData,
    a: Seq<u8>,
    e: Seq<u8>,
    colors: DiffColors,
    judgements: Seq<PixelJudgement>,
    r: DiffResult,
)
    requires
        judged_diff(
            a,
            e,
            larger(actual.width, expected.width) as int,
            larger(actual.height, expected.height) as int,
            colors,
            judgements,
            r,
        ),
    ensures
        ({
            let w = larger(actual.width, expected.width) as int;
            let h = larger(actual.height, expected.height) as int;
            &&& r.width == w && r.height == h
            &&& r.total_pixels == w * h
            &&& !r.images_are_same
            &&& r.diff_mask matches Some(m) && m@.len() == w * h && r.diff_count == count_true(m@) && r.diff_count
                <= r.total_pixels
            &&& r.diff_image matches Some(img) && img.width == w && img.height == h && img.data@.len() == w * h * 4
        }),
{
    let m = r.diff_mask->0;
    lemma_count_true_bound(m@);
}

proof fn lemma_count_true_bound(s: Seq<bool>)
    ensures
        count_true(s) <= s.len(),
    decreases s.len(),
{
    if s.len() > 0 {
        lemma_count_true_bound(s.drop_last());
    }
}

/// With anti-aliasing detection on, a pixel whose bytes differ beyond the
/// threshold but that is anti-aliased in either image by the 3x3 rule is no
/// difference: it is left out of the mask (and so of the count) and drawn
/// opaque in `aa_color`.
pub proof fn lemma_antialiased_pixels_are_not_differences(
    a: Seq<u8>,
    e: Seq<u8>,
    w: int,
    h: int,
    colors: DiffColors,
    judgements: Seq<PixelJudgement>,
    r: DiffResult,
    x: int,
    y: int,
)
    requires
        judged_diff(a, e, w, h, colors, judgements, r),
        0 <= x < w,
        0 <= y < h,
        !colors.enable_antialias,
        !same_bytes(a, e, offset(w, x, y)),
        judgements[y * w + x].exceeds_threshold,
        antialiased(a, e, judgements[y * w + x].actual_keys@, x, y, w, h) || antialiased(
            e,
            a,
            judgements[y * w + x].expected_keys@,
            x,
            y,
            w,
            h,
        ),
    ensures
        r.diff_mask matches Some(m) && !m@[y * w + x],
        r.diff_image matches Some(img) && {
            &&& img.data@[offset(w, x, y)] == colors.aa_color@[0]
            &&& img.data@[offset(w, x, y) + 1] == colors.aa_color@[1]
            &&& img.data@[offset(w, x, y) + 2] == colors.aa_color@[2]
            &&& img.data@[offset(w, x, y) + 3] == 255
        },
{
    let img = r.diff_image->0;
    assert(img.data@[offset(w, x, y) + 0] == colors.aa_color@[0]);
}

/// A pixel whose bytes differ beyond the threshold, and that is not
/// anti-aliased in either image (or detection is off), is a difference: it
/// is set in the mask and drawn opaque in the diff colour (the alternate one
/// when the first image is the brighter and one is given).
pub proof fn lemma_plain_differences_are_counted(
    a: Seq<u8>,
    e: Seq<u8>,
    w: int,
    h: int,
    colors: DiffColors,
    judgements: Seq<PixelJudgement>,
    r: DiffResult,
    x: int,
    y: int,
)
    requires
        judged_diff(a, e, w, h, colors, judgements, r),
        0 <= x < w,
        0 <= y < h,
        !same_bytes(a, e, offset(w, x, y)),
        judgements[y * w + x].exceeds_threshold,
        colors.enable_antialias || !(antialiased(a, e, judgements[y * w + x].actual_keys@, x, y, w, h) || antialiased(
            e,
            a,
            judgements[y * w + x].expected_keys@,
            x,
            y,
            w,
            h,
        )),
    ensures
        r.diff_mask matches Some(m) && m@[y * w + x],
        r.diff_image matches Some(img) && {
            let c = if judgements[y * w + x].img1_brighter && colors.diff_color_alt is Some {
                colors.diff_color_alt->0
            } else {
                colors.diff_color
            };
            &&& img.data@[offset(w, x, y)] == c@[0]
            &&& img.data@[offset(w, x, y) + 1] == c@[1]
            &&& img.data@[offset(w, x, y) + 2] == c@[2]
            &&& img.data@[offset(w, x, y) + 3] == 255
        },
{
    let img = r.diff_image->0;
    assert(img.data@[offset(w, x, y) + 0] == drawn_byte(PixelClass::Different, judgements[y * w + x], colors, 0));
}

/// A pixel with the same bytes in both images, or within the threshold, is
/// no difference: it is left out of the mask and drawn opaque in its grey.
pub proof fn lemma_matching_pixels_are_grey(
    a: Seq<u8>,
    e: Seq<u8>,
    w: int,
    h: int,
    colors: DiffColors,
    judgements: Seq<PixelJudgement>,
    r: DiffResult,
    x: int,
    y: int,
)
    requires
        judged_diff(a, e, w, h, colors, judgements, r),
        0 <= x < w,
        0 <= y < h,
        same_bytes(a, e, offset(w, x, y)) || !judgements[y * w + x].exceeds_threshold,
    ensures
        r.diff_mask matches Some(m) && !m@[y * w + x],
        r.diff_image matches Some(img) && {
            let g = judgements[y * w + x].blended_grey;
            &&& img.data@[offset(w, x, y)] == g
            &&& img.data@[offset(w, x, y) + 1] == g
            &&& img.data@[offset(w, x, y) + 2] == g
            &&& img.data@[offset(w, x, y) + 3] == 255
        },
{
    let img = r.diff_image->0;
    assert(img.data@[offset(w, x, y) + 0] == drawn_byte(PixelClass::Matching, judgements[y * w + x], colors, 0));
}

} // verus!
