//! Anti-aliasing detection on RGBA buffers.
//!
//! A pixel is treated as anti-aliased when, in its 3x3 neighbourhood, the
//! brightness both rises and falls, few neighbours share its brightness, and
//! the darkest or brightest neighbour sits inside a flat area in both images.
//!
//! The brightness difference between a pixel and each of its neighbours is
//! the Y channel of the floating-point YIQ colour metric, which the caller
//! computes. It reaches this module as an order key per window cell: an
//! integer that is 0 exactly when the difference is 0 and that compares with
//! 0 and with the other keys as the differences do. Every decision made here
//! is such a comparison, so the keys decide as the differences would.
use vstd::prelude::*;

verus! {

/// Byte offset of the pixel `(x, y)` in a buffer of rows `w` pixels wide.
pub open spec fn offset(w: int, x: int, y: int) -> int {
    (y * w + x) * 4
}

proof fn lemma_offset_in_bounds(w: int, h: int, x: int, y: int)
    requires
        0 <= x < w,
        0 <= y < h,
    ensures
        0 <= offset(w, x, y),
        offset(w, x, y) + 4 <= w * h * 4,
{
    assert(0 <= y * w + x < w * h) by (nonlinear_arith)
        requires
            0 <= x < w,
            0 <= y < h,
    ;
}

/// The `t`-th cell, `0 <= t < 9`, of the 3x3 window around `(x, y)` in
/// row-major order, as `(nx, ny)`.
pub open spec fn window_cell(x: int, y: int, t: int) -> (int, int) {
    (x + t % 3 - 1, y + t / 3 - 1)
}

/// Whether the `t`-th window cell is a neighbour of `(x, y)` inside the image.
pub open spec fn is_neighbour(x: int, y: int, w: int, h: int, t: int) -> bool {
    let (nx, ny) = window_cell(x, y, t);
    &&& 0 <= nx < w
    &&& 0 <= ny < h
    &&& t != 4
}

/// Whether `(x, y)` lies on the border of a `w` x `h` image.
pub open spec fn on_border(x: int, y: int, w: int, h: int) -> bool {
    x == 0 || y == 0 || x == w - 1 || y == h - 1
}

/// Number of neighbours among the first `t` window cells whose brightness
/// equals that of `(x, y)`: those whose key is 0.
pub open spec fn count_same_brightness(keys: Seq<i64>, x: int, y: int, w: int, h: int, t: int) -> int
    decreases t,
{
    if t <= 0 {
        0
    } else {
        count_same_brightness(keys, x, y, w, h, t - 1) + if is_neighbour(x, y, w, h, t - 1) && keys[t - 1] == 0 {
            1int
        } else {
            0int
        }
    }
}

/// Folds window cell `t` into the darkest neighbour found so far.
pub open spec fn darkest_step(prev: (int, int, int), keys: Seq<i64>, x: int, y: int, w: int, h: int, t: int) -> (int, int, int) {
    let (nx, ny) = window_cell(x, y, t);
    let d = keys[t] as int;
    if is_neighbour(x, y, w, h, t) && d < prev.0 {
        (d, nx, ny)
    } else {
        prev
    }
}

/// Folds window cell `t` into the brightest neighbour found so far.
pub open spec fn brightest_step(prev: (int, int, int), keys: Seq<i64>, x: int, y: int, w: int, h: int, t: int) -> (int, int, int) {
    let (nx, ny) = window_cell(x, y, t);
    let d = keys[t] as int;
    if is_neighbour(x, y, w, h, t) && d > prev.0 {
        (d, nx, ny)
    } else {
        prev
    }
}

/// The first neighbour, among the first `t` window cells, with the most
/// negative brightness difference, as `(key, nx, ny)`; `(0, 0, 0)` when
/// there is none.
pub open spec fn darkest_neighbour(keys: Seq<i64>, x: int, y: int, w: int, h: int, t: int) -> (int, int, int)
    decreases t,
{
    if t <= 0 {
        (0, 0, 0)
    } else {
        darkest_step(darkest_neighbour(keys, x, y, w, h, t - 1), keys, x, y, w, h, t - 1)
    }
}

/// The first neighbour, among the first `t` window cells, with the largest
/// positive brightness difference, as `(key, nx, ny)`; `(0, 0, 0)` when
/// there is none.
pub open spec fn brightest_neighbour(keys: Seq<i64>, x: int, y: int, w: int, h: int, t: int) -> (int, int, int)
    decreases t,
{
    if t <= 0 {
        (0, 0, 0)
    } else {
        brightest_step(brightest_neighbour(keys, x, y, w, h, t - 1), keys, x, y, w, h, t - 1)
    }
}

/// Whether the 4 bytes at offsets `k` and `m` of `img` are equal.
pub open spec fn same_pixel(img: Seq<u8>, k: int, m: int) -> bool {
    img[k] == img[m] && img[k + 1] == img[m + 1] && img[k + 2] == img[m + 2] && img[k + 3] == img[m + 3]
}

/// Number of neighbours among the first `t` window cells that hold exactly
/// the same RGBA value as `(x, y)`.
pub open spec fn count_same_pixel(img: Seq<u8>, x: int, y: int, w: int, h: int, t: int) -> int
    decreases t,
{
    if t <= 0 {
        0
    } else {
        let (nx, ny) = window_cell(x, y, t - 1);
        count_same_pixel(img, x, y, w, h, t - 1) + if is_neighbour(x, y, w, h, t - 1)
            && same_pixel(img, offset(w, x, y), offset(w, nx, ny)) {
            1int
        } else {
            0int
        }
    }
}

/// A pixel has many siblings when three or more of its neighbours inside the
/// image hold exactly its RGBA value.
pub open spec fn many_siblings(img: Seq<u8>, x: int, y: int, w: int, h: int) -> bool {
    count_same_pixel(img, x, y, w, h, 9) >= 3
}

/// The anti-aliasing rule for pixel `(x, y)` of `img1`, compared with `img2`,
/// where `keys[t]` is the order key of the brightness difference between
/// `(x, y)` and window cell `t` of `img1`: the pixel is not anti-aliased when
/// more than two neighbours (a border position counting as one) share its
/// brightness, or when no neighbour is darker or none is brighter; else it is
/// when the first darkest or the first brightest neighbour has many siblings
/// in both images.
pub open spec fn antialiased(img1: Seq<u8>, img2: Seq<u8>, keys: Seq<i64>, x: int, y: int, w: int, h: int) -> bool {
    let zeroes = (if on_border(x, y, w, h) { 1int } else { 0int }) + count_same_brightness(keys, x, y, w, h, 9);
    let dark = darkest_neighbour(keys, x, y, w, h, 9);
    let bright = brightest_neighbour(keys, x, y, w, h, 9);
    if zeroes > 2 {
        false
    } else if dark.0 == 0 || bright.0 == 0 {
        false
    } else {
        (many_siblings(img1, dark.1, dark.2, w, h) && many_siblings(img2, dark.1, dark.2, w, h))
            || (many_siblings(img1, bright.1, bright.2, w, h) && many_siblings(img2, bright.1, bright.2, w, h))
    }
}

/// Facts about an image geometry shared by the functions below.
pub open spec fn valid_geometry(len1: int, len2: int, width: int, height: int) -> bool {
    &&& 0 < width
    &&& 0 < height
    &&& width * height * 4 <= u32::MAX
    &&& len1 >= width * height * 4
    &&& len2 >= width * height * 4
}

proof fn lemma_geometry_bounds(w: int, h: int)
    requires
        0 < w,
        0 < h,
        w * h * 4 <= u32::MAX,
    ensures
        w * 4 <= u32::MAX,
        h * 4 <= u32::MAX,
{
    assert(w <= w * h && h <= w * h) by (nonlinear_arith)
        requires
            0 < w,
            0 < h,
    ;
}

/// Position `(nx, ny)`, byte offset and validity of window cell `t`.
fn neighbour_at(x: u32, y: u32, width: u32, height: u32, t: u32) -> (r: (bool, u32, u32, usize))
    requires
        0 < width,
        0 < height,
        width as int * height as int * 4 <= u32::MAX,
        x < width,
        y < height,
        t < 9,
    ensures
        r.0 == is_neighbour(x as int, y as int, width as int, height as int, t as int),
        r.0 ==> r.1 as int == window_cell(x as int, y as int, t as int).0,
        r.0 ==> r.2 as int == window_cell(x as int, y as int, t as int).1,
        r.0 ==> r.1 < width && r.2 < height,
        r.0 ==> r.3 as int == offset(width as int, r.1 as int, r.2 as int),
        r.0 ==> r.3 + 4 <= width as int * height as int * 4,
{
    proof {
        lemma_geometry_bounds(width as int, height as int);
    }
    let dx = t % 3;
    let dy = t / 3;
    if t == 4 {
        return (false, 0, 0, 0);
    }
    if x + dx < 1 || y + dy < 1 {
        return (false, 0, 0, 0);
    }
    let nx = x + dx - 1;
    let ny = y + dy - 1;
    if nx >= width || ny >= height {
        return (false, 0, 0, 0);
    }
    proof {
        lemma_offset_in_bounds(width as int, height as int, nx as int, ny as int);
    }
    let nk: usize = ((ny * width + nx) * 4) as usize;
    (true, nx, ny, nk)
}

/// Byte offset of `(x, y)`.
fn offset_of(x: u32, y: u32, width: u32, height: u32) -> (k: usize)
    requires
        0 < width,
        0 < height,
        width as int * height as int * 4 <= u32::MAX,
        x < width,
        y < height,
    ensures
        k as int == offset(width as int, x as int, y as int),
        k + 4 <= width as int * height as int * 4,
{
    proof {
        lemma_offset_in_bounds(width as int, height as int, x as int, y as int);
    }
    ((y * width + x) * 4) as usize
}

/// Whether the pixel at `(x, y)` has three or more neighbours inside the
/// image with exactly the same RGBA value.
pub fn has_many_siblings(img: &[u8], x: u32, y: u32, width: u32, height: u32) -> (r: bool)
    requires
        valid_geometry(img@.len() as int, img@.len() as int, width as int, height as int),
        x < width,
        y < height,
    ensures
        r == many_siblings(img@, x as int, y as int, width as int, height as int),
{
    let ghost w = width as int;
    let ghost h = height as int;
    let k: usize = offset_of(x, y, width, height);
    let mut same: u32 = 0;
    let mut t: u32 = 0;
    while t < 9
        invariant
            valid_geometry(img@.len() as int, img@.len() as int, w, h),
            w == width,
            h == height,
            x < width,
            y < height,
            k as int == offset(w, x as int, y as int),
            k + 4 <= img@.len(),
            t <= 9,
            same as int == count_same_pixel(img@, x as int, y as int, w, h, t as int),
            same <= 2,
        decreases 9 - t,
    {
        let (ok, nx, ny, nk) = neighbour_at(x, y, width, height, t);
        if ok {
            if img[nk] == img[k] && img[nk + 1] == img[k + 1] && img[nk + 2] == img[k + 2] && img[nk + 3]
                == img[k + 3] {
                same = same + 1;
                if same >= 3 {
                    proof {
                        lemma_count_same_pixel_monotone(img@, x as int, y as int, w, h, t as int + 1, 9);
                    }
                    return true;
                }
            }
        }
        t = t + 1;
    }
    false
}

proof fn lemma_count_same_pixel_monotone(img: Seq<u8>, x: int, y: int, w: int, h: int, s: int, t: int)
    requires
        0 <= s <= t,
    ensures
        count_same_pixel(img, x, y, w, h, s) <= count_same_pixel(img, x, y, w, h, t),
    decreases t - s,
{
    if s < t {
        lemma_count_same_pixel_monotone(img, x, y, w, h, s, t - 1);
    }
}

proof fn lemma_count_same_brightness_monotone(keys: Seq<i64>, x: int, y: int, w: int, h: int, s: int, t: int)
    requires
        0 <= s <= t,
    ensures
        count_same_brightness(keys, x, y, w, h, s) <= count_same_brightness(keys, x, y, w, h, t),
    decreases t - s,
{
    if s < t {
        lemma_count_same_brightness_monotone(keys, x, y, w, h, s, t - 1);
    }
}

proof fn lemma_darkest_in_window(keys: Seq<i64>, x: int, y: int, w: int, h: int, t: int)
    requires
        0 <= t <= 9,
    ensures
        ({
            let d = darkest_neighbour(keys, x, y, w, h, t);
            d.0 <= 0 && (d.0 < 0 ==> 0 <= d.1 < w && 0 <= d.2 < h)
        }),
    decreases t,
{
    if t > 0 {
        lemma_darkest_in_window(keys, x, y, w, h, t - 1);
    }
}

proof fn lemma_brightest_in_window(keys: Seq<i64>, x: int, y: int, w: int, h: int, t: int)
    requires
        0 <= t <= 9,
    ensures
        ({
            let d = brightest_neighbour(keys, x, y, w, h, t);
            d.0 >= 0 && (d.0 > 0 ==> 0 <= d.1 < w && 0 <= d.2 < h)
        }),
    decreases t,
{
    if t > 0 {
        lemma_brightest_in_window(keys, x, y, w, h, t - 1);
    }
}

proof fn lemma_darkest_stays_zero(keys: Seq<i64>, x: int, y: int, w: int, h: int, t: int)
    requires
        0 <= t <= 9,
        forall|s: int| 0 <= s < 9 && is_neighbour(x, y, w, h, s) ==> keys[s] >= 0,
    ensures
        darkest_neighbour(keys, x, y, w, h, t).0 == 0,
    decreases t,
{
    if t > 0 {
        lemma_darkest_stays_zero(keys, x, y, w, h, t - 1);
    }
}

proof fn lemma_brightest_stays_zero(keys: Seq<i64>, x: int, y: int, w: int, h: int, t: int)
    requires
        0 <= t <= 9,
        forall|s: int| 0 <= s < 9 && is_neighbour(x, y, w, h, s) ==> keys[s] <= 0,
    ensures
        brightest_neighbour(keys, x, y, w, h, t).0 == 0,
    decreases t,
{
    if t > 0 {
        lemma_brightest_stays_zero(keys, x, y, w, h, t - 1);
    }
}

/// A pixel is anti-aliased only between a darker and a brighter neighbour:
/// when no neighbour inside the image is brighter, or none is darker, it is
/// not anti-aliased, whatever the other image holds.
pub proof fn lemma_antialiased_needs_both_sides(
    img1: Seq<u8>,
    img2: Seq<u8>,
    keys: Seq<i64>,
    x: int,
    y: int,
    w: int,
    h: int,
)
    ensures
        (forall|t: int| 0 <= t < 9 && is_neighbour(x, y, w, h, t) ==> keys[t] >= 0) ==> !antialiased(
            img1,
            img2,
            keys,
            x,
            y,
            w,
            h,
        ),
        (forall|t: int| 0 <= t < 9 && is_neighbour(x, y, w, h, t) ==> keys[t] <= 0) ==> !antialiased(
            img1,
            img2,
            keys,
            x,
            y,
            w,
            h,
        ),
{
    if forall|t: int| 0 <= t < 9 && is_neighbour(x, y, w, h, t) ==> keys[t] >= 0 {
        lemma_darkest_stays_zero(keys, x, y, w, h, 9);
    }
    if forall|t: int| 0 <= t < 9 && is_neighbour(x, y, w, h, t) ==> keys[t] <= 0 {
        lemma_brightest_stays_zero(keys, x, y, w, h, 9);
    }
}

proof fn lemma_count_same_brightness_step(keys: Seq<i64>, x: int, y: int, w: int, h: int, t: int)
    requires
        0 <= t < 9,
        is_neighbour(x, y, w, h, t),
        keys[t] == 0,
    ensures
        count_same_brightness(keys, x, y, w, h, 9) >= count_same_brightness(keys, x, y, w, h, t) + 1,
{
    lemma_count_same_brightness_monotone(keys, x, y, w, h, t + 1, 9);
}

/// A pixel in a flat area is not anti-aliased: when three neighbours inside
/// the image share its brightness, or two do and it lies on the border, it
/// is not anti-aliased, whatever the other image holds.
pub proof fn lemma_flat_pixel_not_antialiased(
    img1: Seq<u8>,
    img2: Seq<u8>,
    keys: Seq<i64>,
    x: int,
    y: int,
    w: int,
    h: int,
    t1: int,
    t2: int,
    t3: int,
)
    requires
        0 <= t1 < t2 < 9,
        is_neighbour(x, y, w, h, t1) && keys[t1] == 0,
        is_neighbour(x, y, w, h, t2) && keys[t2] == 0,
        on_border(x, y, w, h) || (t2 < t3 < 9 && is_neighbour(x, y, w, h, t3) && keys[t3] == 0),
    ensures
        !antialiased(img1, img2, keys, x, y, w, h),
{
    lemma_count_same_brightness_monotone(keys, x, y, w, h, 0, t1);
    lemma_count_same_brightness_step(keys, x, y, w, h, t1);
    lemma_count_same_brightness_monotone(keys, x, y, w, h, t1 + 1, t2);
    lemma_count_same_brightness_step(keys, x, y, w, h, t2);
    assert(count_same_brightness(keys, x, y, w, h, t2 + 1) == count_same_brightness(keys, x, y, w, h, t2) + 1);
    assert(count_same_brightness(keys, x, y, w, h, t1 + 1) == count_same_brightness(keys, x, y, w, h, t1) + 1);
    if !on_border(x, y, w, h) {
        lemma_count_same_brightness_monotone(keys, x, y, w, h, t2 + 1, t3);
        lemma_count_same_brightness_step(keys, x, y, w, h, t3);
    }
}

/// Three neighbours inside the image with exactly the pixel's RGBA value
/// give it many siblings; the image border adds none.
pub proof fn lemma_three_equal_neighbours_are_many_siblings(
    img: Seq<u8>,
    x: int,
    y: int,
    w: int,
    h: int,
    t1: int,
    t2: int,
    t3: int,
)
    requires
        0 <= t1 < t2 < t3 < 9,
        is_neighbour(x, y, w, h, t1) && same_pixel(
            img,
            offset(w, x, y),
            offset(w, window_cell(x, y, t1).0, window_cell(x, y, t1).1),
        ),
        is_neighbour(x, y, w, h, t2) && same_pixel(
            img,
            offset(w, x, y),
            offset(w, window_cell(x, y, t2).0, window_cell(x, y, t2).1),
        ),
        is_neighbour(x, y, w, h, t3) && same_pixel(
            img,
            offset(w, x, y),
            offset(w, window_cell(x, y, t3).0, window_cell(x, y, t3).1),
        ),
    ensures
        many_siblings(img, x, y, w, h),
{
    lemma_count_same_pixel_monotone(img, x, y, w, h, 0, t1);
    lemma_count_same_pixel_monotone(img, x, y, w, h, t1 + 1, t2);
    lemma_count_same_pixel_monotone(img, x, y, w, h, t2 + 1, t3);
    lemma_count_same_pixel_monotone(img, x, y, w, h, t3 + 1, 9);
}

/// Folds window cell `t` into the running scan: whether it is a neighbour of
/// equal brightness, the darkest and the brightest neighbour.
fn scan_cell(
    x: u32,
    y: u32,
    width: u32,
    height: u32,
    keys: &[i64; 9],
    t: u32,
    dark: (i64, u32, u32),
    bright: (i64, u32, u32),
) -> (r: (bool, (i64, u32, u32), (i64, u32, u32)))
    requires
        0 < width,
        0 < height,
        width as int * height as int * 4 <= u32::MAX,
        x < width,
        y < height,
        t < 9,
        dark.0 <= 0,
        bright.0 >= 0,
    ensures
        r.0 == (is_neighbour(x as int, y as int, width as int, height as int, t as int) && keys@[t as int] == 0),
        (r.1.0 as int, r.1.1 as int, r.1.2 as int) == darkest_step(
            (dark.0 as int, dark.1 as int, dark.2 as int),
            keys@,
            x as int,
            y as int,
            width as int,
            height as int,
            t as int,
        ),
        (r.2.0 as int, r.2.1 as int, r.2.2 as int) == brightest_step(
            (bright.0 as int, bright.1 as int, bright.2 as int),
            keys@,
            x as int,
            y as int,
            width as int,
            height as int,
            t as int,
        ),
        r.1.0 <= 0,
        r.2.0 >= 0,
{
    let (ok, nx, ny, _nk) = neighbour_at(x, y, width, height, t);
    if !ok {
        return (false, dark, bright);
    }
    let delta = keys[t as usize];
    if delta == 0 {
        (true, dark, bright)
    } else if delta < dark.0 {
        (false, (delta, nx, ny), bright)
    } else if delta > bright.0 {
        (false, dark, (delta, nx, ny))
    } else {
        (false, dark, bright)
    }
}

/// Whether the pixel at `(x, y)` of `img1` is anti-aliased, judged from its
/// 3x3 neighbourhood in `img1` and the flatness of its extreme neighbours in
/// both images (see `antialiased`). `keys[t]` is the order key of the
/// brightness difference between `(x, y)` and window cell `t` of `img1`,
/// cells counted row by row from the top left; keys of cells outside the
/// image and of the centre are not read.
pub fn is_antialiased(img1: &[u8], img2: &[u8], x: u32, y: u32, width: u32, height: u32, keys: &[i64; 9]) -> (r: bool)
    requires
        valid_geometry(img1@.len() as int, img2@.len() as int, width as int, height as int),
        x < width,
        y < height,
    ensures
        r == antialiased(img1@, img2@, keys@, x as int, y as int, width as int, height as int),
{
    let ghost w = width as int;
    let ghost h = height as int;
    let is_edge = x == 0 || y == 0 || x == width - 1 || y == height - 1;
    let mut zeroes: u32 = if is_edge { 1 } else { 0 };
    let mut dark: (i64, u32, u32) = (0, 0, 0);
    let mut bright: (i64, u32, u32) = (0, 0, 0);
    let mut t: u32 = 0;
    while t < 9
        invariant
            valid_geometry(img1@.len() as int, img2@.len() as int, w, h),
            w == width,
            h == height,
            x < width,
            y < height,
            t <= 9,
            zeroes as int == (if on_border(x as int, y as int, w, h) { 1int } else { 0int })
                + count_same_brightness(keys@, x as int, y as int, w, h, t as int),
            zeroes <= 2,
            darkest_neighbour(keys@, x as int, y as int, w, h, t as int) == (
                dark.0 as int,
                dark.1 as int,
                dark.2 as int,
            ),
            brightest_neighbour(keys@, x as int, y as int, w, h, t as int) == (
                bright.0 as int,
                bright.1 as int,
                bright.2 as int,
            ),
            dark.0 <= 0,
            bright.0 >= 0,
        decreases 9 - t,
    {
        let (same, d2, b2) = scan_cell(x, y, width, height, keys, t, dark, bright);
        dark = d2;
        bright = b2;
        if same {
            zeroes = zeroes + 1;
            if zeroes > 2 {
                proof {
                    lemma_count_same_brightness_monotone(keys@, x as int, y as int, w, h, t as int + 1, 9);
                }
                return false;
            }
        }
        t = t + 1;
    }
    proof {
        lemma_darkest_in_window(keys@, x as int, y as int, w, h, 9);
        lemma_brightest_in_window(keys@, x as int, y as int, w, h, 9);
    }
    let (min_delta, min_x, min_y) = dark;
    let (max_delta, max_x, max_y) = bright;
    if min_delta == 0 || max_delta == 0 {
        return false;
    }
    (has_many_siblings(img1, min_x, min_y, width, height) && has_many_siblings(img2, min_x, min_y, width, height))
        || (has_many_siblings(img1, max_x, max_y, width, height) && has_many_siblings(
        img2,
        max_x,
        max_y,
        width,
        height,
    ))
}

} // verus!
