//! Loading two encoded images for comparison, with a hash fast path for
//! byte-identical files.
use vstd::prelude::*;

use crate::image::{DiffError, DiffResult, ImageData};

verus! {

/// The 64-bit XXH3 hash (default secret, seed 0) of a byte string.
pub uninterp spec fn xxh3_hash(bytes: Seq<u8>) -> u64;

/// What decoding an encoded image (PNG, JPEG, GIF, BMP, TIFF; format guessed
/// from the content) and converting it to 8-bit RGBA gives: width, height and
/// row-major pixel bytes, or the decoder's error message.
pub uninterp spec fn decoded_rgba(bytes: Seq<u8>) -> Result<(u32, u32, Seq<u8>), Seq<char>>;

/// Calls `xxhash_rust::xxh3::xxh3_64`, a pure function of its input bytes.
#[verifier::external_body]
fn hash_bytes(bytes: &[u8]) -> (h: u64)
    ensures
        h == xxh3_hash(bytes@),
{
    xxhash_rust::xxh3::xxh3_64(bytes)
}

/// Calls `image::load_from_memory`, then converts the decoded image to RGBA
/// (`to_rgba8`) and takes its dimensions and raw bytes; an error becomes its
/// message. The result is named by `decoded_rgba`, a function of the bytes.
/// An RGBA buffer holds four bytes per pixel.
#[verifier::external_body]
fn decode_rgba(bytes: &[u8]) -> (r: Result<(u32, u32, Vec<u8>), String>)
    ensures
        r matches Ok(img) ==> img.2@.len() == img.0 as int * img.1 as int * 4,
        match r {
            Ok(img) => decoded_rgba(bytes@) == Ok::<(u32, u32, Seq<u8>), Seq<char>>((img.0, img.1, img.2@)),
            Err(e) => decoded_rgba(bytes@) == Err::<(u32, u32, Seq<u8>), Seq<char>>(e@),
        },
{
    match image::load_from_memory(bytes) {
        Ok(img) => {
            let rgba = img.to_rgba8();
            let (w, h) = rgba.dimensions();
            Ok((w, h, rgba.into_raw()))
        },
        Err(e) => Err(e.to_string()),
    }
}

/// Two encoded images ready for comparison.
#[derive(Debug)]
pub enum LoadedImages {
    /// The inputs hash alike; the result reports no difference.
    Identical(DiffResult),
    /// Both images decoded to RGBA.
    Decoded(ImageData, ImageData),
}

/// The result reported for byte-identical inputs: no differing pixel, the
/// size of the decoded image, no diff image and no mask.
pub open spec fn same_image_result(w: u32, h: u32) -> DiffResult {
    DiffResult {
        diff_count: 0,
        total_pixels: (w * h) as u64,
        width: w,
        height: h,
        images_are_same: true,
        diff_image: None,
        diff_mask: None,
    }
}

/// What loading gives from the two hashes and the decoder's results (`ed`
/// is the decoding of `expected`, when it was decoded): for equal hashes,
/// the identical-image result from decoding `actual` alone; otherwise both
/// images decoded, `actual` first, the first decoding error winning.
pub open spec fn settled(
    actual_hash: u64,
    expected_hash: u64,
    ad: Result<(u32, u32, Seq<u8>), Seq<char>>,
    ed: Option<Result<(u32, u32, Seq<u8>), Seq<char>>>,
    r: Result<LoadedImages, DiffError>,
) -> bool {
    if actual_hash == expected_hash {
        match ad {
            Err(msg) => r matches Err(DiffError::ImageDecode(m)) && m@ == msg,
            Ok(img) => r matches Ok(LoadedImages::Identical(res)) && res == same_image_result(img.0, img.1),
        }
    } else {
        match (ad, ed) {
            (Err(msg), _) => r matches Err(DiffError::ImageDecode(m)) && m@ == msg,
            (Ok(_), Some(Err(msg))) => r matches Err(DiffError::ImageDecode(m)) && m@ == msg,
            (Ok(a), Some(Ok(e))) => r matches Ok(LoadedImages::Decoded(ia, ie)) && ia.width == a.0 && ia.height
                == a.1 && ia.data@ == a.2 && ie.width == e.0 && ie.height == e.1 && ie.data@ == e.2,
            (Ok(_), None) => false,
        }
    }
}

/// What loading gives: for equal hashes, the identical-image result from
/// decoding `actual` alone; otherwise both images decoded, `actual` first.
pub open spec fn loaded_images(actual: Seq<u8>, expected: Seq<u8>, r: Result<LoadedImages, DiffError>) -> bool {
    settled(xxh3_hash(actual), xxh3_hash(expected), decoded_rgba(actual), Some(decoded_rgba(expected)), r)
}

/// The view of a decoder's result.
pub open spec fn decoded_view(d: Result<(u32, u32, Vec<u8>), String>) -> Result<(u32, u32, Seq<u8>), Seq<char>> {
    match d {
        Ok(img) => Ok((img.0, img.1, img.2@)),
        Err(e) => Err(e@),
    }
}

/// Settles a load from the two hashes and the decoder's results (see
/// `settled`); `expected_decoded` is needed only when the hashes differ and
/// `actual` decoded.
pub fn settle_load(
    actual_hash: u64,
    expected_hash: u64,
    actual_decoded: Result<(u32, u32, Vec<u8>), String>,
    expected_decoded: Option<Result<(u32, u32, Vec<u8>), String>>,
) -> (r: Result<LoadedImages, DiffError>)
    requires
        actual_hash != expected_hash && actual_decoded is Ok ==> expected_decoded is Some,
    ensures
        settled(
            actual_hash,
            expected_hash,
            decoded_view(actual_decoded),
            match expected_decoded {
                Some(d) => Some(decoded_view(d)),
                None => None,
            },
            r,
        ),
{
    if actual_hash == expected_hash {
        match actual_decoded {
            Err(e) => Err(DiffError::ImageDecode(e)),
            Ok((w, h, _data)) => {
                assert((w as int) * (h as int) <= u64::MAX) by (nonlinear_arith)
                    requires
                        w <= u32::MAX,
                        h <= u32::MAX,
                ;
                let total: u64 = (w as u64) * (h as u64);
                Ok(
                    LoadedImages::Identical(
                        DiffResult {
                            diff_count: 0,
                            total_pixels: total,
                            width: w,
                            height: h,
                            images_are_same: true,
                            diff_image: None,
                            diff_mask: None,
                        },
                    ),
                )
            },
        }
    } else {
        let (aw, ah, ad) = match actual_decoded {
            Err(e) => {
                return Err(DiffError::ImageDecode(e));
            },
            Ok(a) => a,
        };
        let (ew, eh, ed) = match expected_decoded {
            Some(Ok(e)) => e,
            Some(Err(e)) => {
                return Err(DiffError::ImageDecode(e));
            },
            None => {
                return Err(DiffError::ImageDecode(String::new()));
            },
        };
        Ok(
            LoadedImages::Decoded(
                ImageData { width: aw, height: ah, data: ad },
                ImageData { width: ew, height: eh, data: ed },
            ),
        )
    }
}

/// Loads two encoded images. When the byte strings hash alike (XXH3), only
/// `actual` is decoded and the comparison is settled as identical.
pub fn load_image_pair(actual: &[u8], expected: &[u8]) -> (r: Result<LoadedImages, DiffError>)
    ensures
        loaded_images(actual@, expected@, r),
        r matches Ok(LoadedImages::Decoded(a, e)) ==> a.data@.len() == a.width * a.height * 4 && e.data@.len()
            == e.width * e.height * 4,
{
    let actual_hash = hash_bytes(actual);
    let expected_hash = hash_bytes(expected);
    let actual_decoded = decode_rgba(actual);
    let expected_decoded = if actual_hash != expected_hash && actual_decoded.is_ok() {
        Some(decode_rgba(expected))
    } else {
        None
    };
    let ghost ad = decoded_view(actual_decoded);
    proof {
        assert(ad == decoded_rgba(actual@));
        if expected_decoded is Some {
            assert(decoded_view(expected_decoded->0) == decoded_rgba(expected@));
        }
    }
    settle_load(actual_hash, expected_hash, actual_decoded, expected_decoded)
}


/// Byte-identical files are settled without comparing pixels: either the
/// decoder's error, or no differing pixel.
pub proof fn lemma_identical_files_no_diff(bytes: Seq<u8>, r: Result<LoadedImages, DiffError>)
    requires
        loaded_images(bytes, bytes, r),
    ensures
        r is Err || (r matches Ok(LoadedImages::Identical(res)) && res.diff_count == 0 && res.images_are_same),
{
}

} // verus!
