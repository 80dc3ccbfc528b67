use vstd::prelude::*;

use crate::fingerprint::{FuzzyHash, FuzzyHashAlgorithm};

verus! {

#[verifier::external_type_specification]
#[verifier::external_body]
pub struct ExDynamicImage(image::DynamicImage);

#[verifier::external_type_specification]
#[verifier::external_body]
pub struct ExImageError(image::ImageError);

/// Whether `bytes` decode as an image in the format that the extension of `path` names.
pub uninterp spec fn decodes(path: Seq<char>, bytes: Seq<u8>) -> bool;

/// Relies on image::ImageFormat::from_path and image::load_from_memory_with_format:
/// the format is chosen by the path's extension, as image::open does, and the bytes are
/// decoded in it; success depends on the path and the bytes alone.
#[verifier::external_body]
fn decode_image(path: &str, bytes: &[u8]) -> (r: Result<image::DynamicImage, image::ImageError>)
    ensures
        r is Ok == decodes(path@, bytes@),
{
    image::ImageFormat::from_path(path).and_then(|format| image::load_from_memory_with_format(bytes, format))
}

/// Relies on imagehash::average_hash: one bit per pixel of the 8x8 grayscale downsample.
#[verifier::external_body]
fn average_bits(img: &image::DynamicImage) -> (r: Vec<bool>)
    ensures
        r.len() == 64,
{
    imagehash::average_hash(img).bits
}

/// Relies on imagehash::difference_hash: eight neighbour comparisons in each of the
/// eight rows of the 9x8 grayscale downsample.
#[verifier::external_body]
fn difference_bits(img: &image::DynamicImage) -> (r: Vec<bool>)
    ensures
        r.len() == 64,
{
    imagehash::difference_hash(img).bits
}

/// Relies on imagehash::perceptual_hash: the 8x8 low-frequency block of the DCT of
/// the 32x32 grayscale downsample, one bit per coefficient.
#[verifier::external_body]
fn perceptual_bits(img: &image::DynamicImage) -> (r: Vec<bool>)
    ensures
        r.len() == 64,
{
    imagehash::perceptual_hash(img).bits
}

/// Decodes `bytes`, the contents of the file at `path`, and fingerprints the image
/// with `algo`. Fails exactly when the bytes do not decode in the path's format.
pub fn compute_fuzzy_hash(path: &str, bytes: &[u8], algo: FuzzyHashAlgorithm) -> (r: Result<
    FuzzyHash,
    image::ImageError,
>)
    ensures
        r is Ok == decodes(path@, bytes@),
        r matches Ok(h) ==> h.algo == algo && h.bits.len() == 64,
{
    let img = match decode_image(path, bytes) {
        Ok(img) => img,
        Err(e) => {
            return Err(e);
        },
    };
    let bits = match algo {
        FuzzyHashAlgorithm::AHash => average_bits(&img),
        FuzzyHashAlgorithm::DHash => difference_bits(&img),
        FuzzyHashAlgorithm::PHash => perceptual_bits(&img),
    };
    Ok(FuzzyHash { algo, bits })
}

} // verus!
