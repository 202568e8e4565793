//! Telling image changes that alter pixels from re-encodings that do not.
use vstd::prelude::*;
use crate::paths::{compare_bytes, lemma_bytes_order_antisymmetric};

verus! {

/// Whether two versions of an image look the same.
#[derive(Debug, Clone, Copy, PartialEq, Eq, Structural)]
pub enum ImageClassification {
    PixelIdentical,
    VisuallyChanged,
}

/// An image as decoded to 8-bit RGBA: width, height, the colour space tag
/// of its pixels (primaries and transfer characteristics), and the pixels.
pub struct DecodedImage {
    pub width: u32,
    pub height: u32,
    pub color: (u8, u8),
    pub pixels: Vec<u8>,
}

/// A plain-value picture of a decoded image.
pub open spec fn decoded_view(d: DecodedImage) -> (u32, u32, (u8, u8), Seq<u8>) {
    (d.width, d.height, d.color, d.pixels@)
}

/// What `image::load_from_memory` followed by `to_rgba8` makes of `bytes`,
/// as the plain values of `DecodedImage`, or `None` where decoding fails.
pub uninterp spec fn decoded_image(bytes: Seq<u8>) -> Option<(u32, u32, (u8, u8), Seq<u8>)>;

/// Decodes `bytes` with `image::load_from_memory`, converts the image with
/// `to_rgba8`, and reads the buffer's `width`, `height`, `color_space`
/// (its primaries and transfer characteristics, the parts an RGBA buffer
/// carries) and `into_raw` pixels. The result is named by `decoded_image`.
#[verifier::external_body]
fn decode_rgba8(bytes: &[u8]) -> (decoded: Option<DecodedImage>)
    ensures
        match decoded {
            Some(d) => decoded_image(bytes@) == Some(decoded_view(d)),
            None => decoded_image(bytes@) is None,
        },
{
    let rgba = image::load_from_memory(bytes).ok()?.to_rgba8();
    let color = rgba.color_space();
    Some(DecodedImage {
        width: rgba.width(),
        height: rgba.height(),
        color: (color.primaries as u8, color.transfer as u8),
        pixels: rgba.into_raw(),
    })
}

/// Two decoded images are pixel-identical when both decoded and their
/// dimensions, colour space tags and pixels agree.
pub open spec fn classify_decoded_spec(
    before: Option<(u32, u32, (u8, u8), Seq<u8>)>,
    after: Option<(u32, u32, (u8, u8), Seq<u8>)>,
) -> ImageClassification {
    match (before, after) {
        (Some(b), Some(a)) => if b == a {
            ImageClassification::PixelIdentical
        } else {
            ImageClassification::VisuallyChanged
        },
        _ => ImageClassification::VisuallyChanged,
    }
}

/// How two versions of an image compare: a missing side is a visual
/// change, and so is a side that does not decode.
pub open spec fn image_classification(before: Seq<u8>, after: Seq<u8>) -> ImageClassification {
    if before.len() == 0 || after.len() == 0 {
        ImageClassification::VisuallyChanged
    } else {
        classify_decoded_spec(decoded_image(before), decoded_image(after))
    }
}

/// Comparing two versions does not depend on which one came first, and a
/// version that decodes is pixel-identical to itself.
pub proof fn lemma_image_classification_symmetric(a: Seq<u8>, b: Seq<u8>)
    ensures
        image_classification(a, b) == image_classification(b, a),
        image_classification(a, a) == ImageClassification::PixelIdentical <==> (a.len() > 0
            && decoded_image(a) is Some),
{
}

/// Classifies two decoded versions of an image.
pub fn classify_decoded(before: &Option<DecodedImage>, after: &Option<DecodedImage>) -> (c: ImageClassification)
    ensures
        c == classify_decoded_spec(
            match before { Some(d) => Some(decoded_view(*d)), None => None },
            match after { Some(d) => Some(decoded_view(*d)), None => None },
        ),
{
    match (before, after) {
        (Some(b), Some(a)) => {
            if b.width == a.width && b.height == a.height && b.color.0 == a.color.0 && b.color.1
                == a.color.1 {
                let order = compare_bytes(b.pixels.as_slice(), a.pixels.as_slice());
                proof {
                    lemma_bytes_order_antisymmetric(b.pixels@, a.pixels@);
                }
                if order == 0 {
                    ImageClassification::PixelIdentical
                } else {
                    ImageClassification::VisuallyChanged
                }
            } else {
                ImageClassification::VisuallyChanged
            }
        },
        _ => ImageClassification::VisuallyChanged,
    }
}

/// Classifies two versions of an image: pixel-identical when both decode
/// to the same RGBA pixels, a visual change otherwise.
pub fn classify_image(before: &[u8], after: &[u8]) -> (c: ImageClassification)
    ensures
        c == image_classification(before@, after@),
{
    if before.len() == 0 || after.len() == 0 {
        return ImageClassification::VisuallyChanged;
    }
    let b = decode_rgba8(before);
    let a = decode_rgba8(after);
    classify_decoded(&b, &a)
}

/// The sizes of the two versions shown side by side in an image preview:
/// none when a side is empty or does not decode.
pub open spec fn preview_sizes_spec(before: Seq<u8>, after: Seq<u8>) -> Option<((u32, u32), (u32, u32))> {
    if before.len() == 0 || after.len() == 0 {
        None
    } else {
        match (decoded_image(before), decoded_image(after)) {
            (Some(b), Some(a)) => Some(((b.0, b.1), (a.0, a.1))),
            _ => None,
        }
    }
}

/// Decodes both versions of an image for a preview and gives their
/// sizes, `(width, height)` each, or `None` where there is nothing to show.
pub fn preview_sizes(before: &[u8], after: &[u8]) -> (sizes: Option<((u32, u32), (u32, u32))>)
    ensures
        sizes == preview_sizes_spec(before@, after@),
{
    if before.len() == 0 || after.len() == 0 {
        return None;
    }
    let b = match decode_rgba8(before) {
        Some(b) => b,
        None => return None,
    };
    let a = match decode_rgba8(after) {
        Some(a) => a,
        None => return None,
    };
    Some(((b.width, b.height), (a.width, a.height)))
}

} // verus!
