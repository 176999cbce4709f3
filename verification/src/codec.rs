//! Calls into the `image` and `base64` crates, and into `std` where `vstd` does not
//! specify a function. Every item here is trusted: its contract is believed, not proved.

use vstd::prelude::*;

verus! {

/// An error of the `image` crate.
#[verifier::external_type_specification]
#[verifier::external_body]
pub struct ExImageError(image::ImageError);

/// The PNG file that `image` writes for an 8-bit RGBA image of `width` by `height`
/// pixels, or `None` where it fails.
pub uninterp spec fn png_encoding(width: u32, height: u32, pixels: Seq<u8>) -> Option<Seq<u8>>;

/// The character of the standard base64 alphabet for a six-bit value: `A`-`Z`, `a`-`z`,
/// `0`-`9`, `+`, `/`.
pub open spec fn base64_char(value: nat) -> u8 {
    if value < 26 {
        (65 + value) as u8
    } else if value < 52 {
        (97 + value - 26) as u8
    } else if value < 62 {
        (48 + value - 52) as u8
    } else if value == 62 {
        43u8
    } else {
        47u8
    }
}

/// The standard base64 encoding, with `=` padding, of a byte string: each group of three
/// bytes becomes four characters of six bits each; a last group of one or two bytes
/// becomes two or three characters followed by `==` or `=`.
pub open spec fn base64_standard(input: Seq<u8>) -> Seq<u8>
    decreases input.len(),
{
    if input.len() == 0 {
        Seq::empty()
    } else if input.len() == 1 {
        let a = input[0] as nat;
        seq![base64_char(a / 4), base64_char((a % 4) * 16), 61u8, 61u8]
    } else if input.len() == 2 {
        let a = input[0] as nat;
        let b = input[1] as nat;
        seq![base64_char(a / 4), base64_char((a % 4) * 16 + b / 16), base64_char((b % 16) * 4), 61u8]
    } else {
        let a = input[0] as nat;
        let b = input[1] as nat;
        let c = input[2] as nat;
        seq![
            base64_char(a / 4),
            base64_char((a % 4) * 16 + b / 16),
            base64_char((b % 16) * 4 + c / 64),
            base64_char(c % 64),
        ] + base64_standard(input.skip(3))
    }
}

/// Encodes an 8-bit RGBA image as PNG with `image::DynamicImage::write_to`, into memory.
/// Trusted: the bytes written, or the error, are what `png_encoding` names for the
/// arguments; nothing is stated of the error itself.
#[verifier::external_body]
pub(crate) fn encode_png(width: u32, height: u32, pixels: &[u8]) -> (encoded: Result<Vec<u8>, image::ImageError>)
    requires
        pixels@.len() == width * height * 4,
    ensures
        encoded is Ok <==> png_encoding(width, height, pixels@) is Some,
        encoded matches Ok(bytes) ==> png_encoding(width, height, pixels@) == Some(bytes@),
{
    let image = image::RgbaImage::from_raw(width, height, pixels.to_vec()).unwrap();
    let mut encoded: Vec<u8> = Vec::new();
    image::DynamicImage::ImageRgba8(image)
        .write_to(&mut std::io::Cursor::new(&mut encoded), image::ImageFormat::Png)?;
    Ok(encoded)
}

/// `resized` is an image that `image` may produce when it resamples the 8-bit RGBA image
/// `source` of `width` by `height` pixels with its Lanczos filter of radius 3 to
/// `new_width` by `new_height` pixels. It is a relation, not a function: the filter
/// computes in `f32` with `f32::sin`, whose precision std leaves to the platform, so the
/// same source may give different pixels on different machines.
pub uninterp spec fn lanczos3_resize_of(
    source: Seq<u8>,
    width: u32,
    height: u32,
    new_width: u32,
    new_height: u32,
    resized: Seq<u8>,
) -> bool;

/// Resizes an 8-bit RGBA image with `image::imageops::resize` and the Lanczos filter of
/// radius 3. Trusted: the result is a resampling of the given image, in the sense of
/// `lanczos3_resize_of`, and holds four bytes for each pixel of the new size, as `image`
/// allocates its buffers. The pixel values themselves are left unsaid: they need not be
/// the same on every machine.
#[verifier::external_body]
pub(crate) fn resize_lanczos3(
    pixels: &[u8],
    width: u32,
    height: u32,
    new_width: u32,
    new_height: u32,
) -> (resized: Vec<u8>)
    requires
        pixels@.len() == width * height * 4,
        new_width > 0,
        new_height > 0,
        new_width * new_height * 4 <= usize::MAX,
    ensures
        lanczos3_resize_of(pixels@, width, height, new_width, new_height, resized@),
        resized@.len() == new_width * new_height * 4,
{
    let image = image::RgbaImage::from_raw(width, height, pixels.to_vec()).unwrap();
    image::imageops::resize(&image, new_width, new_height, image::imageops::FilterType::Lanczos3)
        .into_raw()
}

/// The base64 encoding holds four characters for every three bytes or part of three.
pub proof fn lemma_base64_len(input: Seq<u8>)
    ensures
        base64_standard(input).len() == 4 * ((input.len() + 2) / 3),
    decreases input.len(),
{
    if input.len() > 2 {
        lemma_base64_len(input.skip(3));
    }
}

/// Encodes bytes as standard base64 with padding, with
/// `base64::engine::general_purpose::STANDARD`. Trusted: the result is the encoding
/// `base64_standard` spells out. The input is short enough for the length of the encoding,
/// as `base64::encoded_len` computes it, to fit in `usize`, where `encode` would
/// otherwise panic.
#[verifier::external_body]
pub(crate) fn base64_encode(input: &[u8]) -> (encoded: Vec<u8>)
    requires
        input@.len() <= usize::MAX / 2,
    ensures
        encoded@ == base64_standard(input@),
{
    base64::Engine::encode(&base64::engine::general_purpose::STANDARD, input).into_bytes()
}

/// The characters with the Unicode White_Space property, which `str::trim` removes.
pub open spec fn is_unicode_whitespace(c: char) -> bool {
    let u = c as u32;
    ||| 0x09 <= u <= 0x0d
    ||| u == 0x20
    ||| u == 0x85
    ||| u == 0xa0
    ||| u == 0x1680
    ||| 0x2000 <= u <= 0x200a
    ||| u == 0x2028
    ||| u == 0x2029
    ||| u == 0x202f
    ||| u == 0x205f
    ||| u == 0x3000
}

/// `t` is `s` without its leading and trailing White_Space characters.
pub open spec fn is_trim_of(s: Seq<char>, t: Seq<char>) -> bool {
    exists|i: int, j: int|
        0 <= i <= j <= s.len() && t == s.subrange(i, j) && (forall|k: int|
            0 <= k < i ==> is_unicode_whitespace(#[trigger] s[k])) && (forall|k: int|
            j <= k < s.len() ==> is_unicode_whitespace(#[trigger] s[k])) && (i < j
            ==> !is_unicode_whitespace(s[i]) && !is_unicode_whitespace(s[j - 1]))
}

/// Removes leading and trailing whitespace with `str::trim`. Trusted, as its
/// documentation states: the result is the part of the string between its leading and
/// its trailing White_Space characters.
#[verifier::external_body]
pub(crate) fn trim(s: &str) -> (trimmed: &str)
    ensures
        is_trim_of(s@, trimmed@),
{
    s.trim()
}

} // verus!
