use base64::Engine;
use image::ImageEncoder;
use vstd::arithmetic::div_mod::{lemma_fundamental_div_mod, lemma_mod_bound};
use vstd::prelude::*;

verus! {

/// Why a page could not be turned into a result.
#[derive(Clone, Copy, Debug, PartialEq, Eq, Structural)]
pub enum RenderError {
    /// The requested page index is not below the document's page count.
    PageOutOfRange,
    /// The pixel buffer's length is not `width · height · 4`.
    InvalidImage,
    /// The page or bitmap dimensions are zero or out of range.
    InvalidGeometry,
    /// The image encoder rejected the image.
    EncodeFailed,
}

/// An RGBA pixel buffer, four bytes per pixel, rows top to bottom.
pub struct PixelImage {
    pub width: u32,
    pub height: u32,
    pub pixels: Vec<u8>,
}

impl PixelImage {
    /// The buffer holds exactly four bytes for each pixel.
    pub open spec fn wf(&self) -> bool {
        self.pixels@.len() == self.width * self.height * 4
    }
}

/// The buffer with channels 0 and 2 of every four-byte pixel exchanged
/// (BGRA to RGBA, and back).
pub open spec fn swap_red_blue_spec(s: Seq<u8>) -> Seq<u8> {
    Seq::new(
        s.len(),
        |i: int|
            if i % 4 == 0 {
                s[i + 2]
            } else if i % 4 == 2 {
                s[i - 2]
            } else {
                s[i]
            },
    )
}

/// Reorders a BGRA buffer of `width × height` pixels into RGBA. The buffer
/// must hold exactly `width · height · 4` bytes, or the image is invalid.
pub fn bgra_to_rgba(width: u32, height: u32, bgra: &Vec<u8>) -> (r: Result<PixelImage, RenderError>)
    ensures
        r is Ok <==> bgra@.len() == width * height * 4,
        r is Err ==> r == Err::<PixelImage, RenderError>(RenderError::InvalidImage),
        r matches Ok(img) ==> {
            &&& img.wf()
            &&& img.width == width
            &&& img.height == height
            &&& img.pixels@ == swap_red_blue_spec(bgra@)
        },
{
    let len = bgra.len();
    proof {
        assert(width * height <= 0xffff_ffff * 0xffff_ffff) by (nonlinear_arith)
            requires
                width <= 0xffff_ffff,
                height <= 0xffff_ffff,
        ;
    }
    if len % 4 != 0 || (len / 4) as u64 != width as u64 * height as u64 {
        proof {
            assert(bgra@.len() != width * height * 4) by (nonlinear_arith)
                requires
                    len % 4 != 0 || (len / 4) != width * height,
                    len == bgra@.len(),
            ;
        }
        return Err(RenderError::InvalidImage);
    }
    let n = len / 4;
    let mut out: Vec<u8> = Vec::with_capacity(len);
    let mut p: usize = 0;
    while p < n
        invariant
            n * 4 == len,
            len == bgra@.len(),
            p <= n,
            out@.len() == 4 * p,
            forall|j: int| 0 <= j < 4 * p ==> out@[j] == #[trigger] swap_red_blue_spec(bgra@)[j],
        decreases n - p,
    {
        let k = 4 * p;
        out.push(bgra[k + 2]);
        out.push(bgra[k + 1]);
        out.push(bgra[k]);
        out.push(bgra[k + 3]);
        proof {
            assert forall|j: int| 0 <= j < 4 * (p + 1) implies out@[j] == #[trigger] swap_red_blue_spec(
                bgra@,
            )[j] by {
                if j >= 4 * p {
                    assert(j % 4 == j - 4 * p);
                }
            }
        }
        p = p + 1;
    }
    proof {
        assert(out@ =~= swap_red_blue_spec(bgra@));
    }
    Ok(PixelImage { width, height, pixels: out })
}

/// The PNG byte stream that the image encoder writes for an 8-bit RGBA
/// buffer of the given size.
pub uninterp spec fn png_rgba8(pixels: Seq<u8>, width: u32, height: u32) -> Seq<u8>;

/// The standard-alphabet, padded base64 text of a byte sequence.
pub uninterp spec fn base64_standard(bytes: Seq<u8>) -> Seq<char>;

#[verifier::external_type_specification]
#[verifier::external_body]
pub struct ExImageError(image::ImageError);

/// Relies on image's `PngEncoder::write_image` with `ExtendedColorType::Rgba8`
/// into a `Vec<u8>`: on success the vector holds the encoded PNG stream. It
/// panics unless the buffer holds `width · height · 4` bytes; the png
/// writer refuses only a zero width or height, and writing into a vector
/// cannot fail.
#[verifier::external_body]
fn encode_png_rgba8(pixels: &Vec<u8>, width: u32, height: u32) -> (r: Result<
    Vec<u8>,
    image::ImageError,
>)
    requires
        pixels@.len() == width * height * 4,
    ensures
        r is Ok <==> (width > 0 && height > 0),
        r matches Ok(png) ==> png@ == png_rgba8(pixels@, width, height),
{
    let mut png = Vec::new();
    let encoder = image::codecs::png::PngEncoder::new(&mut png);
    match encoder.write_image(pixels, width, height, image::ExtendedColorType::Rgba8) {
        Ok(()) => Ok(png),
        Err(e) => Err(e),
    }
}

/// Relies on base64's `STANDARD` engine `encode`: the padded standard
/// base64 text of the bytes, four characters for each started group of
/// three bytes. It panics when that length overflows `usize`.
#[verifier::external_body]
fn encode_base64(bytes: &Vec<u8>) -> (r: String)
    requires
        4 * ((bytes@.len() + 2) / 3) <= usize::MAX,
    ensures
        r@ == base64_standard(bytes@),
        r@.len() == 4 * ((bytes@.len() + 2) / 3),
{
    base64::engine::general_purpose::STANDARD.encode(bytes)
}

/// The media-type marker put before the encoded image.
pub open spec fn png_data_prefix() -> Seq<char> {
    "data:image/png;base64,"@
}

/// The transportable text of an RGBA buffer: the marker, then the base64
/// text of its PNG stream.
pub open spec fn png_data_url_of(pixels: Seq<u8>, width: u32, height: u32) -> Seq<char> {
    png_data_prefix() + base64_standard(png_rgba8(pixels, width, height))
}

/// The transportable text of an image.
pub open spec fn png_data_url_spec(img: PixelImage) -> Seq<char> {
    png_data_url_of(img.pixels@, img.width, img.height)
}

/// Encodes an image losslessly as PNG and wraps it as a data URL
/// (`data:image/png;base64,` followed by the base64 text).
pub fn encode_png_data_url(img: &PixelImage) -> (r: Result<String, RenderError>)
    requires
        img.wf(),
    ensures
        r matches Ok(s) ==> s@ == png_data_url_spec(*img),
        r is Err ==> r == Err::<String, RenderError>(RenderError::EncodeFailed),
        img.width > 0 && img.height > 0 && png_rgba8(img.pixels@, img.width, img.height).len()
            < usize::MAX / 2 ==> r is Ok,
{
    let png = match encode_png_rgba8(&img.pixels, img.width, img.height) {
        Ok(png) => png,
        Err(_) => {
            return Err(RenderError::EncodeFailed);
        },
    };
    if png.len() >= usize::MAX / 2 {
        return Err(RenderError::EncodeFailed);
    }
    proof {
        let n = png@.len() as int;
        let q = (n + 2) / 3;
        lemma_fundamental_div_mod(n + 2, 3);
        lemma_mod_bound(n + 2, 3);
        lemma_fundamental_div_mod(usize::MAX as int, 2);
        assert(4 * q <= usize::MAX) by (nonlinear_arith)
            requires
                3 * q <= n + 2,
                n < usize::MAX / 2,
                2 * (usize::MAX / 2) <= usize::MAX,
                usize::MAX >= 12,
        ;
    }
    let text = encode_base64(&png);
    let mut url = String::from_str("data:image/png;base64,");
    url.append(text.as_str());
    Ok(url)
}

} // verus!
