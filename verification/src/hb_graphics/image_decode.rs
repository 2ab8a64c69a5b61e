//! Decoding PNG, JPEG and GIF images (chosen by their leading bytes) into
//! RGBA pixels.
use vstd::prelude::*;

verus! {

#[derive(Debug, Clone, PartialEq, Eq)]
pub struct Image {
    pub width: u32,
    pub height: u32,
    /// Four bytes per pixel, row by row.
    pub rgba: Vec<u8>,
}

#[derive(Debug, Clone, PartialEq, Eq)]
pub enum ImgError {
    Unsupported,
    Decode(String),
}

impl ImgError {
    /// The error's description.
    pub fn message(&self) -> (r: String)
        ensures
            r@ == (match self {
                ImgError::Unsupported => "unsupported format or feature not enabled"@,
                ImgError::Decode(s) => "decode error: "@ + s@,
            }),
    {
        match self {
            ImgError::Unsupported => String::from_str("unsupported format or feature not enabled"),
            ImgError::Decode(s) => {
                let mut m = String::from_str("decode error: ");
                m.append(s.as_str());
                m
            },
        }
    }
}

// ---------------------------------------------------------------------------
// The decoders, from their crates.
// ---------------------------------------------------------------------------
/// What png's decoder makes of a byte string, with palettes and low bit
/// depths expanded: the first frame's width, height, color type (as png
/// numbers it) and pixel bytes, or the error's text.
pub uninterp spec fn png_decode_spec(b: Seq<u8>) -> Result<(u32, u32, u8, Seq<u8>), Seq<char>>;

/// What jpeg-decoder makes of a byte string: the pixel bytes, and the width,
/// height and pixel format (as its position in `PixelFormat`) it reports, or
/// the error's text.
pub uninterp spec fn jpeg_decode_spec(b: Seq<u8>) -> Result<(Seq<u8>, Option<(u16, u16, u8)>), Seq<char>>;

/// What gif's decoder, set to RGBA output, makes of a byte string: the first
/// frame's RGBA bytes and the logical screen's width and height, nothing when
/// there is no frame, or the error's text.
pub uninterp spec fn gif_decode_spec(b: Seq<u8>) -> Result<Option<(Seq<u8>, u16, u16)>, Seq<char>>;

/// Runs `png::Decoder` with `Transformations::EXPAND` (`read_info`,
/// `output_buffer_size`, `next_frame`); the claim is only that the outcome is
/// the named decode of `bytes`. No input makes it panic: `read_info` refuses
/// an image whose output row length times height overflows `usize`, so
/// `output_buffer_size` does not; `next_frame` refuses a buffer shorter than
/// that size; and a frame's width and height never exceed the image's (frame
/// controls out of bounds are refused when read), so the frame's
/// `buffer_size` is within the buffer that is sliced.
#[verifier::external_body]
fn png_first_frame(bytes: &[u8]) -> (r: Result<(u32, u32, u8, Vec<u8>), String>)
    ensures
        png_decode_spec(bytes@) == match r {
            Ok(f) => Ok((f.0, f.1, f.2, f.3@)),
            Err(e) => Err(e@),
        },
{
    let mut dec = png::Decoder::new(bytes);
    dec.set_transformations(png::Transformations::EXPAND);
    let mut reader = match dec.read_info() {
        Ok(r) => r,
        Err(e) => return Err(e.to_string()),
    };
    let mut buf = vec![0; reader.output_buffer_size()];
    match reader.next_frame(&mut buf) {
        Ok(info) => Ok((info.width, info.height, info.color_type as u8, buf[..info.buffer_size()].to_vec())),
        Err(e) => Err(e.to_string()),
    }
}

/// Runs `jpeg_decoder::Decoder` (`decode`, then `info`); the claim is only
/// that the outcome is the named decode of `bytes`. Where the decoder itself
/// panics (its `info` does on a one-component lossless frame whose declared
/// precision is below 2, which the frame parser lets through), this panics
/// too; no condition on the bytes short of the decoder's own parse says
/// which inputs those are, so none is required.
#[verifier::external_body]
fn jpeg_pixels(bytes: &[u8]) -> (r: Result<(Vec<u8>, Option<(u16, u16, u8)>), String>)
    ensures
        jpeg_decode_spec(bytes@) == match r {
            Ok(p) => Ok((p.0@, p.1)),
            Err(e) => Err(e@),
        },
{
    let mut dec = jpeg_decoder::Decoder::new(bytes);
    let pixels = match dec.decode() {
        Ok(p) => p,
        Err(e) => return Err(e.to_string()),
    };
    Ok((pixels, dec.info().map(|m| (m.width, m.height, m.pixel_format as u8))))
}

/// Runs `gif::DecodeOptions` with RGBA output (`read_info`,
/// `read_next_frame`, `width`, `height`); the claim is only that the outcome
/// is the named decode of `bytes`.
#[verifier::external_body]
fn gif_first_frame(bytes: &[u8]) -> (r: Result<Option<(Vec<u8>, u16, u16)>, String>)
    ensures
        gif_decode_spec(bytes@) == match r {
            Ok(Some(f)) => Ok(Some((f.0@, f.1, f.2))),
            Ok(None) => Ok(None),
            Err(e) => Err(e@),
        },
{
    let mut opts = gif::DecodeOptions::new();
    opts.set_color_output(gif::ColorOutput::RGBA);
    let mut reader = match opts.read_info(std::io::Cursor::new(bytes)) {
        Ok(r) => r,
        Err(e) => return Err(e.to_string()),
    };
    let buf = match reader.read_next_frame() {
        Ok(Some(frame)) => frame.buffer.to_vec(),
        Ok(None) => return Ok(None),
        Err(e) => return Err(e.to_string()),
    };
    Ok(Some((buf, reader.width(), reader.height())))
}

// ---------------------------------------------------------------------------
// Pixel conversions.
// ---------------------------------------------------------------------------
/// Three bytes per pixel to four, opaque; a trailing partial pixel is dropped.
pub open spec fn rgb_to_rgba(d: Seq<u8>) -> Seq<u8> {
    Seq::new(
        (4 * (d.len() / 3)) as nat,
        |i: int| if i % 4 == 3 {
            255u8
        } else {
            d[(i / 4) * 3 + i % 4]
        },
    )
}

/// One gray byte per pixel to four, opaque.
pub open spec fn gray_to_rgba(d: Seq<u8>) -> Seq<u8> {
    Seq::new(
        (4 * d.len()) as nat,
        |i: int| if i % 4 == 3 {
            255u8
        } else {
            d[i / 4]
        },
    )
}

fn expand_rgb(d: &Vec<u8>) -> (r: Vec<u8>)
    ensures
        r@ == rgb_to_rgba(d@),
{
    let mut out: Vec<u8> = Vec::new();
    let mut k: usize = 0;
    let mut j: usize = 0;
    while 3 <= d.len() - j
        invariant
            j == 3 * k,
            j <= d@.len(),
            out@.len() == 4 * k,
            forall|i: int| 0 <= i < 4 * k ==> out@[i] == rgb_to_rgba(d@)[i],
        decreases d.len() - j,
    {
        proof {
            assert((4 * (d@.len() / 3)) >= 4 * (k + 1)) by (nonlinear_arith)
                requires
                    j == 3 * k,
                    j + 3 <= d@.len(),
            ;
        }
        out.push(d[j]);
        out.push(d[j + 1]);
        out.push(d[j + 2]);
        out.push(255);
        k = k + 1;
        j = j + 3;
    }
    proof {
        assert(k == d@.len() / 3) by (nonlinear_arith)
            requires
                j == 3 * k,
                j <= d@.len(),
                j + 3 > d@.len(),
        ;
    }
    assert(out@ =~= rgb_to_rgba(d@));
    out
}

fn expand_gray(d: &Vec<u8>) -> (r: Vec<u8>)
    ensures
        r@ == gray_to_rgba(d@),
{
    let mut out: Vec<u8> = Vec::new();
    let mut k: usize = 0;
    while k < d.len()
        invariant
            k <= d@.len(),
            out@.len() == 4 * k,
            forall|i: int| 0 <= i < 4 * k ==> out@[i] == gray_to_rgba(d@)[i],
        decreases d.len() - k,
    {
        let g = d[k];
        out.push(g);
        out.push(g);
        out.push(g);
        out.push(255);
        k = k + 1;
    }
    assert(out@ =~= gray_to_rgba(d@));
    out
}

/// The decode error with the given text.
pub open spec fn decode_err(r: Result<Image, ImgError>, m: Seq<char>) -> bool {
    r matches Err(ImgError::Decode(s)) && s@ == m
}

pub open spec fn image_is(r: Result<Image, ImgError>, w: u32, h: u32, px: Seq<u8>) -> bool {
    r matches Ok(img) && img.width == w && img.height == h && img.rgba@ == px
}

/// RGBA kept, RGB and gray made opaque RGBA, every other color type an error.
pub open spec fn png_frame_outcome(w: u32, h: u32, color: u8, d: Seq<u8>, r: Result<Image, ImgError>) -> bool {
    if color == 6 {
        image_is(r, w, h, d)
    } else if color == 2 {
        image_is(r, w, h, rgb_to_rgba(d))
    } else if color == 0 {
        image_is(r, w, h, gray_to_rgba(d))
    } else if color == 3 {
        decode_err(r, "indexed PNG without expansion"@)
    } else {
        decode_err(r, "unsupported PNG color type"@)
    }
}

/// Gray and RGB made opaque RGBA, every other pixel format an error, and
/// missing image information an error.
pub open spec fn jpeg_outcome(pixels: Seq<u8>, info: Option<(u16, u16, u8)>, r: Result<Image, ImgError>) -> bool {
    match info {
        None => decode_err(r, "no jpeg info"@),
        Some((w, h, f)) => if f == 0 {
            image_is(r, w as u32, h as u32, gray_to_rgba(pixels))
        } else if f == 2 {
            image_is(r, w as u32, h as u32, rgb_to_rgba(pixels))
        } else {
            decode_err(r, "unsupported JPEG pixel format"@)
        },
    }
}

/// The first frame as it is; no frame is an error.
pub open spec fn gif_outcome(frame: Option<(Seq<u8>, u16, u16)>, r: Result<Image, ImgError>) -> bool {
    match frame {
        None => decode_err(r, "empty GIF"@),
        Some(f) => image_is(r, f.1 as u32, f.2 as u32, f.0),
    }
}

/// The image of a decoded PNG frame.
pub fn image_from_png_frame(width: u32, height: u32, color: u8, data: Vec<u8>) -> (r: Result<Image, ImgError>)
    ensures
        png_frame_outcome(width, height, color, data@, r),
{
    if color == 6 {
        Ok(Image { width, height, rgba: data })
    } else if color == 2 {
        Ok(Image { width, height, rgba: expand_rgb(&data) })
    } else if color == 0 {
        Ok(Image { width, height, rgba: expand_gray(&data) })
    } else if color == 3 {
        Err(ImgError::Decode(String::from_str("indexed PNG without expansion")))
    } else {
        Err(ImgError::Decode(String::from_str("unsupported PNG color type")))
    }
}

/// The image of decoded JPEG pixels.
pub fn image_from_jpeg(pixels: Vec<u8>, info: Option<(u16, u16, u8)>) -> (r: Result<Image, ImgError>)
    ensures
        jpeg_outcome(pixels@, info, r),
{
    match info {
        None => Err(ImgError::Decode(String::from_str("no jpeg info"))),
        Some((w, h, f)) => {
            if f == 0 {
                Ok(Image { width: w as u32, height: h as u32, rgba: expand_gray(&pixels) })
            } else if f == 2 {
                Ok(Image { width: w as u32, height: h as u32, rgba: expand_rgb(&pixels) })
            } else {
                Err(ImgError::Decode(String::from_str("unsupported JPEG pixel format")))
            }
        },
    }
}

pub open spec fn gif_frame_view(frame: Option<(Vec<u8>, u16, u16)>) -> Option<(Seq<u8>, u16, u16)> {
    match frame {
        None => None,
        Some(f) => Some((f.0@, f.1, f.2)),
    }
}

/// The image of a GIF's first frame.
pub fn image_from_gif(frame: Option<(Vec<u8>, u16, u16)>) -> (r: Result<Image, ImgError>)
    ensures
        gif_outcome(gif_frame_view(frame), r),
{
    match frame {
        None => Err(ImgError::Decode(String::from_str("empty GIF"))),
        Some((buf, w, h)) => Ok(Image { width: w as u32, height: h as u32, rgba: buf }),
    }
}

fn decode_png(bytes: &[u8]) -> (r: Result<Image, ImgError>)
    ensures
        match png_decode_spec(bytes@) {
            Err(m) => decode_err(r, m),
            Ok(f) => png_frame_outcome(f.0, f.1, f.2, f.3, r),
        },
{
    match png_first_frame(bytes) {
        Err(e) => Err(ImgError::Decode(e)),
        Ok((w, h, c, data)) => image_from_png_frame(w, h, c, data),
    }
}

fn decode_jpeg(bytes: &[u8]) -> (r: Result<Image, ImgError>)
    ensures
        match jpeg_decode_spec(bytes@) {
            Err(m) => decode_err(r, m),
            Ok(p) => jpeg_outcome(p.0, p.1, r),
        },
{
    match jpeg_pixels(bytes) {
        Err(e) => Err(ImgError::Decode(e)),
        Ok((pixels, info)) => image_from_jpeg(pixels, info),
    }
}

fn decode_gif(bytes: &[u8]) -> (r: Result<Image, ImgError>)
    ensures
        match gif_decode_spec(bytes@) {
            Err(m) => decode_err(r, m),
            Ok(f) => gif_outcome(f, r),
        },
{
    match gif_first_frame(bytes) {
        Err(e) => Err(ImgError::Decode(e)),
        Ok(frame) => image_from_gif(frame),
    }
}

pub open spec fn png_signature() -> Seq<u8> {
    seq![0x89u8, 0x50, 0x4E, 0x47, 0x0D, 0x0A, 0x1A, 0x0A]
}

pub open spec fn gif87_signature() -> Seq<u8> {
    seq![0x47u8, 0x49, 0x46, 0x38, 0x37, 0x61]
}

pub open spec fn gif89_signature() -> Seq<u8> {
    seq![0x47u8, 0x49, 0x46, 0x38, 0x39, 0x61]
}

pub open spec fn is_png(b: Seq<u8>) -> bool {
    b.len() >= 8 && b.subrange(0, 8) == png_signature()
}

pub open spec fn is_jpeg(b: Seq<u8>) -> bool {
    b.len() >= 2 && b[0] == 0xFF && b[1] == 0xD8
}

pub open spec fn is_gif(b: Seq<u8>) -> bool {
    b.len() >= 6 && (b.subrange(0, 6) == gif87_signature() || b.subrange(0, 6) == gif89_signature())
}

/// The outcome of a decoder's run: its error text as a decode error, or the
/// image made of what it decoded.
pub open spec fn decoded_with(b: Seq<u8>, kind: u8, r: Result<Image, ImgError>) -> bool {
    if kind == 0 {
        match png_decode_spec(b) {
            Err(m) => decode_err(r, m),
            Ok(f) => png_frame_outcome(f.0, f.1, f.2, f.3, r),
        }
    } else if kind == 1 {
        match jpeg_decode_spec(b) {
            Err(m) => decode_err(r, m),
            Ok(p) => jpeg_outcome(p.0, p.1, r),
        }
    } else {
        match gif_decode_spec(b) {
            Err(m) => decode_err(r, m),
            Ok(f) => gif_outcome(f, r),
        }
    }
}

fn starts_with_bytes(b: &[u8], sig: &[u8]) -> (r: bool)
    ensures
        r == (b@.len() >= sig@.len() && b@.subrange(0, sig@.len() as int) == sig@),
{
    if b.len() < sig.len() {
        return false;
    }
    let mut k: usize = 0;
    while k < sig.len()
        invariant
            sig@.len() <= b@.len(),
            k <= sig@.len(),
            forall|m: int| 0 <= m < k ==> b@[m] == sig@[m],
        decreases sig.len() - k,
    {
        if b[k] != sig[k] {
            assert(b@.subrange(0, sig@.len() as int)[k as int] != sig@[k as int]);
            return false;
        }
        k = k + 1;
    }
    assert(b@.subrange(0, sig@.len() as int) =~= sig@);
    true
}

/// Decodes an image, choosing the format by its signature: PNG, then JPEG
/// (`FF D8`), then GIF (`GIF87a` or `GIF89a`); anything else is unsupported.
pub fn decode(bytes: &[u8]) -> (r: Result<Image, ImgError>)
    ensures
        if is_png(bytes@) {
            decoded_with(bytes@, 0, r)
        } else if is_jpeg(bytes@) {
            decoded_with(bytes@, 1, r)
        } else if is_gif(bytes@) {
            decoded_with(bytes@, 2, r)
        } else {
            r == Err::<Image, ImgError>(ImgError::Unsupported)
        },
{
    let png_sig: [u8; 8] = [0x89, 0x50, 0x4E, 0x47, 0x0D, 0x0A, 0x1A, 0x0A];
    let gif87: [u8; 6] = [0x47, 0x49, 0x46, 0x38, 0x37, 0x61];
    let gif89: [u8; 6] = [0x47, 0x49, 0x46, 0x38, 0x39, 0x61];
    assert(png_sig@ =~= png_signature());
    assert(gif87@ =~= gif87_signature());
    assert(gif89@ =~= gif89_signature());
    if starts_with_bytes(bytes, &png_sig) {
        return decode_png(bytes);
    }
    if bytes.len() >= 2 && bytes[0] == 0xFF && bytes[1] == 0xD8 {
        return decode_jpeg(bytes);
    }
    if starts_with_bytes(bytes, &gif87) || starts_with_bytes(bytes, &gif89) {
        return decode_gif(bytes);
    }
    Err(ImgError::Unsupported)
}

} // verus!
