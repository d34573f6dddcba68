//! The image container boundary: decoding a PNG byte stream into a pixel
//! buffer and encoding a buffer back into a byte stream, through the png
//! crate. The verified code validates everything the decoder hands back.

use vstd::prelude::*;
use crate::image::Image;

verus! {

/// One decoded frame as the decoder reports it: dimensions, whether the
/// samples are 8-bit RGBA, and the raw sample bytes.
pub struct Frame {
    pub width: u32,
    pub height: u32,
    pub rgba: bool,
    pub data: Vec<u8>,
}

/// Why a byte stream could not become a pixel buffer, or a buffer not
/// become a byte stream.
#[derive(Debug, Clone, Copy, PartialEq, Eq, Structural)]
pub enum CodecError {
    /// The byte stream could not be decoded as an image at all.
    Decode,
    /// The decoded image is not 8-bit RGBA with positive dimensions and
    /// four bytes per pixel.
    Format,
    /// The buffer could not be encoded.
    Encode,
}

/// What the png decoder yields for a byte stream, when it accepts one: the
/// frame's width and height, whether its samples are 8-bit RGBA, and the
/// sample bytes. Decoding depends on the byte stream alone.
pub uninterp spec fn decoded_png(bytes: Seq<u8>) -> Option<(u32, u32, bool, Seq<u8>)>;

/// The PNG byte stream the png encoder produces for an RGBA, 8-bit-depth
/// frame with the given dimensions and sample bytes. Encoding depends on
/// the dimensions and samples alone.
pub uninterp spec fn png_encoding(w: u32, h: u32, data: Seq<u8>) -> Seq<u8>;

/// The decoded frame is 8-bit RGBA with positive dimensions and exactly
/// four bytes per pixel: what a pixel buffer can be built from.
pub open spec fn valid_frame(d: (u32, u32, bool, Seq<u8>)) -> bool {
    d.2 && d.0 > 0 && d.1 > 0 && d.3.len() == d.0 as int * d.1 as int * 4
}

/// Relies on png::Decoder, png::Reader::next_frame and png::OutputInfo to
/// decode a PNG byte stream into one frame of 8-bit samples and to report
/// that frame's width, height, color type and bit depth. The result is a
/// function of the byte stream alone, here named `decoded_png`; every entry
/// point returns an error rather than panicking on malformed input.
#[verifier::external_body]
fn decode_frame(bytes: &Vec<u8>) -> (r: Option<Frame>)
    ensures
        r is Some <==> decoded_png(bytes@) is Some,
        r is Some ==> r->Some_0.width == decoded_png(bytes@)->Some_0.0,
        r is Some ==> r->Some_0.height == decoded_png(bytes@)->Some_0.1,
        r is Some ==> r->Some_0.rgba == decoded_png(bytes@)->Some_0.2,
        r is Some ==> r->Some_0.data@ == decoded_png(bytes@)->Some_0.3,
{
    let mut decoder = png::Decoder::new(std::io::Cursor::new(bytes.as_slice()));
    decoder.set_transformations(png::Transformations::normalize_to_color8());
    let mut reader = decoder.read_info().ok()?;
    let size = reader.output_buffer_size()?;
    let mut data = vec![0u8; size];
    let info = reader.next_frame(&mut data).ok()?;
    let rgba = info.color_type == png::ColorType::Rgba && info.bit_depth == png::BitDepth::Eight;
    Some(Frame { width: info.width, height: info.height, rgba, data })
}

/// Relies on png::Encoder::new, png::Writer::write_header,
/// write_image_data and finish: for a four-bytes-per-pixel buffer the
/// encoder accepts exactly the frames with nonzero width and height (the
/// header rejects a zero dimension; writing into a Vec cannot fail, and the
/// image data is split below the chunk-length cap), and the bytes produced
/// are a function of the dimensions and samples alone, here named
/// `png_encoding`.
#[verifier::external_body]
fn encode_frame(img: &Image) -> (r: Option<Vec<u8>>)
    requires
        img.wf(),
    ensures
        img.width > 0 && img.height > 0 ==> r is Some,
        r is Some ==> img.width > 0 && img.height > 0,
        r is Some ==> r->Some_0@ == png_encoding(img.width, img.height, img.data@),
{
    let mut out: Vec<u8> = Vec::new();
    let mut encoder = png::Encoder::new(&mut out, img.width, img.height);
    encoder.set_color(png::ColorType::Rgba);
    encoder.set_depth(png::BitDepth::Eight);
    let mut writer = encoder.write_header().ok()?;
    writer.write_image_data(&img.data).ok()?;
    writer.finish().ok()?;
    Some(out)
}

/// Decodes a PNG byte stream into a pixel buffer. Succeeds exactly when
/// the decoder accepts the stream and its frame is 8-bit RGBA with
/// positive dimensions and four bytes per pixel; the buffer returned is
/// that frame, well-formed. An undecodable stream is a decode error, an
/// accepted frame of any other shape a format error.
pub fn decode_rgba(bytes: &Vec<u8>) -> (r: Result<Image, CodecError>)
    ensures
        r is Ok <==> decoded_png(bytes@) is Some && valid_frame(decoded_png(bytes@)->Some_0),
        r is Ok ==> r->Ok_0.wf() && r->Ok_0.width > 0 && r->Ok_0.height > 0,
        r is Ok ==> r->Ok_0.width == decoded_png(bytes@)->Some_0.0 && r->Ok_0.height
            == decoded_png(bytes@)->Some_0.1 && r->Ok_0.data@ == decoded_png(bytes@)->Some_0.3,
        decoded_png(bytes@) is None ==> r == Err::<Image, CodecError>(CodecError::Decode),
        decoded_png(bytes@) is Some && !valid_frame(decoded_png(bytes@)->Some_0) ==> r
            == Err::<Image, CodecError>(CodecError::Format),
{
    match decode_frame(bytes) {
        None => Err(CodecError::Decode),
        Some(f) => {
            if !f.rgba || f.width == 0 || f.height == 0 {
                return Err(CodecError::Format);
            }
            proof {
                let wi = f.width as int;
                let hi = f.height as int;
                assert(wi * hi * 4 < u128::MAX) by (nonlinear_arith)
                    requires
                        0 <= wi < 0x1_0000_0000,
                        0 <= hi < 0x1_0000_0000,
                {}
            }
            let expect: u128 = (f.width as u128) * (f.height as u128) * 4;
            if (f.data.len() as u128) != expect {
                return Err(CodecError::Format);
            }
            Ok(Image { data: f.data, width: f.width, height: f.height })
        },
    }
}

/// Encodes a well-formed pixel buffer as a PNG byte stream. Succeeds
/// exactly when both dimensions are nonzero, and then returns the encoding
/// of this buffer.
pub fn encode_rgba(img: &Image) -> (r: Result<Vec<u8>, CodecError>)
    requires
        img.wf(),
    ensures
        r is Ok <==> img.width > 0 && img.height > 0,
        r is Ok ==> r->Ok_0@ == png_encoding(img.width, img.height, img.data@),
        r is Err ==> r->Err_0 == CodecError::Encode,
{
    match encode_frame(img) {
        Some(b) => Ok(b),
        None => Err(CodecError::Encode),
    }
}

} // verus!
