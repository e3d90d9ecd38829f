//! PCX images (version 3.0), decoded by the `pcx` crate into RGB buffers.
use vstd::prelude::*;
use crate::img::pixels::{PxBufSized, height_of};
use crate::img::pixels::format::RGB;
use crate::res::node::Node;
use crate::utils::{ByteStream, ReadError, bytes_up_to};

verus! {

/// The header of the PCX image `data`: width, height and whether it is paletted;
/// `None` where the data do not start with a valid header.
pub uninterp spec fn pcx_header(data: Seq<u8>) -> Option<(u16, u16, bool)>;

/// The pixels of the PCX image `data`, three bytes (red, green, blue) per pixel, row by
/// row from the top; a paletted image has each index replaced by the three bytes of its
/// colour in the palette. `None` where the image cannot be decoded.
pub uninterp spec fn pcx_rgb(data: Seq<u8>) -> Option<Seq<u8>>;

/// `pcx::Reader::from_mem` on `data`, then its `width`, `height` and `is_paletted`:
/// the dimensions (each at least 1, as the header is checked for) and whether the image
/// is paletted, or an error where the header cannot be read or is not valid. Which
/// error is not stated.
#[verifier::external_body]
fn pcx_open(data: &[u8]) -> (r: Result<(u16, u16, bool), ReadError>)
    ensures
        match r {
            Ok((w, h, p)) => pcx_header(data@) == Some((w, h, p)) && w >= 1 && h >= 1,
            Err(_) => pcx_header(data@) is None,
        },
{
    match pcx::Reader::from_mem(data) {
        Ok(reader) => Ok((reader.width(), reader.height(), reader.is_paletted())),
        Err(e) if e.kind() == std::io::ErrorKind::UnexpectedEof => Err(ReadError::UnexpectedEof),
        Err(_) => Err(ReadError::InvalidData),
    }
}

/// `pcx::Reader::from_mem` on `data`, then `read_rgb_pixels` into a zeroed buffer of
/// `len` bytes, three per pixel: the RGB pixels, a function of `data` alone, or an
/// error where they cannot be decoded. Which error is not stated.
#[verifier::external_body]
fn pcx_rgb_pixels(data: &[u8], len: usize) -> (r: Result<Vec<u8>, ReadError>)
    requires
        pcx_header(data@) matches Some((w, h, _)) && len == w * h * 3,
    ensures
        match r {
            Ok(v) => pcx_rgb(data@) == Some(v@) && v@.len() == len,
            Err(_) => pcx_rgb(data@) is None,
        },
{
    let mut rgb = vec![0u8; len];
    let outcome = match pcx::Reader::from_mem(data) {
        Ok(mut reader) => reader.read_rgb_pixels(&mut rgb),
        Err(e) => Err(e),
    };
    match outcome {
        Ok(()) => Ok(rgb),
        Err(e) if e.kind() == std::io::ErrorKind::UnexpectedEof => Err(ReadError::UnexpectedEof),
        Err(_) => Err(ReadError::InvalidData),
    }
}

/// The bytes of the image of `node` in the data `d`: those from its offset on, at most
/// its size of them.
pub open spec fn pcx_bytes(node: Node, d: Seq<u8>) -> Seq<u8> {
    bytes_up_to(d, node.offset as int, node.size as int)
}

/// Returns __RGB__-buffer with size: the pixels of the PCX image of `node`, three bytes
/// per pixel, with its width and height. An error where the image cannot be decoded;
/// `None` where its number of bytes, `width * height * 3`, overflows 32 bits.
pub fn read_as_pcx(node: &Node, from: &mut ByteStream) -> (r: Option<
    Result<PxBufSized<RGB, u8>, ReadError>,
>)
    ensures
        final(from).spec_data() == old(from).spec_data(),
        ({
            let bytes = pcx_bytes(*node, old(from).spec_data());
            match pcx_header(bytes) {
                None => r matches Some(Err(_)),
                Some((w, h, _)) => if w * h * 3 > u32::MAX {
                    r is None
                } else {
                    match pcx_rgb(bytes) {
                        None => r matches Some(Err(_)),
                        Some(px) => r matches Some(Ok(buf)) && buf@ == px && buf.spec_dims() == [
                            w as u32,
                            h as u32,
                        ],
                    }
                },
            }
        }),
{
    from.seek(node.offset as u64);
    let data = from.read_up_to(node.size as usize);
    let (w, h, _paletted) = match pcx_open(data) {
        Ok(header) => header,
        Err(e) => return Some(Err(e)),
    };
    let (width, height) = (w as u32, h as u32);
    let size = match width.checked_mul(height) {
        Some(n) => match n.checked_mul(3) {
            Some(s) => s,
            None => return None,
        },
        None => return None,
    };
    let buffer = match pcx_rgb_pixels(data, size as usize) {
        Ok(rgb) => rgb,
        Err(e) => return Some(Err(e)),
    };
    proof {
        let wi = width as int;
        let hi = height as int;
        assert(((wi * hi * 3) / wi) / 3 == hi) by (nonlinear_arith)
            requires
                wi >= 1,
                hi >= 0,
        ;
    }
    Some(Ok(PxBufSized::new(buffer, width, height)))
}

} // verus!
