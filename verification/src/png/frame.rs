use vstd::prelude::*;
use vstd::slice::slice_to_vec;

use crate::chunk::Chunk;
use crate::error::DecodeError;
use crate::utils::{big_endian_u32, combine_bytes};

verus! {

const DIMENSION_OFFSET: usize = 4;

/// The fields of a PNG header (`IHDR`) chunk.
#[derive(Debug, Default)]
pub struct PngImageMetadata {
    pub width: u32,
    pub height: u32,
    pub bit_depth: u8,
    pub color_type: u8,
    pub compression_method: u8,
    pub filter_method: u8,
    pub interlace_method: u8,
}

/// A decoded PNG image: its header fields and its pixel bytes.
#[derive(Debug)]
pub struct PngImage {
    pub metadata: PngImageMetadata,
    pub data: Vec<u8>,
}

/// The type of the header chunk.
pub open spec fn ihdr_type() -> Seq<char> {
    seq!['I', 'H', 'D', 'R']
}

impl PngImageMetadata {
    /// Reads the header fields from the data of an `IHDR` chunk: width and
    /// height as big-endian 32-bit integers, then five single-byte fields.
    pub fn new(header_chunk: &Chunk) -> (r: Self)
        requires
            header_chunk.data_type@ == ihdr_type(),
            header_chunk.data@.len() >= 13,
        ensures
            r.width == big_endian_u32(header_chunk.data@.subrange(0, 4)),
            r.height == big_endian_u32(header_chunk.data@.subrange(4, 8)),
            r.bit_depth == header_chunk.data@[8],
            r.color_type == header_chunk.data@[9],
            r.compression_method == header_chunk.data@[10],
            r.filter_method == header_chunk.data@[11],
            r.interlace_method == header_chunk.data@[12],
    {
        let data = header_chunk.data.as_slice();
        let png_image_meta = PngImageMetadata {
            width: combine_bytes(&data[0..DIMENSION_OFFSET]),
            height: combine_bytes(&data[DIMENSION_OFFSET..2 * DIMENSION_OFFSET]),
            bit_depth: data[2 * DIMENSION_OFFSET],
            color_type: data[2 * DIMENSION_OFFSET + 1],
            compression_method: data[2 * DIMENSION_OFFSET + 2],
            filter_method: data[2 * DIMENSION_OFFSET + 3],
            interlace_method: data[2 * DIMENSION_OFFSET + 4],
        };
        png_image_meta
    }
}

impl PngImage {
    /// Holds the header fields together with a copy of the pixel bytes.
    pub fn new(meta: PngImageMetadata, data: &[u8]) -> (r: Self)
        ensures
            r.metadata == meta,
            r.data@ == data@,
    {
        let png_image = PngImage { metadata: meta, data: slice_to_vec(data) };
        png_image
    }
}

/// What flate2's `ZlibDecoder`, read to its end, makes of `data`: the
/// decompressed bytes, or `None` where reading fails.
pub uninterp spec fn zlib_decoded(data: Seq<u8>) -> Option<Seq<u8>>;

/// Wraps `flate2::read::ZlibDecoder::new` and `std::io::Read::read_to_end`
/// on it: the bytes decompressed from `data` into an empty buffer, or `None`
/// where reading returns an error. The contract names the outcome
/// (`zlib_decoded`) and says nothing of what it is on given data.
#[verifier::external_body]
pub(crate) fn zlib_read_to_end(data: &[u8]) -> (r: Option<Vec<u8>>)
    ensures
        r is None <==> zlib_decoded(data@) is None,
        r matches Some(v) ==> zlib_decoded(data@) == Some(v@),
{
    let mut buffer: Vec<u8> = Vec::new();
    let mut decoder = flate2::read::ZlibDecoder::new(data);
    match std::io::Read::read_to_end(&mut decoder, &mut buffer) {
        Ok(_) => Some(buffer),
        Err(_) => None,
    }
}

/// Whether an inflation outcome counts as decoded: reading succeeded and
/// produced at least one byte.
pub open spec fn inflation_succeeded(decoded: Option<Seq<u8>>) -> bool {
    decoded matches Some(v) && v.len() > 0
}

/// Turns the outcome of reading a zlib stream into the decoded bytes, refusing
/// a failed read and a read that produced no bytes.
pub fn check_inflated(decoded: Option<Vec<u8>>) -> (r: Result<Vec<u8>, DecodeError>)
    ensures
        r is Ok <==> (decoded matches Some(d) && d@.len() > 0),
        r matches Ok(v) ==> decoded matches Some(d) && v@ == d@,
        r matches Err(e) ==> e == DecodeError::CouldNotDecode,
{
    match decoded {
        Some(buffer) => {
            if buffer.len() == 0 {
                Err(DecodeError::CouldNotDecode)
            } else {
                Ok(buffer)
            }
        },
        None => Err(DecodeError::CouldNotDecode),
    }
}

/// Inflates zlib-compressed image data.
pub fn inflate_bytes(data: &[u8]) -> (r: Result<Vec<u8>, DecodeError>)
    ensures
        r is Ok <==> inflation_succeeded(zlib_decoded(data@)),
        r matches Ok(v) ==> zlib_decoded(data@) == Some(v@),
        r matches Err(e) ==> e == DecodeError::CouldNotDecode,
{
    let decoded = zlib_read_to_end(data);
    check_inflated(decoded)
}

} // verus!
