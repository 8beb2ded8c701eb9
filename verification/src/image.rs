use vstd::prelude::*;

use crate::error::DecodeError;
use crate::png::frame::{check_inflated, inflation_succeeded, zlib_decoded, zlib_read_to_end};

verus! {

/// A PNG image's header fields held together with its image data.
pub struct PngImage {
    pub width: u32,
    pub height: u32,
    pub bit_depth: u32,
    pub color_type: u32,
    pub compression_method: u32,
    pub filter_method: u32,
    pub interlace_method: u32,
    pub data: Vec<u8>,
}

/// Inflates zlib-compressed image data.
pub fn inflate_bytes(data: &[u8]) -> (r: Result<Vec<u8>, DecodeError>)
    ensures
        r is Ok <==> inflation_succeeded(zlib_decoded(data@)),
        r matches Ok(v) ==> zlib_decoded(data@) == Some(v@),
        r matches Err(e) ==> e == DecodeError::CouldNotDecode,
{
    let decoded = zlib_read_to_end(data);
    check_inflated(decoded)
}

} // verus!
