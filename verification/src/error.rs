use vstd::prelude::*;

verus! {

/// The ways in which decoding an image can be refused.
#[derive(Debug, PartialEq, Eq, Structural, Clone, Copy)]
pub enum DecodeError {
    /// The input does not start with the PNG signature.
    NotAPngFile,
    /// A scanline names a filter type other than 0 to 4.
    InvalidFilterType,
    /// The compressed image data could not be inflated into any bytes.
    CouldNotDecode,
}

impl DecodeError {
    /// The human-readable description of the error.
    pub fn message(&self) -> (r: &'static str)
        ensures
            *self == DecodeError::NotAPngFile ==> r@ == "Not a PNG file"@,
            *self == DecodeError::InvalidFilterType ==> r@ == "Invalid filter type"@,
            *self == DecodeError::CouldNotDecode ==> r@ == "Could not decode file"@,
    {
        match self {
            DecodeError::NotAPngFile => "Not a PNG file",
            DecodeError::InvalidFilterType => "Invalid filter type",
            DecodeError::CouldNotDecode => "Could not decode file",
        }
    }
}

} // verus!
