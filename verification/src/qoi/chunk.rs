use vstd::prelude::*;

verus! {

/// The byte stream marker that ends a QOI file.
pub const QOI_PADDING: [u8; 8] = [0, 0, 0, 0, 0, 0, 0, 1];

pub const R_OFFSET: usize = 0;

pub const G_OFFSET: usize = 1;

pub const B_OFFSET: usize = 2;

pub const A_OFFSET: usize = 3;

/// Tag of a chunk that names a slot of the pixel cache: `00xxxxxx`.
pub const OP_INDEX: u8 = 0x00;

/// Tag of a chunk holding small channel differences: `01xxxxxx`.
pub const OP_DIFF: u8 = 0x40;

/// Tag of a chunk holding a green difference and red/blue offsets from it: `10xxxxxx`.
pub const OP_LUMA: u8 = 0x80;

/// Tag of a chunk repeating the previous pixel: `11xxxxxx`.
pub const OP_RUN: u8 = 0xc0;

/// Tag of a chunk holding the red, green and blue bytes: `11111110`.
pub const OP_RGB: u8 = 0xfe;

/// Tag of a chunk holding all four channel bytes: `11111111`.
pub const OP_RGBA: u8 = 0xff;

/// The header fields of a QOI image.
#[derive(Debug, Default)]
pub struct QoiMetadata<'a> {
    pub magic_bytes: &'a str,
    pub width: u32,
    pub height: u32,
    pub channels: u8,
    pub color_space: u8,
}

/// An RGBA pixel.
#[derive(Debug, Eq, Copy, Clone)]
pub struct Pixel {
    pub r: u8,
    pub g: u8,
    pub b: u8,
    pub a: u8,
}

impl PartialEq for Pixel {
    fn eq(&self, other: &Self) -> (r: bool) {
        self.r == other.r && self.g == other.g && self.b == other.b && self.a == other.a
    }
}

impl vstd::std_specs::cmp::PartialEqSpecImpl for Pixel {
    open spec fn obeys_eq_spec() -> bool {
        true
    }

    open spec fn eq_spec(&self, other: &Self) -> bool {
        self.r == other.r && self.g == other.g && self.b == other.b && self.a == other.a
    }
}

impl Default for Pixel {
    fn default() -> (r: Self)
        ensures
            r == (Pixel { r: 0, g: 0, b: 0, a: 0 }),
    {
        Pixel { r: 0, g: 0, b: 0, a: 0 }
    }
}

} // verus!
