use vstd::prelude::*;
use vstd::std_specs::cmp::PartialOrdIs;
use vstd::std_specs::cmp::PartialOrdSpec;

verus! {

/// The unsigned integer that four bytes spell in big-endian order
/// (most significant byte first).
pub open spec fn big_endian_u32(bytes: Seq<u8>) -> int
    recommends
        bytes.len() >= 4,
{
    bytes[0] * 0x100_0000 + bytes[1] * 0x1_0000 + bytes[2] * 0x100 + bytes[3]
}

/// Reads the first four bytes of `bytes` as a big-endian `u32`.
pub fn combine_bytes(bytes: &[u8]) -> (r: u32)
    requires
        bytes@.len() >= 4,
    ensures
        r == big_endian_u32(bytes@),
{
    let one = bytes[0] as u32;
    let two = bytes[1] as u32;
    let three = bytes[2] as u32;
    let four = bytes[3] as u32;
    assert((one << 24 | two << 16 | three << 8 | four) == one * 0x100_0000 + two * 0x1_0000
        + three * 0x100 + four) by (bit_vector)
        requires
            one < 256,
            two < 256,
            three < 256,
            four < 256,
    ;
    one << 24 | two << 16 | three << 8 | four
}

/// Whether `t` lies strictly between `lo` and `hi`.
pub fn in_range<T: PartialOrd>(t: T, lo: T, hi: T) -> (r: bool)
    ensures
        T::obeys_partial_cmp_spec() ==> (r <==> (t.is_gt(&lo) && t.is_lt(&hi))),
{
    t > lo && t < hi
}

} // verus!
