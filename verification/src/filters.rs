use vstd::prelude::*;
use vstd::slice::slice_to_vec;

use crate::error::DecodeError;
use crate::image::PngImage;
use crate::png::filters::zero_row;

verus! {

/// Bytes per pixel of the RGBA, 8 bits per channel images that are decoded.
pub const BYTES_PER_PIXEL: usize = 4;

/// The filter that a scanline was encoded with, carrying its type byte.
pub enum PngFilter {
    Zero(u8),
    Sub(u8),
    Up(u8),
    Avg(u8),
    Paeth(u8),
}

/// Maps a scanline's filter-type byte to its filter; bytes above 4 are refused.
pub fn match_filter(filter_byte: u8) -> (r: Result<PngFilter, DecodeError>)
    ensures
        filter_byte == 0 ==> r matches Ok(PngFilter::Zero(0)),
        filter_byte == 1 ==> r matches Ok(PngFilter::Sub(1)),
        filter_byte == 2 ==> r matches Ok(PngFilter::Up(2)),
        filter_byte == 3 ==> r matches Ok(PngFilter::Avg(3)),
        filter_byte == 4 ==> r matches Ok(PngFilter::Paeth(4)),
        filter_byte > 4 ==> r == Err::<PngFilter, DecodeError>(DecodeError::InvalidFilterType),
{
    match filter_byte {
        0 => Ok(PngFilter::Zero(0)),
        1 => Ok(PngFilter::Sub(1)),
        2 => Ok(PngFilter::Up(2)),
        3 => Ok(PngFilter::Avg(3)),
        4 => Ok(PngFilter::Paeth(4)),
        _ => Err(DecodeError::InvalidFilterType),
    }
}

/// The byte preceding position `i` of a line, zero before its start.
pub open spec fn before(line: Seq<u8>, i: int) -> int {
    if i == 0 {
        0
    } else {
        line[i - 1] as int
    }
}

/// Whether each byte of the line plus the byte before it fits in a byte.
pub open spec fn pair_sums_fit(line: Seq<u8>) -> bool {
    forall|i: int| 0 <= i < line.len() ==> #[trigger] line[i] + before(line, i) <= 255
}

/// Each byte of a line plus the byte before it (the first byte unchanged).
pub open spec fn pair_sum_row(line: Seq<u8>) -> Seq<u8> {
    Seq::new(line.len(), |i: int| (line[i] + before(line, i)) as u8)
}

/// The number of positions that two lines share.
pub open spec fn common_len(a: Seq<u8>, b: Seq<u8>) -> int {
    if a.len() <= b.len() {
        a.len() as int
    } else {
        b.len() as int
    }
}

/// Whether each byte plus the byte above it fits in a byte, as far as both lines reach.
pub open spec fn column_sums_fit(line: Seq<u8>, prev: Seq<u8>) -> bool {
    forall|i: int| 0 <= i < common_len(line, prev) ==> #[trigger] line[i] + prev[i] <= 255
}

/// Each byte plus the byte above it, as far as both lines reach.
pub open spec fn column_sum_row(line: Seq<u8>, prev: Seq<u8>) -> Seq<u8> {
    Seq::new(common_len(line, prev) as nat, |i: int| (line[i] + prev[i]) as u8)
}

/// Byte `i` of the averaged line: the halved sum of the column sum and the
/// pair sum at `i`, plus the byte itself, capped at 255.
pub open spec fn average_byte(line: Seq<u8>, prev: Seq<u8>, i: int) -> u8 {
    let v = (line[i] + prev[i] + line[i] + before(line, i)) / 2 + line[i];
    if v > 255 {
        255
    } else {
        v as u8
    }
}

/// The averaged line, as far as both lines reach.
pub open spec fn average_row(line: Seq<u8>, prev: Seq<u8>) -> Seq<u8> {
    Seq::new(common_len(line, prev) as nat, |i: int| average_byte(line, prev, i))
}

/// The absolute value of an integer.
pub open spec fn abs(x: int) -> int {
    if x < 0 {
        -x
    } else {
        x
    }
}

/// The smallest of three integers.
pub open spec fn min3(a: int, b: int, c: int) -> int {
    let m = if a <= b {
        a
    } else {
        b
    };
    if m <= c {
        m
    } else {
        c
    }
}

/// Value `i` of the Paeth-distance line: the byte plus the smallest distance
/// between `left + up - diag` and each of `left` (the previous value of this line),
/// `up` and `diag` (zero before the start of the line).
pub open spec fn paeth_distance_value(line: Seq<u8>, prev: Seq<u8>, i: int) -> int
    decreases i,
{
    let left = if i > 0 {
        paeth_distance_value(line, prev, i - 1)
    } else {
        0
    };
    let up = prev[i] as int;
    let diag = if i > 0 {
        prev[i - 1] as int
    } else {
        0
    };
    let p = left + up - diag;
    line[i] + min3(abs(p - left), abs(p - up), abs(p - diag))
}

/// Whether every value of the Paeth-distance line fits in a byte.
pub open spec fn paeth_distances_fit(line: Seq<u8>, prev: Seq<u8>) -> bool {
    forall|i: int| 0 <= i < line.len() ==> #[trigger] paeth_distance_value(line, prev, i) <= 255
}

/// The Paeth-distance line.
pub open spec fn paeth_distance_row(line: Seq<u8>, prev: Seq<u8>) -> Seq<u8> {
    Seq::new(line.len(), |i: int| paeth_distance_value(line, prev, i) as u8)
}

/// Decodes a scanline filtered with the Zero filter: the bytes as they are.
pub fn reverse_zero_filter(curr_scan_line: &[u8]) -> (r: Vec<u8>)
    ensures
        r@ == curr_scan_line@,
{
    slice_to_vec(curr_scan_line)
}

/// Adds to each byte of the scanline the byte before it.
pub fn reverse_sub_filter(curr_scan_line: &[u8]) -> (r: Vec<u8>)
    requires
        pair_sums_fit(curr_scan_line@),
    ensures
        r@ == pair_sum_row(curr_scan_line@),
{
    let mut result: Vec<u8> = Vec::new();
    let mut state: u8 = 0;
    let n = curr_scan_line.len();
    let mut i: usize = 0;
    while i < n
        invariant
            n == curr_scan_line@.len(),
            pair_sums_fit(curr_scan_line@),
            i <= n,
            state == before(curr_scan_line@, i as int),
            result@.len() == i,
            forall|j: int| 0 <= j < i ==> result@[j] == pair_sum_row(curr_scan_line@)[j],
        decreases n - i,
    {
        let x = curr_scan_line[i];
        assert(x + before(curr_scan_line@, i as int) <= 255);
        let out = state + x;
        state = x;
        result.push(out);
        i = i + 1;
    }
    assert(result@ =~= pair_sum_row(curr_scan_line@));
    result
}

/// Adds to each byte of the scanline the byte above it, as far as both lines reach.
pub fn reverse_up_filter(curr_scan_line: &[u8], prev_reconstructed_line: &[u8]) -> (r: Vec<u8>)
    requires
        column_sums_fit(curr_scan_line@, prev_reconstructed_line@),
    ensures
        r@ == column_sum_row(curr_scan_line@, prev_reconstructed_line@),
{
    let n = if curr_scan_line.len() <= prev_reconstructed_line.len() {
        curr_scan_line.len()
    } else {
        prev_reconstructed_line.len()
    };
    let mut result: Vec<u8> = Vec::new();
    let mut i: usize = 0;
    while i < n
        invariant
            n == common_len(curr_scan_line@, prev_reconstructed_line@),
            column_sums_fit(curr_scan_line@, prev_reconstructed_line@),
            i <= n,
            result@.len() == i,
            forall|j: int|
                0 <= j < i ==> result@[j] == column_sum_row(
                    curr_scan_line@,
                    prev_reconstructed_line@,
                )[j],
        decreases n - i,
    {
        assert(curr_scan_line@[i as int] + prev_reconstructed_line@[i as int] <= 255);
        result.push(curr_scan_line[i] + prev_reconstructed_line[i]);
        i = i + 1;
    }
    assert(result@ =~= column_sum_row(curr_scan_line@, prev_reconstructed_line@));
    result
}

/// Averages the column sums and pair sums of the scanline and adds each byte
/// again, capping at 255.
pub fn reverse_avg_filter(curr_scan_line: &[u8], prev_reconstructed_line: &[u8]) -> (r: Vec<u8>)
    requires
        pair_sums_fit(curr_scan_line@),
        column_sums_fit(curr_scan_line@, prev_reconstructed_line@),
    ensures
        r@ == average_row(curr_scan_line@, prev_reconstructed_line@),
{
    let up = reverse_up_filter(curr_scan_line, prev_reconstructed_line);
    let sub = reverse_sub_filter(curr_scan_line);
    let n = up.len();
    let mut result: Vec<u8> = Vec::new();
    let mut i: usize = 0;
    while i < n
        invariant
            n == up@.len(),
            up@ == column_sum_row(curr_scan_line@, prev_reconstructed_line@),
            sub@ == pair_sum_row(curr_scan_line@),
            pair_sums_fit(curr_scan_line@),
            column_sums_fit(curr_scan_line@, prev_reconstructed_line@),
            i <= n,
            result@.len() == i,
            forall|j: int|
                0 <= j < i ==> result@[j] == average_byte(
                    curr_scan_line@,
                    prev_reconstructed_line@,
                    j,
                ),
        decreases n - i,
    {
        assert(curr_scan_line@[i as int] + prev_reconstructed_line@[i as int] <= 255);
        assert(curr_scan_line@[i as int] + before(curr_scan_line@, i as int) <= 255);
        let a = up[i] as u16;
        let b = sub[i] as u16;
        let c = curr_scan_line[i] as u16;
        let v: u16 = (a + b) / 2 + c;
        let byte: u8 = if v > 255 {
            255
        } else {
            v as u8
        };
        result.push(byte);
        i = i + 1;
    }
    assert(result@ =~= average_row(curr_scan_line@, prev_reconstructed_line@));
    result
}

/// Adds to each byte of the scanline the smallest Paeth distance of its neighbours.
pub fn reverse_paeth_filter(curr_scan_line: &[u8], prev_reconstructed_line: &[u8]) -> (r: Vec<u8>)
    requires
        prev_reconstructed_line@.len() >= curr_scan_line@.len(),
        paeth_distances_fit(curr_scan_line@, prev_reconstructed_line@),
    ensures
        r@ == paeth_distance_row(curr_scan_line@, prev_reconstructed_line@),
{
    let mut out: Vec<u8> = Vec::new();
    let n = curr_scan_line.len();
    let mut i: usize = 0;
    while i < n
        invariant
            n == curr_scan_line@.len(),
            prev_reconstructed_line@.len() >= n,
            paeth_distances_fit(curr_scan_line@, prev_reconstructed_line@),
            i <= n,
            out@.len() == i,
            forall|j: int|
                0 <= j < i ==> out@[j] == paeth_distance_value(
                    curr_scan_line@,
                    prev_reconstructed_line@,
                    j,
                ),
        decreases n - i,
    {
        let left: i32 = if i != 0 {
            out[i - 1] as i32
        } else {
            0
        };
        let up = prev_reconstructed_line[i] as i32;
        let diag: i32 = if i != 0 {
            prev_reconstructed_line[i - 1] as i32
        } else {
            0
        };
        let p = left + up - diag;
        let pleft = if p - left < 0 {
            -(p - left)
        } else {
            p - left
        };
        let pup = if p - up < 0 {
            -(p - up)
        } else {
            p - up
        };
        let pdiag = if p - diag < 0 {
            -(p - diag)
        } else {
            p - diag
        };
        let m1 = if pleft <= pup {
            pleft
        } else {
            pup
        };
        let m = if m1 <= pdiag {
            m1
        } else {
            pdiag
        };
        assert(paeth_distance_value(curr_scan_line@, prev_reconstructed_line@, i as int) <= 255);
        out.push(curr_scan_line[i] + m as u8);
        i = i + 1;
    }
    assert(out@ =~= paeth_distance_row(curr_scan_line@, prev_reconstructed_line@));
    out
}

/// Reverses the filters of an image held with its dimensions.
///
/// Every scanline after the start is decoded against the `width * 4 + 1` bytes
/// that end the decoded output, which do not exist while the output is empty:
/// so only an image of height zero, whose data length is a multiple of 2^32,
/// decodes, into no bytes.
pub fn reconstruct_image(png_image: &PngImage) -> (r: Result<Vec<u8>, DecodeError>)
    requires
        png_image.height == 0,
        1 + png_image.width * BYTES_PER_PIXEL <= usize::MAX,
        png_image.data@.len() % 0x1_0000_0000 == 0,
    ensures
        r matches Ok(v) && v@.len() == 0,
{
    let mut reconstruction: Vec<u8> = Vec::new();
    let width = png_image.width as usize;
    let height = png_image.height as usize;
    let stride: usize = 1 + width * BYTES_PER_PIXEL;
    let total = height * stride;
    let mut idx: usize = 0;
    while idx < total
        invariant
            total == 0,
            reconstruction@.len() == 0,
        decreases total - idx,
    {
        let curr_scan_line = &png_image.data.as_slice()[idx + 1..idx + stride];
        let prev_reconstructed_line = &reconstruction.as_slice()[reconstruction.len()
            - stride..reconstruction.len()];
        let filter_type = match match_filter(curr_scan_line[0]) {
            Ok(f) => f,
            Err(e) => {
                return Err(e);
            },
        };
        let mut reconstructed_row = match filter_type {
            PngFilter::Zero(0) => reverse_zero_filter(curr_scan_line),
            PngFilter::Sub(1) => reverse_sub_filter(curr_scan_line),
            PngFilter::Up(2) => reverse_up_filter(curr_scan_line, prev_reconstructed_line),
            PngFilter::Avg(3) => reverse_avg_filter(curr_scan_line, prev_reconstructed_line),
            PngFilter::Paeth(4) => reverse_paeth_filter(curr_scan_line, prev_reconstructed_line),
            _ => {
                return Err(DecodeError::InvalidFilterType);
            },
        };
        reconstruction.append(&mut reconstructed_row);
        idx = idx + stride;
    }
    Ok(reconstruction)
}

/// Against a zero row, the column sums of a line are the line itself.
pub proof fn lemma_column_sums_over_zero_row(line: Seq<u8>)
    ensures
        column_sums_fit(line, zero_row(line.len() as int)),
        column_sum_row(line, zero_row(line.len() as int)) == line,
{
    assert(column_sum_row(line, zero_row(line.len() as int)) =~= line);
}

/// Paeth-distance value `i` against a zero row is the byte itself.
proof fn lemma_paeth_distance_value_over_zero_row(line: Seq<u8>, i: int)
    requires
        0 <= i < line.len(),
    ensures
        paeth_distance_value(line, zero_row(line.len() as int), i) == line[i],
    decreases i,
{
    if i > 0 {
        lemma_paeth_distance_value_over_zero_row(line, i - 1);
    }
}

/// Against a zero row, the Paeth-distance line is the line itself: the
/// distance to `left` is always zero.
pub proof fn lemma_paeth_distances_over_zero_row(line: Seq<u8>)
    ensures
        paeth_distances_fit(line, zero_row(line.len() as int)),
        paeth_distance_row(line, zero_row(line.len() as int)) == line,
{
    assert forall|i: int| 0 <= i < line.len() implies #[trigger] paeth_distance_value(
        line,
        zero_row(line.len() as int),
        i,
    ) == line[i] by {
        lemma_paeth_distance_value_over_zero_row(line, i);
    }
    assert(paeth_distance_row(line, zero_row(line.len() as int)) =~= line);
}

} // verus!
