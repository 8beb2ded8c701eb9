use vstd::prelude::*;
use vstd::slice::slice_to_vec;

use crate::error::DecodeError;
use crate::png::frame::PngImageMetadata;

verus! {

/// Bytes per pixel of the RGBA, 8 bits per channel images that are decoded.
pub const BYTES_PER_PIXEL: usize = 4;

/// The filter that a PNG scanline was encoded with, carrying its type byte.
#[derive(Debug)]
pub enum PngFilter {
    Zero(u8),
    Sub(u8),
    Up(u8),
    Avg(u8),
    Paeth(u8),
}

/// Maps a scanline's filter-type byte to its filter; bytes above 4 are refused.
pub fn match_filter(filter_byte: u8) -> (r: Result<PngFilter, DecodeError>)
    ensures
        filter_byte == 0 ==> r matches Ok(PngFilter::Zero(0)),
        filter_byte == 1 ==> r matches Ok(PngFilter::Sub(1)),
        filter_byte == 2 ==> r matches Ok(PngFilter::Up(2)),
        filter_byte == 3 ==> r matches Ok(PngFilter::Avg(3)),
        filter_byte == 4 ==> r matches Ok(PngFilter::Paeth(4)),
        filter_byte > 4 ==> r == Err::<PngFilter, DecodeError>(DecodeError::InvalidFilterType),
{
    match filter_byte {
        0 => Ok(PngFilter::Zero(0)),
        1 => Ok(PngFilter::Sub(1)),
        2 => Ok(PngFilter::Up(2)),
        3 => Ok(PngFilter::Avg(3)),
        4 => Ok(PngFilter::Paeth(4)),
        _ => Err(DecodeError::InvalidFilterType),
    }
}

/// Byte `i` of a scanline decoded with the Sub filter: the filtered byte plus
/// the decoded byte one pixel to the left (nothing in the first pixel), modulo 256.
pub open spec fn sub_byte(line: Seq<u8>, i: int) -> u8
    decreases i,
{
    if i < BYTES_PER_PIXEL {
        line[i]
    } else {
        line[i].wrapping_add(sub_byte(line, i - BYTES_PER_PIXEL))
    }
}

/// A scanline decoded with the Sub filter.
pub open spec fn sub_row(line: Seq<u8>) -> Seq<u8> {
    Seq::new(line.len(), |i: int| sub_byte(line, i))
}

/// A scanline decoded with the Up filter: each byte plus the byte above it,
/// modulo 256, as far as both lines reach.
pub open spec fn up_row(line: Seq<u8>, prev: Seq<u8>) -> Seq<u8> {
    Seq::new(
        if line.len() <= prev.len() {
            line.len()
        } else {
            prev.len()
        },
        |i: int| line[i].wrapping_add(prev[i]),
    )
}

/// Byte `i` of a scanline decoded with the Avg filter as this decoder defines it:
/// the halved sum of the Up and Sub decodings of the byte, plus the filtered
/// byte, modulo 256.
pub open spec fn avg_byte(line: Seq<u8>, prev: Seq<u8>, i: int) -> u8 {
    (((line[i].wrapping_add(prev[i]) + sub_byte(line, i)) / 2 + line[i]) as u8)
}

/// A scanline decoded with the Avg filter.
pub open spec fn avg_row(line: Seq<u8>, prev: Seq<u8>) -> Seq<u8> {
    Seq::new(
        if line.len() <= prev.len() {
            line.len()
        } else {
            prev.len()
        },
        |i: int| avg_byte(line, prev, i),
    )
}

/// The absolute value of an integer.
pub open spec fn abs(x: int) -> int {
    if x < 0 {
        -x
    } else {
        x
    }
}

/// The Paeth predictor: of `left`, `up` and `diag`, the one closest to
/// `left + up - diag`, ties going to `left`, then to `up`.
pub open spec fn paeth_predictor(left: int, up: int, diag: int) -> int {
    let p = left + up - diag;
    let pleft = abs(p - left);
    let pup = abs(p - up);
    let pdiag = abs(p - diag);
    if pleft <= pup && pleft <= pdiag {
        left
    } else if pup <= pdiag {
        up
    } else {
        diag
    }
}

/// Byte `i` of a scanline decoded with the Paeth filter: the predictor of the
/// decoded byte to the left, the byte above and the byte above-left (zero
/// outside the line), plus the filtered byte, modulo 256.
pub open spec fn paeth_byte(line: Seq<u8>, prev: Seq<u8>, i: int) -> u8
    decreases i,
{
    let left: int = if i >= BYTES_PER_PIXEL {
        paeth_byte(line, prev, i - BYTES_PER_PIXEL) as int
    } else {
        0
    };
    let up: int = prev[i] as int;
    let diag: int = if i >= BYTES_PER_PIXEL {
        prev[i - BYTES_PER_PIXEL] as int
    } else {
        0
    };
    (paeth_predictor(left, up, diag) as u8).wrapping_add(line[i])
}

/// A scanline decoded with the Paeth filter.
pub open spec fn paeth_row(line: Seq<u8>, prev: Seq<u8>) -> Seq<u8> {
    Seq::new(line.len(), |i: int| paeth_byte(line, prev, i))
}

/// A scanline decoded with the filter of type `kind` (0 to 4), given the
/// decoded line above it.
pub open spec fn unfilter_row(kind: u8, line: Seq<u8>, prev: Seq<u8>) -> Seq<u8> {
    if kind == 0 {
        line
    } else if kind == 1 {
        sub_row(line)
    } else if kind == 2 {
        up_row(line, prev)
    } else if kind == 3 {
        avg_row(line, prev)
    } else {
        paeth_row(line, prev)
    }
}

/// Decodes a scanline filtered with the Zero filter: the bytes as they are.
pub fn reverse_zero_filter(curr_scan_line: &[u8]) -> (r: Vec<u8>)
    ensures
        r@ == curr_scan_line@,
{
    slice_to_vec(curr_scan_line)
}

/// Decodes a scanline filtered with the Sub filter.
pub fn reverse_sub_filter(curr_scan_line: &[u8]) -> (r: Vec<u8>)
    requires
        curr_scan_line@.len() <= 0x8000_0000,
    ensures
        r@ == sub_row(curr_scan_line@),
{
    let mut result: Vec<u8> = Vec::new();
    let n = curr_scan_line.len();
    let mut i: usize = 0;
    while i < n
        invariant
            n == curr_scan_line@.len(),
            n <= 0x8000_0000,
            i <= n,
            result@.len() == i,
            forall|j: int| 0 <= j < i ==> result@[j] == sub_byte(curr_scan_line@, j),
        decreases n - i,
    {
        if i as i32 - BYTES_PER_PIXEL as i32 >= 0 {
            let b = curr_scan_line[i].wrapping_add(result[i - BYTES_PER_PIXEL]);
            result.push(b);
        } else {
            result.push(curr_scan_line[i]);
        }
        i = i + 1;
    }
    assert(result@ =~= sub_row(curr_scan_line@));
    result
}

/// Decodes a scanline filtered with the Up filter, given the decoded line above.
pub fn reverse_up_filter(curr_scan_line: &[u8], prev_reconstructed_line: &[u8]) -> (r: Vec<u8>)
    ensures
        r@ == up_row(curr_scan_line@, prev_reconstructed_line@),
{
    let n = if curr_scan_line.len() <= prev_reconstructed_line.len() {
        curr_scan_line.len()
    } else {
        prev_reconstructed_line.len()
    };
    let mut result: Vec<u8> = Vec::new();
    let mut i: usize = 0;
    while i < n
        invariant
            n <= curr_scan_line@.len(),
            n <= prev_reconstructed_line@.len(),
            i <= n,
            result@.len() == i,
            forall|j: int|
                0 <= j < i ==> result@[j] == curr_scan_line@[j].wrapping_add(
                    prev_reconstructed_line@[j],
                ),
        decreases n - i,
    {
        result.push(curr_scan_line[i].wrapping_add(prev_reconstructed_line[i]));
        i = i + 1;
    }
    assert(result@ =~= up_row(curr_scan_line@, prev_reconstructed_line@));
    result
}

/// Decodes a scanline filtered with the Avg filter, given the decoded line above.
pub fn reverse_avg_filter(curr_scan_line: &[u8], prev_reconstructed_line: &[u8]) -> (r: Vec<u8>)
    requires
        curr_scan_line@.len() <= 0x8000_0000,
    ensures
        r@ == avg_row(curr_scan_line@, prev_reconstructed_line@),
{
    let up = reverse_up_filter(curr_scan_line, prev_reconstructed_line);
    let sub = reverse_sub_filter(curr_scan_line);
    let n = up.len();
    let mut result: Vec<u8> = Vec::new();
    let mut i: usize = 0;
    while i < n
        invariant
            n == up@.len(),
            up@ == up_row(curr_scan_line@, prev_reconstructed_line@),
            sub@ == sub_row(curr_scan_line@),
            i <= n,
            result@.len() == i,
            forall|j: int|
                0 <= j < i ==> result@[j] == avg_byte(
                    curr_scan_line@,
                    prev_reconstructed_line@,
                    j,
                ),
        decreases n - i,
    {
        let a = up[i];
        let b = sub[i];
        let c = curr_scan_line[i];
        let v: i16 = (a as i16 + b as i16) / 2 + c as i16;
        result.push(v as u8);
        i = i + 1;
    }
    assert(result@ =~= avg_row(curr_scan_line@, prev_reconstructed_line@));
    result
}

/// Decodes a scanline filtered with the Paeth filter, given the decoded line above.
pub fn reverse_paeth_filter(curr_scan_line: &[u8], prev_reconstructed_line: &[u8]) -> (r: Vec<u8>)
    requires
        prev_reconstructed_line@.len() >= curr_scan_line@.len(),
    ensures
        r@ == paeth_row(curr_scan_line@, prev_reconstructed_line@),
{
    let mut out: Vec<u8> = Vec::new();
    let n = curr_scan_line.len();
    let mut i: usize = 0;
    while i < n
        invariant
            n == curr_scan_line@.len(),
            prev_reconstructed_line@.len() >= n,
            i <= n,
            out@.len() == i,
            forall|j: int|
                0 <= j < i ==> out@[j] == paeth_byte(
                    curr_scan_line@,
                    prev_reconstructed_line@,
                    j,
                ),
        decreases n - i,
    {
        let left: i32 = if i >= BYTES_PER_PIXEL {
            out[i - BYTES_PER_PIXEL] as i32
        } else {
            0
        };
        let up = prev_reconstructed_line[i] as i32;
        let diag: i32 = if i >= BYTES_PER_PIXEL {
            prev_reconstructed_line[i - BYTES_PER_PIXEL] as i32
        } else {
            0
        };
        let p = left + up - diag;
        let pleft = if p - left < 0 {
            -(p - left)
        } else {
            p - left
        };
        let pup = if p - up < 0 {
            -(p - up)
        } else {
            p - up
        };
        let pdiag = if p - diag < 0 {
            -(p - diag)
        } else {
            p - diag
        };
        let mut decoded_byte = diag as u8;
        if pleft <= pup && pleft <= pdiag {
            decoded_byte = left as u8;
        } else if pup <= pdiag {
            decoded_byte = up as u8;
        }
        decoded_byte = decoded_byte.wrapping_add(curr_scan_line[i]);
        out.push(decoded_byte);
        i = i + 1;
    }
    assert(out@ =~= paeth_row(curr_scan_line@, prev_reconstructed_line@));
    out
}

/// The length of one filtered scanline of an RGBA image `width` pixels wide:
/// the filter-type byte followed by the pixel bytes.
pub open spec fn image_stride(width: u32) -> int {
    1 + width * BYTES_PER_PIXEL
}

/// The filter-type byte of scanline `k` in filtered image data.
pub open spec fn row_filter(data: Seq<u8>, stride: int, k: int) -> u8 {
    data[k * stride]
}

/// The filtered pixel bytes of scanline `k` in filtered image data.
pub open spec fn scanline(data: Seq<u8>, stride: int, k: int) -> Seq<u8> {
    data.subrange(k * stride + 1, k * stride + stride)
}

/// Whether the scanlines before scanline `k` all name a known filter type.
pub open spec fn filters_valid_before(data: Seq<u8>, stride: int, k: int) -> bool {
    forall|j: int| 0 <= j < k ==> #[trigger] row_filter(data, stride, j) <= 4
}

/// A row of `n` zero bytes: the line taken to lie above the first scanline.
pub open spec fn zero_row(n: int) -> Seq<u8> {
    Seq::new(n as nat, |i: int| 0u8)
}

/// The decoded bytes of the first `k` scanlines: each scanline decoded with its
/// own filter against the last decoded row (a zero row while nothing is decoded).
pub open spec fn reconstructed_rows(data: Seq<u8>, stride: int, k: nat) -> Seq<u8>
    decreases k,
{
    if k == 0 {
        seq![]
    } else {
        let before = reconstructed_rows(data, stride, (k - 1) as nat);
        let row_len = stride - 1;
        let prev = if before.len() == 0 {
            zero_row(row_len)
        } else {
            before.subrange(before.len() - row_len, before.len() as int)
        };
        before + unfilter_row(
            row_filter(data, stride, k - 1),
            scanline(data, stride, k - 1),
            prev,
        )
    }
}

/// The inputs on which reconstructing an image runs to its end or to a refused
/// filter type: the dimensions fit the machine, the data length agrees with the
/// dimensions modulo 2^32 with no 32-bit overflow, every scanline that is reached
/// lies within the data, and a scanline that is reached with the Sub or Avg
/// filter is at most 2^31 bytes long.
pub open spec fn image_data_fits(width: u32, height: u32, data: Seq<u8>) -> bool {
    let stride = image_stride(width);
    &&& stride <= usize::MAX
    &&& height * stride <= usize::MAX
    &&& height * (stride % 0x1_0000_0000) <= u32::MAX
    &&& data.len() % 0x1_0000_0000 == height * (stride % 0x1_0000_0000)
    &&& forall|k: int|
        0 <= k < height && #[trigger] filters_valid_before(data, stride, k) ==> (k + 1) * stride
            <= data.len()
    &&& forall|k: int|
        0 <= k < height && #[trigger] filters_valid_before(data, stride, k) && (row_filter(
            data,
            stride,
            k,
        ) == 1 || row_filter(data, stride, k) == 3) ==> stride - 1 <= 0x8000_0000
}

/// Reverses the PNG filters of an RGBA image, scanline by scanline.
///
/// `data` holds `height` scanlines, each a filter-type byte followed by
/// `width * 4` filtered bytes; the result holds the `width * height * 4`
/// decoded bytes, or an error where a scanline names an unknown filter type.
pub fn reconstruct_image(metadata: &PngImageMetadata, data: &[u8]) -> (r: Result<
    Vec<u8>,
    DecodeError,
>)
    requires
        image_data_fits(metadata.width, metadata.height, data@),
    ensures
        r is Ok <==> filters_valid_before(
            data@,
            image_stride(metadata.width),
            metadata.height as int,
        ),
        r matches Ok(v) ==> v@ == reconstructed_rows(
            data@,
            image_stride(metadata.width),
            metadata.height as nat,
        ),
        r matches Ok(v) ==> v@.len() == metadata.width * metadata.height * BYTES_PER_PIXEL,
        r matches Err(e) ==> e == DecodeError::InvalidFilterType,
{
    let mut reconstruction: Vec<u8> = Vec::new();
    let width = metadata.width as usize;
    let height = metadata.height as usize;
    let stride: usize = 1 + width * BYTES_PER_PIXEL;
    let default_buffer = vec![0 as u8; stride - 1];
    assert(default_buffer@ =~= zero_row(stride - 1));
    let total = height * stride;
    let ghost sdata = data@;
    let ghost s = stride as int;
    let mut idx: usize = 0;
    let ghost mut k: int = 0;
    while idx < total
        invariant
            sdata == data@,
            s == stride,
            s == image_stride(metadata.width),
            s >= 1,
            width == metadata.width,
            height == metadata.height,
            total == height * stride,
            image_data_fits(metadata.width, metadata.height, sdata),
            default_buffer@ == zero_row(s - 1),
            0 <= k <= height,
            idx == k * s,
            filters_valid_before(sdata, s, k),
            reconstruction@ == reconstructed_rows(sdata, s, k as nat),
            reconstruction@.len() == k * (s - 1),
        decreases total - idx,
    {
        assert(k < height) by (nonlinear_arith)
            requires
                idx == k * s,
                idx < total,
                total == height * s,
                s >= 1,
        ;
        assert((k + 1) * s <= sdata.len());
        assert((k + 1) * s == idx + stride) by (nonlinear_arith)
            requires
                idx == k * s,
                s == stride,
        ;
        assert(idx + stride <= total) by (nonlinear_arith)
            requires
                idx == k * s,
                s == stride,
                k < height,
                total == height * s,
        ;
        let curr_scan_line = &data[idx + 1..idx + stride];
        assert(curr_scan_line@ == scanline(sdata, s, k));
        let prev_reconstructed_line: &[u8] = if reconstruction.len() != 0 {
            assert(reconstruction@.len() >= s - 1) by (nonlinear_arith)
                requires
                    reconstruction@.len() == k * (s - 1),
                    reconstruction@.len() != 0,
                    s >= 1,
                    k >= 0,
            ;
            &reconstruction.as_slice()[reconstruction.len() - (stride - 1)..reconstruction.len()]
        } else {
            default_buffer.as_slice()
        };
        assert(prev_reconstructed_line@.len() == s - 1);
        assert(row_filter(sdata, s, k) == data@[idx as int]);
        let filter_type = match match_filter(data[idx]) {
            Ok(f) => f,
            Err(e) => {
                assert(!filters_valid_before(sdata, s, height as int));
                return Err(e);
            },
        };
        let mut reconstructed_row = match filter_type {
            PngFilter::Zero(0) => reverse_zero_filter(curr_scan_line),
            PngFilter::Sub(1) => reverse_sub_filter(curr_scan_line),
            PngFilter::Up(2) => reverse_up_filter(curr_scan_line, prev_reconstructed_line),
            PngFilter::Avg(3) => reverse_avg_filter(curr_scan_line, prev_reconstructed_line),
            PngFilter::Paeth(4) => reverse_paeth_filter(curr_scan_line, prev_reconstructed_line),
            _ => {
                return Err(DecodeError::InvalidFilterType);
            },
        };
        assert(reconstructed_row@ == unfilter_row(
            row_filter(sdata, s, k),
            scanline(sdata, s, k),
            prev_reconstructed_line@,
        ));
        assert(reconstructed_row@.len() == s - 1);
        let ghost before = reconstruction@;
        reconstruction.append(&mut reconstructed_row);
        proof {
            assert(reconstruction@ == reconstructed_rows(sdata, s, (k + 1) as nat));
            assert(reconstruction@.len() == (k + 1) * (s - 1)) by (nonlinear_arith)
                requires
                    reconstruction@.len() == before.len() + (s - 1),
                    before.len() == k * (s - 1),
            ;
            assert forall|j: int| 0 <= j < k + 1 implies #[trigger] row_filter(sdata, s, j)
                <= 4 by {
                if j < k {
                    assert(filters_valid_before(sdata, s, k));
                }
            }
            k = k + 1;
        }
        idx = idx + stride;
    }
    assert(k == height) by (nonlinear_arith)
        requires
            idx == k * s,
            idx >= total,
            total == height * s,
            s >= 1,
            k <= height,
    ;
    assert(reconstruction@.len() == metadata.width * metadata.height * BYTES_PER_PIXEL)
        by (nonlinear_arith)
        requires
            reconstruction@.len() == k * (s - 1),
            k == metadata.height,
            s == 1 + metadata.width * 4,
    ;
    Ok(reconstruction)
}

/// Whether `reconstruct_image` accepts the dimensions and data (see
/// `image_data_fits`).
pub fn reconstruct_image_accepts(metadata: &PngImageMetadata, data: &[u8]) -> (r: bool)
    ensures
        r == image_data_fits(metadata.width, metadata.height, data@),
{
    let w = metadata.width as u128;
    let h = metadata.height as u128;
    let stride: u128 = 1 + w * 4;
    if stride > usize::MAX as u128 {
        return false;
    }
    assert(h * stride <= 0x1_0000_0000 * 0x5_0000_0000) by (nonlinear_arith)
        requires
            h <= 0xffff_ffff,
            stride <= 0x5_0000_0000,
    ;
    if h * stride > usize::MAX as u128 {
        return false;
    }
    let low = stride % 0x1_0000_0000;
    assert(h * low <= 0x1_0000_0000 * 0x1_0000_0000) by (nonlinear_arith)
        requires
            h <= 0xffff_ffff,
            low < 0x1_0000_0000,
    ;
    if h * low > 0xffff_ffff {
        return false;
    }
    if (data.len() as u128) % 0x1_0000_0000 != h * low {
        return false;
    }
    let ghost sdata = data@;
    let ghost s = stride as int;
    let stride_u = stride as usize;
    let height = metadata.height as usize;
    let len = data.len();
    let mut k: usize = 0;
    while k < height
        invariant
            sdata == data@,
            len == sdata.len(),
            s == stride_u,
            s == image_stride(metadata.width),
            s >= 1,
            height == metadata.height,
            height * s <= usize::MAX,
            s <= usize::MAX,
            height * (s % 0x1_0000_0000) <= u32::MAX,
            sdata.len() % 0x1_0000_0000 == height * (s % 0x1_0000_0000),
            k <= height,
            filters_valid_before(sdata, s, k as int),
            forall|j: int|
                0 <= j < k && #[trigger] filters_valid_before(sdata, s, j) ==> (j + 1) * s
                    <= sdata.len(),
            forall|j: int|
                0 <= j < k && #[trigger] filters_valid_before(sdata, s, j) && (row_filter(
                    sdata,
                    s,
                    j,
                ) == 1 || row_filter(sdata, s, j) == 3) ==> s - 1 <= 0x8000_0000,
        decreases height - k,
    {
        assert(k * s + s <= height * s && (k + 1) * s == k * s + s && k * s >= 0) by (nonlinear_arith)
            requires
                k < height,
                s >= 1,
        ;
        let row_start = k * stride_u;
        if row_start + stride_u > len {
            return false;
        }
        let f = data[row_start];
        assert(f == row_filter(sdata, s, k as int));
        if (f == 1 || f == 3) && stride_u - 1 > 0x8000_0000 {
            return false;
        }
        if f > 4 {
            assert forall|j: int|
                0 <= j < height && #[trigger] filters_valid_before(sdata, s, j) implies (j + 1) * s
                <= sdata.len() by {
                if j > k {
                    assert(row_filter(sdata, s, k as int) > 4);
                }
            }
            assert forall|j: int|
                0 <= j < height && #[trigger] filters_valid_before(sdata, s, j) && (row_filter(
                    sdata,
                    s,
                    j,
                ) == 1 || row_filter(sdata, s, j) == 3) implies s - 1 <= 0x8000_0000 by {
                if j > k {
                    assert(row_filter(sdata, s, k as int) > 4);
                }
            }
            return true;
        }
        assert(filters_valid_before(sdata, s, k + 1));
        k = k + 1;
    }
    true
}

/// Decoding with the Up filter against a zero row gives the scanline back
/// unchanged, as the Zero filter does.
pub proof fn lemma_up_over_zero_row_is_zero_filter(line: Seq<u8>)
    ensures
        up_row(line, zero_row(line.len() as int)) == unfilter_row(0, line, zero_row(line.len() as int)),
{
    assert(up_row(line, zero_row(line.len() as int)) =~= line);
}

/// Paeth byte `i` over a zero row equals Sub byte `i`.
proof fn lemma_paeth_byte_over_zero_row(line: Seq<u8>, i: int)
    requires
        0 <= i < line.len(),
    ensures
        paeth_byte(line, zero_row(line.len() as int), i) == sub_byte(line, i),
    decreases i,
{
    if i >= BYTES_PER_PIXEL {
        lemma_paeth_byte_over_zero_row(line, i - BYTES_PER_PIXEL);
    }
}

/// Decoding with the Paeth filter against a zero row (as for the first scanline)
/// gives the same bytes as decoding with the Sub filter.
pub proof fn lemma_paeth_over_zero_row_is_sub(line: Seq<u8>)
    ensures
        paeth_row(line, zero_row(line.len() as int)) == sub_row(line),
{
    assert forall|i: int| 0 <= i < line.len() implies paeth_row(
        line,
        zero_row(line.len() as int),
    )[i] == sub_row(line)[i] by {
        lemma_paeth_byte_over_zero_row(line, i);
    }
    assert(paeth_row(line, zero_row(line.len() as int)) =~= sub_row(line));
}

/// Every filter type decodes a scanline into as many bytes as it has, when the
/// row above is as long as the scanline.
pub proof fn lemma_unfilter_row_keeps_length(kind: u8, line: Seq<u8>, prev: Seq<u8>)
    requires
        prev.len() == line.len(),
    ensures
        unfilter_row(kind, line, prev).len() == line.len(),
{
}

/// After `k` scanlines that lie within the data, the decoded image holds `k`
/// rows of `stride - 1` bytes.
pub proof fn lemma_reconstructed_rows_length(data: Seq<u8>, stride: int, k: nat)
    requires
        stride >= 1,
        k * stride <= data.len(),
    ensures
        reconstructed_rows(data, stride, k).len() == k * (stride - 1),
    decreases k,
{
    if k > 0 {
        assert((k - 1) * stride <= data.len() && (k - 1) * stride >= 0) by (nonlinear_arith)
            requires
                k * stride <= data.len(),
                k >= 1,
                stride >= 1,
        ;
        lemma_reconstructed_rows_length(data, stride, (k - 1) as nat);
        let before = reconstructed_rows(data, stride, (k - 1) as nat);
        assert(before.len() != 0 ==> before.len() >= stride - 1) by (nonlinear_arith)
            requires
                before.len() == (k - 1) * (stride - 1),
                stride >= 1,
                k >= 1,
        ;
        assert(k * stride == (k - 1) * stride + stride) by (nonlinear_arith);
        assert(k * (stride - 1) == (k - 1) * (stride - 1) + (stride - 1)) by (nonlinear_arith);
        let line = scanline(data, stride, k - 1);
        assert(line.len() == stride - 1);
        let prev = if before.len() == 0 {
            zero_row(stride - 1)
        } else {
            before.subrange(before.len() - (stride - 1), before.len() as int)
        };
        assert(prev.len() == stride - 1);
        lemma_unfilter_row_keeps_length(row_filter(data, stride, k - 1), line, prev);
        assert(reconstructed_rows(data, stride, k) == before + unfilter_row(
            row_filter(data, stride, k - 1),
            line,
            prev,
        ));
    } else {
        assert(k * (stride - 1) == 0) by (nonlinear_arith)
            requires
                k == 0,
        ;
    }
}

/// The decoded rows of an image are built by appending: the rows decoded after
/// `k` scanlines are the start of those decoded after `h >= k` scanlines.
proof fn lemma_reconstructed_rows_prefix(data: Seq<u8>, stride: int, k: nat, h: nat)
    requires
        stride >= 1,
        k <= h,
        h * stride <= data.len(),
    ensures
        reconstructed_rows(data, stride, k) == reconstructed_rows(data, stride, h).subrange(
            0,
            k * (stride - 1),
        ),
    decreases h,
{
    lemma_reconstructed_rows_length(data, stride, h);
    let full = reconstructed_rows(data, stride, h);
    if k < h {
        assert((h - 1) * stride <= data.len() && (h - 1) * stride >= 0) by (nonlinear_arith)
            requires
                h * stride <= data.len(),
                h >= 1,
                stride >= 1,
        ;
        lemma_reconstructed_rows_prefix(data, stride, k, (h - 1) as nat);
        lemma_reconstructed_rows_length(data, stride, (h - 1) as nat);
        let before = reconstructed_rows(data, stride, (h - 1) as nat);
        assert(k * (stride - 1) <= (h - 1) * (stride - 1) && k * (stride - 1) >= 0)
            by (nonlinear_arith)
            requires
                k <= h - 1,
                stride >= 1,
                k >= 0,
        ;
        assert(full.subrange(0, before.len() as int) =~= before);
        assert(full.subrange(0, k * (stride - 1)) =~= before.subrange(0, k * (stride - 1)));
    } else {
        assert(full.subrange(0, k * (stride - 1)) =~= full);
    }
}

/// Row `r` of a decoded image is scanline `r` decoded with its own filter
/// against the decoded row above it, or against a zero row for the first row.
pub proof fn lemma_reconstructed_row(data: Seq<u8>, stride: int, h: nat, r: int)
    requires
        stride >= 1,
        h * stride <= data.len(),
        0 <= r < h,
    ensures
        ({
            let rows = reconstructed_rows(data, stride, h);
            let n = stride - 1;
            rows.subrange(r * n, (r + 1) * n) == unfilter_row(
                row_filter(data, stride, r),
                scanline(data, stride, r),
                if r == 0 {
                    zero_row(n)
                } else {
                    rows.subrange((r - 1) * n, r * n)
                },
            )
        }),
{
    let n = stride - 1;
    let rows = reconstructed_rows(data, stride, h);
    assert((r + 1) * stride <= data.len() && r * stride >= 0 && (r + 1) * stride == r * stride
        + stride) by (nonlinear_arith)
        requires
            h * stride <= data.len(),
            0 <= r < h,
            stride >= 1,
    ;
    assert((r + 1) * n == r * n + n && r * n >= 0 && (r - 1) * n == r * n - n) by (nonlinear_arith)
        requires
            n >= 0,
            r >= 0,
    ;
    lemma_reconstructed_rows_length(data, stride, h);
    assert((r + 1) * n <= h * n) by (nonlinear_arith)
        requires
            r + 1 <= h,
            n >= 0,
    ;
    lemma_reconstructed_rows_prefix(data, stride, (r + 1) as nat, h);
    lemma_reconstructed_rows_prefix(data, stride, r as nat, h);
    lemma_reconstructed_rows_length(data, stride, r as nat);
    let before = reconstructed_rows(data, stride, r as nat);
    let after = reconstructed_rows(data, stride, (r + 1) as nat);
    assert(r * n >= n || r == 0 || n == 0) by (nonlinear_arith)
        requires
            r >= 0,
            n >= 0,
    ;
    let prev = if before.len() == 0 {
        zero_row(n)
    } else {
        before.subrange(before.len() - n, before.len() as int)
    };
    let line = scanline(data, stride, r);
    let decoded = unfilter_row(row_filter(data, stride, r), line, prev);
    assert(line.len() == n);
    assert(prev.len() == n);
    lemma_unfilter_row_keeps_length(row_filter(data, stride, r), line, prev);
    assert(after == before + decoded);
    assert(rows.subrange(r * n, (r + 1) * n) =~= after.subrange(r * n, (r + 1) * n));
    assert(after.subrange(r * n, (r + 1) * n) =~= decoded);
    let above = if r == 0 {
        zero_row(n)
    } else {
        rows.subrange((r - 1) * n, r * n)
    };
    if r != 0 {
        assert(rows.subrange((r - 1) * n, r * n) =~= before.subrange(r * n - n, r * n));
    }
    assert(above =~= prev);
}

/// Each Sub-decoded byte is the filtered byte plus the decoded byte one pixel
/// to the left, modulo 256; the first pixel is copied.
pub proof fn lemma_sub_row_adds_left(line: Seq<u8>, i: int)
    requires
        0 <= i < line.len(),
    ensures
        sub_row(line).len() == line.len(),
        i < BYTES_PER_PIXEL ==> sub_row(line)[i] == line[i],
        i >= BYTES_PER_PIXEL ==> sub_row(line)[i] as int == (line[i] as int + sub_row(line)[i
            - BYTES_PER_PIXEL] as int) % 256,
{
}

/// Each Up-decoded byte is the filtered byte plus the byte above, modulo 256,
/// over the positions both lines have.
pub proof fn lemma_up_row_adds_above(line: Seq<u8>, prev: Seq<u8>, i: int)
    requires
        0 <= i < line.len(),
        i < prev.len(),
    ensures
        up_row(line, prev).len() == if line.len() <= prev.len() {
            line.len()
        } else {
            prev.len()
        },
        up_row(line, prev)[i] as int == (line[i] as int + prev[i] as int) % 256,
{
}

/// Each Avg-decoded byte is half the integer sum (not reduced modulo 256) of
/// the Up-decoded and Sub-decoded bytes at that position, plus the filtered
/// byte, modulo 256.
pub proof fn lemma_avg_row_halves_up_plus_sub(line: Seq<u8>, prev: Seq<u8>, i: int)
    requires
        0 <= i < line.len(),
        i < prev.len(),
    ensures
        avg_row(line, prev).len() == up_row(line, prev).len(),
        avg_row(line, prev)[i] as int == ((up_row(line, prev)[i] as int + sub_row(line)[i] as int)
            / 2 + line[i] as int) % 256,
{
    let v = (up_row(line, prev)[i] as int + sub_row(line)[i] as int) / 2 + line[i] as int;
    assert(0 <= v < 0x10000);
    let w = v as u16;
    assert((w as u8) as int == w % 256) by (bit_vector);
    assert(v as u8 == w as u8);
}

/// Each Paeth-decoded byte is the filtered byte plus, modulo 256, whichever of
/// the decoded byte to the left, the byte above and the byte above-left (zero
/// outside the line) lies closest to `left + up - above_left`; ties go to the
/// left byte, then to the byte above.
pub proof fn lemma_paeth_row_picks_closest(line: Seq<u8>, prev: Seq<u8>, i: int)
    requires
        prev.len() >= line.len(),
        0 <= i < line.len(),
    ensures
        ({
            let out = paeth_row(line, prev);
            let left: int = if i >= BYTES_PER_PIXEL {
                out[i - BYTES_PER_PIXEL] as int
            } else {
                0
            };
            let up: int = prev[i] as int;
            let diag: int = if i >= BYTES_PER_PIXEL {
                prev[i - BYTES_PER_PIXEL] as int
            } else {
                0
            };
            let p = left + up - diag;
            let dl = if p - left < 0 {
                left - p
            } else {
                p - left
            };
            let du = if p - up < 0 {
                up - p
            } else {
                p - up
            };
            let dd = if p - diag < 0 {
                diag - p
            } else {
                p - diag
            };
            &&& out.len() == line.len()
            &&& (dl <= du && dl <= dd) ==> out[i] as int == (line[i] as int + left) % 256
            &&& (du < dl && du <= dd) ==> out[i] as int == (line[i] as int + up) % 256
            &&& (dd < dl && dd < du) ==> out[i] as int == (line[i] as int + diag) % 256
        }),
{
}

} // verus!
