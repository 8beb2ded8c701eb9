use vstd::prelude::*;

use crate::qoi::chunk::{
    A_OFFSET, B_OFFSET, G_OFFSET, OP_DIFF, OP_INDEX, OP_LUMA, OP_RGB, OP_RGBA, OP_RUN, Pixel,
    QoiMetadata, R_OFFSET,
};
use crate::utils::in_range;

verus! {

/// The cache slot of a pixel: a weighted sum of its channels modulo 64.
pub open spec fn pixel_hash(r: u8, g: u8, b: u8, a: u8) -> int {
    (r * 3 + g * 5 + b * 7 + a * 11) % 64
}

/// The cache slot of a pixel.
pub fn index_position(r: u8, g: u8, b: u8, a: u8) -> (pos: u32)
    ensures
        pos == pixel_hash(r, g, b, a),
        pos < 64,
{
    (r as u32 * 3 + g as u32 * 5 + b as u32 * 7 + a as u32 * 11) % 64
}

/// The pixel all of whose channels are zero, which fills the cache at the start.
pub open spec fn blank_pixel() -> Pixel {
    Pixel { r: 0, g: 0, b: 0, a: 0 }
}

/// The pixel taken to precede the first one: opaque black.
pub open spec fn start_pixel() -> Pixel {
    Pixel { r: 0, g: 0, b: 0, a: 255 }
}

/// The state of the encoder between two pixels: the 64-slot pixel cache, the
/// previous pixel, the length of the current run of repeats and the bytes
/// emitted so far.
pub struct QoiState {
    pub cache: Seq<Pixel>,
    pub prev: Pixel,
    pub run: nat,
    pub bytes: Seq<u8>,
}

/// The state before the first pixel.
pub open spec fn start_state() -> QoiState {
    QoiState {
        cache: Seq::new(64, |i: int| blank_pixel()),
        prev: start_pixel(),
        run: 0,
        bytes: seq![],
    }
}

/// The chunk that ends a run of `run` repeats of the previous pixel.
pub open spec fn run_chunk(run: nat) -> u8 {
    OP_RUN | ((run - 1) as u8)
}

/// The channel difference of a pixel from the previous one, read as a signed byte.
pub open spec fn channel_diff(curr: u8, prev: u8) -> i8 {
    (curr - prev) as i8
}

/// The chunk holding three small channel differences.
pub open spec fn diff_chunk(rd: i8, gd: i8, bd: i8) -> u8 {
    OP_DIFF | (((rd + 2) as u8) << 4u8) | (((gd + 2) as u8) << 4u8) | (((bd + 2) as u8) << 4u8)
}

/// The first byte of a luma chunk, holding the green difference.
pub open spec fn luma_first(gd: i8) -> u8 {
    OP_LUMA | ((gd + 32) as u8)
}

/// The second byte of a luma chunk, holding the red and blue offsets from green.
pub open spec fn luma_second(rg: i8, bg: i8) -> u8 {
    (((rg + 8) as u8) << 4u8) | ((bg + 8) as u8)
}

/// The bytes that encode a pixel that is neither a repeat nor found in the
/// cache, given the previous pixel.
pub open spec fn literal_chunks(prev: Pixel, curr: Pixel) -> Seq<u8> {
    if prev.a == curr.a {
        let rd = channel_diff(curr.r, prev.r);
        let gd = channel_diff(curr.g, prev.g);
        let bd = channel_diff(curr.b, prev.b);
        let rg = rd - gd;
        let bg = bd - gd;
        if -3 < rd < 2 && -3 < gd < 2 && -3 < bd < 2 {
            seq![diff_chunk(rd, gd, bd)]
        } else if -9 < rg < 8 && -33 < gd < 32 && -9 < bg < 8 {
            seq![luma_first(gd), luma_second(rg as i8, bg as i8)]
        } else {
            seq![OP_RGB, curr.r, curr.g, curr.b]
        }
    } else {
        seq![OP_RGBA, curr.r, curr.g, curr.b, curr.a]
    }
}

/// The state after encoding pixel `curr`; `last` tells whether it is the last pixel.
pub open spec fn qoi_step(st: QoiState, curr: Pixel, last: bool) -> QoiState {
    if curr == st.prev {
        let run = st.run + 1;
        if run == 62 || last {
            QoiState { cache: st.cache, prev: curr, run: 0, bytes: st.bytes.push(run_chunk(run)) }
        } else {
            QoiState { cache: st.cache, prev: curr, run: run, bytes: st.bytes }
        }
    } else {
        let slot = pixel_hash(curr.r, curr.g, curr.b, curr.a);
        if st.run > 0 {
            QoiState {
                cache: st.cache,
                prev: curr,
                run: 0,
                bytes: st.bytes.push(run_chunk(st.run)),
            }
        } else if st.cache[slot] == curr {
            QoiState { cache: st.cache, prev: curr, run: 0, bytes: st.bytes.push(OP_INDEX | (slot as u8)) }
        } else {
            QoiState {
                cache: st.cache.update(slot, curr),
                prev: curr,
                run: 0,
                bytes: st.bytes + literal_chunks(st.prev, curr),
            }
        }
    }
}

/// Whether encoding pixel `curr` from state `st` stays within the byte
/// arithmetic of the encoder: where the pixel is written as differences, each
/// channel is at least the previous pixel's, and the red and blue differences
/// from green fit a signed byte.
pub open spec fn qoi_step_ok(st: QoiState, curr: Pixel) -> bool {
    let slot = pixel_hash(curr.r, curr.g, curr.b, curr.a);
    (curr != st.prev && st.run == 0 && st.cache[slot] != curr && st.prev.a == curr.a) ==> {
        &&& curr.r >= st.prev.r
        &&& curr.g >= st.prev.g
        &&& curr.b >= st.prev.b
        &&& -128 <= channel_diff(curr.r, st.prev.r) - channel_diff(curr.g, st.prev.g) <= 127
        &&& -128 <= channel_diff(curr.b, st.prev.b) - channel_diff(curr.g, st.prev.g) <= 127
    }
}

/// The state after encoding the first `k` pixels.
pub open spec fn qoi_run(pixels: Seq<Pixel>, k: nat) -> QoiState
    decreases k,
{
    if k == 0 {
        start_state()
    } else {
        qoi_step(qoi_run(pixels, (k - 1) as nat), pixels[k - 1], k == pixels.len())
    }
}

/// Whether encoding the first `k` pixels stays within the byte arithmetic of the encoder.
pub open spec fn qoi_run_ok(pixels: Seq<Pixel>, k: nat) -> bool
    decreases k,
{
    k == 0 || (qoi_run_ok(pixels, (k - 1) as nat) && qoi_step_ok(
        qoi_run(pixels, (k - 1) as nat),
        pixels[k - 1],
    ))
}

/// The `n` pixels of raw image bytes, pixel `k` read from the four bytes at
/// `k * channels`.
pub open spec fn qoi_pixels(raw: Seq<u8>, channels: int, n: int) -> Seq<Pixel> {
    Seq::new(
        n as nat,
        |k: int|
            Pixel {
                r: raw[k * channels + R_OFFSET],
                g: raw[k * channels + G_OFFSET],
                b: raw[k * channels + B_OFFSET],
                a: raw[k * channels + A_OFFSET],
            },
    )
}

/// The number of pixels that a header describes.
pub open spec fn pixel_count(header: QoiMetadata) -> int {
    header.width * header.height
}

/// The inputs that the encoder accepts: a non-zero channel count, a byte count
/// `width * height * channels` that fits in 32 bits, four bytes readable at the
/// start of every pixel, and pixels whose encoding stays within its byte arithmetic.
pub open spec fn qoi_input_ok(raw: Seq<u8>, header: QoiMetadata) -> bool {
    let n = pixel_count(header);
    &&& header.channels > 0
    &&& n * header.channels <= u32::MAX
    &&& n > 0 ==> (n - 1) * header.channels + 4 <= raw.len()
    &&& qoi_run_ok(qoi_pixels(raw, header.channels as int, n), n as nat)
}

fn diff_chunk_byte(rd: i8, gd: i8, bd: i8) -> (r: u8)
    requires
        -3 < rd < 2,
        -3 < gd < 2,
        -3 < bd < 2,
    ensures
        r == diff_chunk(rd, gd, bd),
{
    OP_DIFF | (((rd + 2) as u8) << 4u8) | (((gd + 2) as u8) << 4u8) | (((bd + 2) as u8) << 4u8)
}

fn luma_chunk_bytes(gd: i8, rg: i8, bg: i8) -> (r: (u8, u8))
    requires
        -33 < gd < 32,
        -9 < rg < 8,
        -9 < bg < 8,
    ensures
        r.0 == luma_first(gd),
        r.1 == luma_second(rg, bg),
{
    (OP_LUMA | ((gd + 32) as u8), (((rg + 8) as u8) << 4u8) | ((bg + 8) as u8))
}

/// Encodes the pixels of `raw_bytes` into the QOI chunk stream that follows the
/// header: `width * height` pixels, the one at byte `k * channels` being the
/// four bytes there.
pub fn encode_pixels(raw_bytes: &[u8], header: &QoiMetadata) -> (r: Vec<u8>)
    requires
        qoi_input_ok(raw_bytes@, *header),
    ensures
        r@ == qoi_run(
            qoi_pixels(raw_bytes@, header.channels as int, pixel_count(*header)),
            pixel_count(*header) as nat,
        ).bytes,
{
    let ghost n: int = pixel_count(*header);
    let ghost pixels = qoi_pixels(raw_bytes@, header.channels as int, n);
    let ghost cc: int = header.channels as int;
    let mut buffer: Vec<u8> = Vec::new();
    let mut cache: Vec<Pixel> = Vec::new();
    while cache.len() < 64
        invariant
            cache@.len() <= 64,
            forall|j: int| 0 <= j < cache@.len() ==> cache@[j] == blank_pixel(),
        decreases 64 - cache.len(),
    {
        cache.push(Pixel::default());
    }
    assert(cache@ =~= start_state().cache);
    let mut prev_pixel = Pixel { r: 0, g: 0, b: 0, a: 255 };
    let mut curr_streak: u8 = 0;
    let channels = header.channels as usize;
    assert(header.width * header.height * header.channels <= u32::MAX) by (nonlinear_arith)
        requires
            n == header.width * header.height,
            n * header.channels <= u32::MAX,
    ;
    assert(header.width * header.height <= u32::MAX) by (nonlinear_arith)
        requires
            header.width * header.height * header.channels <= u32::MAX,
            header.channels > 0,
    ;
    let total_bytes = (header.width * header.height * header.channels as u32) as usize;
    let mut i: usize = 0;
    let ghost mut k: int = 0;
    while i < total_bytes
        invariant
            n == pixel_count(*header),
            cc == header.channels,
            channels == cc,
            pixels == qoi_pixels(raw_bytes@, cc, n),
            qoi_input_ok(raw_bytes@, *header),
            total_bytes == n * cc,
            0 <= k <= n,
            i == k * cc,
            qoi_run_ok(pixels, n as nat),
            cache@ == qoi_run(pixels, k as nat).cache,
            prev_pixel == qoi_run(pixels, k as nat).prev,
            curr_streak == qoi_run(pixels, k as nat).run,
            buffer@ == qoi_run(pixels, k as nat).bytes,
            cache@.len() == 64,
            curr_streak < 62,
        decreases total_bytes - i,
    {
        assert(k < n) by (nonlinear_arith)
            requires
                i == k * cc,
                i < total_bytes,
                total_bytes == n * cc,
                cc > 0,
        ;
        assert(i + 4 <= raw_bytes@.len() && i + channels <= total_bytes) by (nonlinear_arith)
            requires
                i == k * cc,
                0 <= k < n,
                (n - 1) * cc + 4 <= raw_bytes@.len(),
                total_bytes == n * cc,
                channels == cc,
        ;
        let curr_pixel = Pixel {
            r: raw_bytes[i + R_OFFSET],
            g: raw_bytes[i + G_OFFSET],
            b: raw_bytes[i + B_OFFSET],
            a: raw_bytes[i + A_OFFSET],
        };
        let ghost st = qoi_run(pixels, k as nat);
        assert(curr_pixel == pixels[k]);
        proof {
            lemma_run_ok_prefix(pixels, (k + 1) as nat, n as nat);
        }
        assert(qoi_step_ok(st, curr_pixel));
        if curr_pixel == prev_pixel {
            curr_streak += 1;
            if curr_streak == 62 || i == (total_bytes - channels) {
                assert((i == total_bytes - channels) == (k + 1 == n)) by (nonlinear_arith)
                    requires
                        i == k * cc,
                        total_bytes == n * cc,
                        channels == cc,
                        cc > 0,
                ;
                buffer.push(OP_RUN | (curr_streak - 1));
                curr_streak = 0;
            } else {
                assert(k + 1 != n) by (nonlinear_arith)
                    requires
                        i == k * cc,
                        i != total_bytes - channels,
                        total_bytes == n * cc,
                        channels == cc,
                ;
            }
        } else {
            let cache_idx = index_position(curr_pixel.r, curr_pixel.g, curr_pixel.b, curr_pixel.a)
                as usize;
            if curr_streak > 0 {
                buffer.push(OP_RUN | (curr_streak - 1));
                curr_streak = 0;
            } else if cache[cache_idx] == curr_pixel {
                buffer.push(OP_INDEX | cache_idx as u8);
            } else {
                cache.set(cache_idx, curr_pixel);
                if prev_pixel.a == curr_pixel.a {
                    let r_diff = (curr_pixel.r - prev_pixel.r) as i8;
                    let g_diff = (curr_pixel.g - prev_pixel.g) as i8;
                    let b_diff = (curr_pixel.b - prev_pixel.b) as i8;
                    let rg_diff = r_diff - g_diff;
                    let bg_diff = b_diff - g_diff;
                    if in_range(r_diff, -3, 2) && in_range(g_diff, -3, 2) && in_range(b_diff, -3, 2) {
                        buffer.push(diff_chunk_byte(r_diff, g_diff, b_diff));
                    } else if in_range(rg_diff, -9, 8) && in_range(g_diff, -33, 32) && in_range(
                        bg_diff,
                        -9,
                        8,
                    ) {
                        let (first, second) = luma_chunk_bytes(g_diff, rg_diff, bg_diff);
                        buffer.push(first);
                        buffer.push(second);
                    } else {
                        buffer.push(OP_RGB);
                        buffer.push(curr_pixel.r);
                        buffer.push(curr_pixel.g);
                        buffer.push(curr_pixel.b);
                    }
                } else {
                    buffer.push(OP_RGBA);
                    buffer.push(curr_pixel.r);
                    buffer.push(curr_pixel.g);
                    buffer.push(curr_pixel.b);
                    buffer.push(curr_pixel.a);
                }
            }
        }
        prev_pixel = curr_pixel;
        assert(buffer@ =~= qoi_run(pixels, (k + 1) as nat).bytes);
        proof {
            k = k + 1;
        }
        i = i + channels;
        assert(i == k * cc) by (nonlinear_arith)
            requires
                i == (k - 1) * cc + cc,
        ;
    }
    assert(k == n) by (nonlinear_arith)
        requires
            i == k * cc,
            i >= total_bytes,
            total_bytes == n * cc,
            cc > 0,
            k <= n,
    ;
    buffer
}

/// Whether `encode_pixels` accepts the raw bytes and header (see `qoi_input_ok`):
/// it follows the cache, the previous pixel and the run length through the
/// pixels without emitting any bytes.
pub fn encode_pixels_accepts(raw_bytes: &[u8], header: &QoiMetadata) -> (r: bool)
    ensures
        r == qoi_input_ok(raw_bytes@, *header),
{
    if header.channels == 0 {
        return false;
    }
    assert(header.width * header.height <= 0x1_0000_0000 * 0x1_0000_0000) by (nonlinear_arith)
        requires
            header.width <= 0xffff_ffff,
            header.height <= 0xffff_ffff,
    ;
    let count: u128 = header.width as u128 * header.height as u128;
    assert(count * header.channels <= 0x1_0000_0000 * 0x1_0000_0000 * 0x100) by (nonlinear_arith)
        requires
            count == header.width * header.height,
            header.width <= 0xffff_ffff,
            header.height <= 0xffff_ffff,
            header.channels <= 0xff,
    ;
    if count * (header.channels as u128) > 0xffff_ffff {
        return false;
    }
    let ghost n: int = pixel_count(*header);
    let ghost cc: int = header.channels as int;
    let ghost pixels = qoi_pixels(raw_bytes@, cc, n);
    assert(count <= 0xffff_ffff) by (nonlinear_arith)
        requires
            count * cc <= 0xffff_ffff,
            cc >= 1,
    ;
    let n_pixels = count as usize;
    let channels = header.channels as usize;
    if n_pixels > 0 {
        assert((n - 1) * cc + 4 <= 0xffff_ffff + 4) by (nonlinear_arith)
            requires
                n * cc <= 0xffff_ffff,
                n >= 1,
                cc >= 1,
        ;
        let last_start = (count - 1) * (header.channels as u128) + 4;
        if last_start > raw_bytes.len() as u128 {
            return false;
        }
    }
    let mut cache: Vec<Pixel> = Vec::new();
    while cache.len() < 64
        invariant
            cache@.len() <= 64,
            forall|j: int| 0 <= j < cache@.len() ==> cache@[j] == blank_pixel(),
        decreases 64 - cache.len(),
    {
        cache.push(Pixel::default());
    }
    assert(cache@ =~= start_state().cache);
    let mut prev_pixel = Pixel { r: 0, g: 0, b: 0, a: 255 };
    let mut run: u8 = 0;
    let mut k: usize = 0;
    while k < n_pixels
        invariant
            n == pixel_count(*header),
            n == n_pixels,
            cc == header.channels,
            cc == channels,
            cc >= 1,
            n * cc <= u32::MAX,
            n > 0 ==> (n - 1) * cc + 4 <= raw_bytes@.len(),
            pixels == qoi_pixels(raw_bytes@, cc, n),
            k <= n,
            qoi_run_ok(pixels, k as nat),
            cache@ == qoi_run(pixels, k as nat).cache,
            prev_pixel == qoi_run(pixels, k as nat).prev,
            run == qoi_run(pixels, k as nat).run,
            cache@.len() == 64,
            run < 62,
        decreases n - k,
    {
        assert(k * cc + 4 <= raw_bytes@.len() && k * cc <= u32::MAX) by (nonlinear_arith)
            requires
                0 <= k < n,
                cc >= 1,
                (n - 1) * cc + 4 <= raw_bytes@.len(),
                n * cc <= u32::MAX,
        ;
        let i = k * channels;
        let curr = Pixel {
            r: raw_bytes[i + R_OFFSET],
            g: raw_bytes[i + G_OFFSET],
            b: raw_bytes[i + B_OFFSET],
            a: raw_bytes[i + A_OFFSET],
        };
        assert(curr == pixels[k as int]);
        let ghost st = qoi_run(pixels, k as nat);
        let slot = index_position(curr.r, curr.g, curr.b, curr.a) as usize;
        if curr != prev_pixel && run == 0 && cache[slot] != curr && prev_pixel.a == curr.a {
            if curr.r < prev_pixel.r || curr.g < prev_pixel.g || curr.b < prev_pixel.b {
                assert(!qoi_run_ok(pixels, n as nat)) by {
                    if qoi_run_ok(pixels, n as nat) {
                        lemma_run_ok_prefix(pixels, (k + 1) as nat, n as nat);
                    }
                }
                return false;
            }
            let rd = (curr.r - prev_pixel.r) as i8 as i32;
            let gd = (curr.g - prev_pixel.g) as i8 as i32;
            let bd = (curr.b - prev_pixel.b) as i8 as i32;
            if rd - gd < -128 || rd - gd > 127 || bd - gd < -128 || bd - gd > 127 {
                assert(!qoi_run_ok(pixels, n as nat)) by {
                    if qoi_run_ok(pixels, n as nat) {
                        lemma_run_ok_prefix(pixels, (k + 1) as nat, n as nat);
                    }
                }
                return false;
            }
        }
        assert(qoi_step_ok(st, curr));
        if curr == prev_pixel {
            if run + 1 == 62 || k + 1 == n_pixels {
                run = 0;
            } else {
                run = run + 1;
            }
        } else {
            if run > 0 {
                run = 0;
            } else if cache[slot] != curr {
                cache.set(slot, curr);
            }
        }
        prev_pixel = curr;
        k = k + 1;
        assert(cache@ =~= qoi_run(pixels, k as nat).cache);
    }
    true
}

/// A run of encoding steps that stays within the byte arithmetic also does so
/// on every prefix.
proof fn lemma_run_ok_prefix(pixels: Seq<Pixel>, j: nat, k: nat)
    requires
        j <= k,
        qoi_run_ok(pixels, k),
    ensures
        qoi_run_ok(pixels, j),
    decreases k,
{
    if j < k {
        lemma_run_ok_prefix(pixels, j, (k - 1) as nat);
    }
}

/// Whether the encoder state is well formed: 64 cache slots, each either blank
/// or holding a pixel that hashes to it, and a run shorter than 62.
pub open spec fn qoi_state_wf(st: QoiState) -> bool {
    &&& st.cache.len() == 64
    &&& forall|i: int|
        0 <= i < 64 ==> #[trigger] st.cache[i] == blank_pixel() || pixel_hash(
            st.cache[i].r,
            st.cache[i].g,
            st.cache[i].b,
            st.cache[i].a,
        ) == i
    &&& st.run < 62
}

/// Every state that the encoder passes through is well formed: a cached pixel
/// always sits in its own hash slot, and a run never reaches 62 repeats, so a
/// run chunk never collides with the `OP_RGB` and `OP_RGBA` tags.
pub proof fn lemma_qoi_run_wf(pixels: Seq<Pixel>, k: nat)
    requires
        k <= pixels.len(),
    ensures
        qoi_state_wf(qoi_run(pixels, k)),
    decreases k,
{
    if k > 0 {
        lemma_qoi_run_wf(pixels, (k - 1) as nat);
        let st = qoi_run(pixels, (k - 1) as nat);
        let curr = pixels[k - 1];
        let slot = pixel_hash(curr.r, curr.g, curr.b, curr.a);
        let next = qoi_run(pixels, k);
        assert forall|i: int| 0 <= i < 64 implies #[trigger] next.cache[i] == blank_pixel()
            || pixel_hash(next.cache[i].r, next.cache[i].g, next.cache[i].b, next.cache[i].a)
            == i by {
            assert(st.cache[i] == blank_pixel() || pixel_hash(
                st.cache[i].r,
                st.cache[i].g,
                st.cache[i].b,
                st.cache[i].a,
            ) == i);
        }
    } else {
        assert forall|i: int| 0 <= i < 64 implies #[trigger] start_state().cache[i]
            == blank_pixel() by {}
    }
}

/// Once every pixel has been encoded no run is left pending: the last pixel
/// always ends the current run.
pub proof fn lemma_qoi_no_pending_run(pixels: Seq<Pixel>)
    requires
        pixels.len() > 0,
    ensures
        qoi_run(pixels, pixels.len()).run == 0,
{
}

/// Every run chunk the encoder emits lies between `0xc0` and `0xfd`, below the `OP_RGB` and `OP_RGBA` tags.
pub proof fn lemma_run_chunk_range(run: nat)
    requires
        1 <= run <= 62,
    ensures
        0xc0 <= run_chunk(run) <= 0xfd,
{
    let v = (run - 1) as u8;
    assert(v <= 61);
    assert(0xc0 <= (0xc0u8 | v) <= 0xfd) by (bit_vector)
        requires
            v <= 61,
    ;
}

/// After each pixel, whatever chunk encoded it, the encoder's previous pixel
/// is that pixel.
pub proof fn lemma_qoi_prev_is_last_pixel(pixels: Seq<Pixel>, k: int)
    requires
        0 <= k < pixels.len(),
    ensures
        qoi_run(pixels, (k + 1) as nat).prev == pixels[k],
{
}

/// The difference `curr - prev` of two channel bytes with `curr >= prev`, read
/// as a signed byte, is that difference or that difference less 256.
proof fn lemma_channel_diff_value(curr: u8, prev: u8)
    requires
        curr >= prev,
    ensures
        channel_diff(curr, prev) as int == if curr - prev >= 128 {
            curr - prev - 256
        } else {
            curr - prev
        },
{
    assert(((curr - prev) as i8) as int == if curr - prev >= 128 {
        curr - prev - 256
    } else {
        curr - prev
    }) by (bit_vector)
        requires
            curr >= prev,
    ;
}

/// A luma chunk decodes back to the pixel: its first byte carries the tag
/// `10` and the green difference plus 32, the high and low nibbles of its
/// second byte carry the red and blue differences from green plus 8, so
/// adding them to the previous pixel gives the current red, green and blue,
/// modulo 256.
pub proof fn lemma_luma_chunk_decodes(prev: Pixel, curr: Pixel)
    requires
        prev.a == curr.a,
        curr.r >= prev.r,
        curr.g >= prev.g,
        curr.b >= prev.b,
        ({
            let dr: int = if curr.r - prev.r >= 128 {
                curr.r - prev.r - 256
            } else {
                curr.r - prev.r
            };
            let dg: int = if curr.g - prev.g >= 128 {
                curr.g - prev.g - 256
            } else {
                curr.g - prev.g
            };
            let db: int = if curr.b - prev.b >= 128 {
                curr.b - prev.b - 256
            } else {
                curr.b - prev.b
            };
            &&& !(-3 < dr < 2 && -3 < dg < 2 && -3 < db < 2)
            &&& -9 < dr - dg < 8
            &&& -33 < dg < 32
            &&& -9 < db - dg < 8
        }),
    ensures
        ({
            let bytes = literal_chunks(prev, curr);
            &&& bytes.len() == 2
            &&& bytes[0] >> 6u8 == 2
            &&& (prev.g + (bytes[0] & 0x3f) - 32) % 256 == curr.g
            &&& (prev.r + (bytes[0] & 0x3f) - 32 + (bytes[1] >> 4u8) - 8) % 256 == curr.r
            &&& (prev.b + (bytes[0] & 0x3f) - 32 + (bytes[1] & 0x0f) - 8) % 256 == curr.b
        }),
{
    lemma_channel_diff_value(curr.r, prev.r);
    lemma_channel_diff_value(curr.g, prev.g);
    lemma_channel_diff_value(curr.b, prev.b);
    let rd = channel_diff(curr.r, prev.r);
    let gd = channel_diff(curr.g, prev.g);
    let bd = channel_diff(curr.b, prev.b);
    let g6 = (gd + 32) as u8;
    let rn = ((rd - gd) as i8 + 8) as u8;
    let bn = ((bd - gd) as i8 + 8) as u8;
    assert(g6 as int == gd + 32);
    assert(rn as int == rd - gd + 8);
    assert(bn as int == bd - gd + 8);
    let b0 = OP_LUMA | g6;
    let b1 = (rn << 4u8) | bn;
    assert(b0 >> 6u8 == 2 && b0 & 0x3f == g6) by (bit_vector)
        requires
            g6 < 64,
            b0 == 0x80u8 | g6,
    ;
    assert(b1 >> 4u8 == rn && b1 & 0x0f == bn) by (bit_vector)
        requires
            rn < 16,
            bn < 16,
            b1 == (rn << 4u8) | bn,
    ;
    let bytes = literal_chunks(prev, curr);
    assert(bytes[0] == b0);
    assert(bytes[1] == b1);
}

} // verus!
