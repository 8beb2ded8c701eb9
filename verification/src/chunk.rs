use vstd::prelude::*;
use vstd::std_specs::cmp::PartialEqSpec;
use vstd::utf8::{decode_utf8, decode_utf8_encode_utf8, encode_utf8, valid_utf8};

use crate::error::DecodeError;
use crate::utils::big_endian_u32;

verus! {

const CHUNK_LENGTH_OFFSET: usize = 4;

const CHUNK_TYPE_OFFSET: usize = 4;

const CRC_OFFSET: usize = 4;

const PNG_HEADER_OFFSET: usize = 8;

/// One chunk of a PNG file: its data length, its four-character type, its data
/// and its CRC.
#[derive(Debug, Default)]
pub struct Chunk {
    pub length: u32,
    pub data_type: String,
    pub data: Vec<u8>,
    pub cyclic_redundancy_check: u32,
}

/// The mathematical content of a chunk.
pub struct ChunkSpec {
    pub length: u32,
    pub data_type: Seq<char>,
    pub data: Seq<u8>,
    pub cyclic_redundancy_check: u32,
}

impl View for Chunk {
    type V = ChunkSpec;

    open spec fn view(&self) -> ChunkSpec {
        ChunkSpec {
            length: self.length,
            data_type: self.data_type@,
            data: self.data@,
            cyclic_redundancy_check: self.cyclic_redundancy_check,
        }
    }
}

/// The contents of a sequence of chunks.
pub open spec fn chunk_specs(chunks: Seq<Chunk>) -> Seq<ChunkSpec> {
    chunks.map_values(|c: Chunk| c@)
}

/// The eight bytes that every PNG file starts with.
pub open spec fn png_signature() -> Seq<u8> {
    seq![137u8, 80, 78, 71, 13, 10, 26, 10]
}

/// The data length that the chunk starting at `idx` declares.
pub open spec fn chunk_length_at(s: Seq<u8>, idx: int) -> int {
    big_endian_u32(s.subrange(idx, idx + 4))
}

/// Where the chunk starting at `idx` ends: after its length, type, data and CRC.
pub open spec fn chunk_end(s: Seq<u8>, idx: int) -> int {
    idx + 12 + chunk_length_at(s, idx)
}

/// The four type bytes of the chunk starting at `idx`.
pub open spec fn chunk_type_bytes(s: Seq<u8>, idx: int) -> Seq<u8> {
    s.subrange(idx + 4, idx + 8)
}

/// The chunk starting at `idx`.
pub open spec fn chunk_at(s: Seq<u8>, idx: int) -> ChunkSpec {
    let len = chunk_length_at(s, idx);
    ChunkSpec {
        length: len as u32,
        data_type: decode_utf8(chunk_type_bytes(s, idx)),
        data: s.subrange(idx + 8, idx + 8 + len),
        cyclic_redundancy_check: big_endian_u32(s.subrange(idx + 8 + len, idx + 12 + len)) as u32,
    }
}

/// The chunks laid end to end from `idx` to the end of `s`.
pub open spec fn chunks_from(s: Seq<u8>, idx: int) -> Seq<ChunkSpec>
    decreases s.len() - idx,
{
    if idx < 0 || idx >= s.len() {
        seq![]
    } else {
        let end = chunk_end(s, idx);
        seq![chunk_at(s, idx)] + if idx < end < s.len() {
            chunks_from(s, end)
        } else {
            seq![]
        }
    }
}

/// Whether the bytes from `idx` on are a sequence of complete chunks whose
/// type bytes are UTF-8.
pub open spec fn chunks_well_formed(s: Seq<u8>, idx: int) -> bool
    decreases s.len() - idx,
{
    if idx < 0 || idx >= s.len() {
        true
    } else {
        let end = chunk_end(s, idx);
        &&& idx + 8 <= s.len()
        &&& valid_utf8(chunk_type_bytes(s, idx))
        &&& end <= s.len()
        &&& (end < s.len() ==> chunks_well_formed(s, end))
    }
}

/// Whether two slices have the same length and pairwise equal elements.
pub fn compare_vecs<T: PartialEq>(v1: &[T], v2: &[T]) -> (r: bool)
    ensures
        T::obeys_eq_spec() ==> (r <==> (v1@.len() == v2@.len() && forall|i: int|
            0 <= i < v1@.len() ==> #[trigger] v1@[i].eq_spec(&v2@[i]))),
{
    let n = if v1.len() <= v2.len() {
        v1.len()
    } else {
        v2.len()
    };
    let mut matching: usize = 0;
    let mut i: usize = 0;
    while i < n
        invariant
            n <= v1@.len(),
            n <= v2@.len(),
            n == v1@.len() || n == v2@.len(),
            i <= n,
            matching <= i,
            T::obeys_eq_spec() ==> (matching == i <==> forall|j: int|
                0 <= j < i ==> #[trigger] v1@[j].eq_spec(&v2@[j])),
        decreases n - i,
    {
        if v1[i] == v2[i] {
            matching = matching + 1;
        }
        i = i + 1;
    }
    matching == v1.len() && matching == v2.len()
}

/// Wraps `std::str::from_utf8`: the string that the bytes encode in UTF-8, or
/// `None` where they are not valid UTF-8 (vstd's `valid_utf8` and `decode_utf8`).
#[verifier::external_body]
fn str_from_utf8(bytes: &[u8]) -> (r: Option<&str>)
    ensures
        r is Some <==> valid_utf8(bytes@),
        r matches Some(s) ==> s@ == decode_utf8(bytes@),
{
    std::str::from_utf8(bytes).ok()
}

/// Reads the first four bytes of `bytes` as a big-endian `u32`.
pub fn combine_bytes(bytes: &[u8]) -> (r: u32)
    requires
        bytes@.len() >= 4,
    ensures
        r == big_endian_u32(bytes@),
{
    let one = bytes[0] as u32;
    let two = bytes[1] as u32;
    let three = bytes[2] as u32;
    let four = bytes[3] as u32;
    assert((one << 24 | two << 16 | three << 8 | four) == one * 0x100_0000 + two * 0x1_0000
        + three * 0x100 + four) by (bit_vector)
        requires
            one < 256,
            two < 256,
            three < 256,
            four < 256,
    ;
    one << 24 | two << 16 | three << 8 | four
}

/// Whether the first eight bytes are the PNG signature.
fn has_png_signature(image_bytes: &[u8]) -> (r: bool)
    requires
        image_bytes@.len() >= 8,
    ensures
        r == (image_bytes@.subrange(0, 8) == png_signature()),
{
    let signature: Vec<u8> = vec![137, 80, 78, 71, 13, 10, 26, 10];
    assert(signature@ =~= png_signature());
    let r = compare_vecs(&image_bytes[0..PNG_HEADER_OFFSET], signature.as_slice());
    if r {
        assert forall|i: int| 0 <= i < 8 implies image_bytes@.subrange(0, 8)[i]
            == png_signature()[i] by {
            assert(image_bytes@.subrange(0, 8)[i].eq_spec(&signature@[i]));
        }
        assert(image_bytes@.subrange(0, 8) =~= png_signature());
    } else {
        proof {
            if image_bytes@.subrange(0, 8) == png_signature() {
                assert(forall|i: int|
                    0 <= i < 8 ==> #[trigger] image_bytes@.subrange(0, 8)[i].eq_spec(
                        &signature@[i],
                    ));
            }
        }
    }
    r
}

/// Whether `extract_chunks` accepts the bytes: they hold the eight signature
/// bytes, and where the signature matches, the rest is a sequence of complete
/// chunks with UTF-8 type bytes.
pub fn extract_chunks_accepts(image_bytes: &[u8]) -> (r: bool)
    ensures
        r == (image_bytes@.len() >= 8 && (image_bytes@.subrange(0, 8) == png_signature()
            ==> chunks_well_formed(image_bytes@, 8))),
{
    if image_bytes.len() < PNG_HEADER_OFFSET {
        return false;
    }
    if !has_png_signature(image_bytes) {
        return true;
    }
    let ghost s = image_bytes@;
    let size = image_bytes.len();
    let mut idx = PNG_HEADER_OFFSET;
    while idx < size
        invariant
            s == image_bytes@,
            size == s.len(),
            8 <= idx <= size,
            s.subrange(0, 8) == png_signature(),
            chunks_well_formed(s, idx as int) == chunks_well_formed(s, 8),
        decreases size - idx,
    {
        if size - idx < 12 {
            return false;
        }
        if str_from_utf8(&image_bytes[idx + 4..idx + 8]).is_none() {
            return false;
        }
        let chunk_length = combine_bytes(&image_bytes[idx..idx + 4]) as usize;
        assert(image_bytes@.subrange(idx as int, idx + 4) == s.subrange(idx as int, idx + 4));
        if chunk_length > size - idx - 12 {
            return false;
        }
        idx = idx + 12 + chunk_length;
    }
    true
}

/// Splits a PNG file into its chunks, after checking its signature.
pub fn extract_chunks(image_bytes: &[u8]) -> (r: Result<Vec<Chunk>, DecodeError>)
    requires
        image_bytes@.len() >= 8,
        image_bytes@.subrange(0, 8) == png_signature() ==> chunks_well_formed(image_bytes@, 8),
    ensures
        r is Err <==> image_bytes@.subrange(0, 8) != png_signature(),
        r matches Err(e) ==> e == DecodeError::NotAPngFile,
        r matches Ok(chunks) ==> chunk_specs(chunks@) == chunks_from(image_bytes@, 8),
{
    if !has_png_signature(image_bytes) {
        return Err(DecodeError::NotAPngFile);
    }
    let ghost s = image_bytes@;
    let mut chunks: Vec<Chunk> = Vec::new();
    let mut idx = PNG_HEADER_OFFSET;
    let size = image_bytes.len();
    while idx < size
        invariant
            s == image_bytes@,
            size == s.len(),
            8 <= idx <= size,
            chunks_well_formed(s, idx as int),
            chunk_specs(chunks@) + chunks_from(s, idx as int) == chunks_from(s, 8),
        decreases size - idx,
    {
        let ghost start = idx as int;
        let chunk_length = combine_bytes(&image_bytes[idx..(idx + CHUNK_LENGTH_OFFSET)]);
        assert(image_bytes@.subrange(start, start + 4) == s.subrange(start, start + 4));
        idx += CHUNK_LENGTH_OFFSET;
        let chunk_type = str_from_utf8(&image_bytes[idx..(idx + CHUNK_TYPE_OFFSET)]).unwrap();
        idx += CHUNK_TYPE_OFFSET;
        let chunk_data_slice = &image_bytes[idx..(idx + (chunk_length as usize))];
        let chunk_data_buffer = vstd::slice::slice_to_vec(chunk_data_slice);
        idx += chunk_length as usize;
        let crc = combine_bytes(&image_bytes[idx..(idx + CRC_OFFSET)]);
        idx += CRC_OFFSET;
        let curr_chunk = Chunk {
            length: chunk_length,
            data_type: String::from_str(chunk_type),
            data: chunk_data_buffer,
            cyclic_redundancy_check: crc,
        };
        let ghost before = chunks@;
        chunks.push(curr_chunk);
        proof {
            assert(curr_chunk@ == chunk_at(s, start));
            assert(chunks_from(s, start) == seq![chunk_at(s, start)] + chunks_from(s, idx as int));
            assert(chunk_specs(chunks@) =~= chunk_specs(before) + seq![chunk_at(s, start)]);
            assert(chunk_specs(chunks@) + chunks_from(s, idx as int) =~= chunk_specs(before)
                + chunks_from(s, start));
        }
    }
    assert(chunks_from(s, idx as int) =~= seq![]);
    assert(chunk_specs(chunks@) + chunks_from(s, idx as int) =~= chunk_specs(chunks@));
    Ok(chunks)
}

/// The type of the chunks that carry compressed image data.
pub open spec fn idat_type() -> Seq<char> {
    seq!['I', 'D', 'A', 'T']
}

/// The data of the `IDAT` chunks among `chunks`, concatenated in order.
pub open spec fn idat_data(chunks: Seq<ChunkSpec>) -> Seq<u8>
    decreases chunks.len(),
{
    if chunks.len() == 0 {
        seq![]
    } else {
        let last = chunks.last();
        idat_data(chunks.drop_last()) + if last.data_type == idat_type() {
            last.data
        } else {
            seq![]
        }
    }
}

/// Concatenates the data of the `IDAT` chunks, in order.
pub fn combine_chunk_data(chunks: &[Chunk]) -> (r: Vec<u8>)
    ensures
        r@ == idat_data(chunk_specs(chunks@)),
{
    let idat = String::from_str("IDAT");
    proof {
        reveal_strlit("IDAT");
    }
    assert(idat@ =~= idat_type());
    let mut buffer: Vec<u8> = Vec::new();
    let mut k: usize = 0;
    while k < chunks.len()
        invariant
            idat@ == idat_type(),
            k <= chunks@.len(),
            buffer@ == idat_data(chunk_specs(chunks@.subrange(0, k as int))),
        decreases chunks@.len() - k,
    {
        let c = &chunks[k];
        let ghost prior = buffer@;
        if c.data_type == idat {
            let mut j: usize = 0;
            while j < c.data.len()
                invariant
                    j <= c.data@.len(),
                    buffer@ == prior + c.data@.subrange(0, j as int),
                decreases c.data@.len() - j,
            {
                buffer.push(c.data[j]);
                j = j + 1;
                assert(buffer@ =~= prior + c.data@.subrange(0, j as int));
            }
            assert(c.data@.subrange(0, j as int) =~= c.data@);
        }
        proof {
            let cs = chunk_specs(chunks@.subrange(0, k + 1));
            assert(cs.drop_last() =~= chunk_specs(chunks@.subrange(0, k as int)));
            assert(cs.last() == c@);
        }
        k = k + 1;
        assert(buffer@ =~= idat_data(chunk_specs(chunks@.subrange(0, k as int))));
    }
    assert(chunks@.subrange(0, k as int) =~= chunks@);
    buffer
}

/// The number of file bytes that a sequence of chunks occupies: twelve bytes
/// of length, type and CRC for each chunk besides its data.
pub open spec fn chunks_size(chunks: Seq<ChunkSpec>) -> int
    decreases chunks.len(),
{
    if chunks.len() == 0 {
        0
    } else {
        12 + chunks[0].data.len() + chunks_size(chunks.drop_first())
    }
}

/// Well-formed chunks tile the bytes they are read from: they cover exactly
/// the bytes from `idx` to the end, and each chunk's data is as long as its
/// declared length.
pub proof fn lemma_chunks_tile_input(s: Seq<u8>, idx: int)
    requires
        0 <= idx <= s.len(),
        chunks_well_formed(s, idx),
    ensures
        idx + chunks_size(chunks_from(s, idx)) == s.len(),
        forall|i: int|
            0 <= i < chunks_from(s, idx).len() ==> #[trigger] chunks_from(s, idx)[i].data.len()
                == chunks_from(s, idx)[i].length,
    decreases s.len() - idx,
{
    if idx < s.len() {
        let end = chunk_end(s, idx);
        let rest = if end < s.len() {
            chunks_from(s, end)
        } else {
            seq![]
        };
        if end < s.len() {
            lemma_chunks_tile_input(s, end);
        }
        let cs = chunks_from(s, idx);
        assert(cs == seq![chunk_at(s, idx)] + rest);
        assert(cs.drop_first() =~= rest);
        assert(chunk_at(s, idx).data.len() == chunk_length_at(s, idx));
        lemma_big_endian_round_trip(s.subrange(idx, idx + 4));
        assert(cs[0].data.len() == cs[0].length);
        assert(chunks_size(cs) == 12 + cs[0].data.len() + chunks_size(cs.drop_first()));
        assert(end + chunks_size(rest) == s.len());
        assert forall|i: int| 0 <= i < cs.len() implies #[trigger] cs[i].data.len()
            == cs[i].length by {
            if i > 0 {
                assert(cs[i] == rest[i - 1]);
                assert(end < s.len());
                assert(chunks_from(s, end)[i - 1].data.len() == chunks_from(s, end)[i
                    - 1].length);
            }
        }
    }
}

/// The four big-endian bytes of a `u32`.
pub open spec fn u32_be_bytes(x: u32) -> Seq<u8> {
    seq![(x >> 24u32) as u8, (x >> 16u32) as u8, (x >> 8u32) as u8, x as u8]
}

/// The file bytes of a chunk: its length, its type in UTF-8, its data and its CRC.
pub open spec fn chunk_encoding(c: ChunkSpec) -> Seq<u8> {
    u32_be_bytes(c.length) + encode_utf8(c.data_type) + c.data + u32_be_bytes(
        c.cyclic_redundancy_check,
    )
}

/// The file bytes of a sequence of chunks, one after another.
pub open spec fn chunks_encoding(chunks: Seq<ChunkSpec>) -> Seq<u8>
    decreases chunks.len(),
{
    if chunks.len() == 0 {
        seq![]
    } else {
        chunk_encoding(chunks[0]) + chunks_encoding(chunks.drop_first())
    }
}

/// Four bytes read as a big-endian `u32` and written back give the same bytes.
proof fn lemma_big_endian_round_trip(b: Seq<u8>)
    requires
        b.len() == 4,
    ensures
        0 <= big_endian_u32(b) <= u32::MAX,
        u32_be_bytes(big_endian_u32(b) as u32) == b,
{
    let b0 = b[0];
    let b1 = b[1];
    let b2 = b[2];
    let b3 = b[3];
    let x = big_endian_u32(b) as u32;
    assert(x == b0 * 0x100_0000 + b1 * 0x1_0000 + b2 * 0x100 + b3);
    assert((x >> 24u32) as u8 == b0 && (x >> 16u32) as u8 == b1 && (x >> 8u32) as u8 == b2
        && x as u8 == b3) by (bit_vector)
        requires
            x == b0 * 0x100_0000 + b1 * 0x1_0000 + b2 * 0x100 + b3,
    ;
    assert(u32_be_bytes(x) =~= b);
}

/// Well-formed chunks from `idx` on, written back one after another, give the
/// bytes from `idx` to the end.
proof fn lemma_chunks_encoding_from(s: Seq<u8>, idx: int)
    requires
        0 <= idx <= s.len(),
        chunks_well_formed(s, idx),
    ensures
        chunks_encoding(chunks_from(s, idx)) == s.subrange(idx, s.len() as int),
    decreases s.len() - idx,
{
    if idx == s.len() {
        assert(s.subrange(idx, s.len() as int) =~= seq![]);
    } else {
        let end = chunk_end(s, idx);
        let len = chunk_length_at(s, idx);
        let rest = if end < s.len() {
            chunks_from(s, end)
        } else {
            seq![]
        };
        if end < s.len() {
            lemma_chunks_encoding_from(s, end);
        }
        assert(chunks_encoding(rest) == s.subrange(end, s.len() as int)) by {
            if end == s.len() {
                assert(s.subrange(end, s.len() as int) =~= seq![]);
            }
        }
        let cs = chunks_from(s, idx);
        let c = chunk_at(s, idx);
        assert(cs == seq![c] + rest);
        assert(cs.drop_first() =~= rest);
        lemma_big_endian_round_trip(s.subrange(idx, idx + 4));
        lemma_big_endian_round_trip(s.subrange(idx + 8 + len, idx + 12 + len));
        decode_utf8_encode_utf8(chunk_type_bytes(s, idx));
        assert(chunk_encoding(c) =~= s.subrange(idx, end));
        assert(chunks_encoding(cs) == chunk_encoding(c) + chunks_encoding(rest));
        assert(s.subrange(idx, end) + s.subrange(end, s.len() as int) =~= s.subrange(
            idx,
            s.len() as int,
        ));
    }
}

/// Writing back the chunks of a well-formed PNG file, in order and after the
/// signature, gives the file's bytes: every byte is covered once, in order.
pub proof fn lemma_chunks_reencode_to_input(s: Seq<u8>)
    requires
        s.len() >= 8,
        s.subrange(0, 8) == png_signature(),
        chunks_well_formed(s, 8),
    ensures
        png_signature() + chunks_encoding(chunks_from(s, 8)) == s,
{
    lemma_chunks_encoding_from(s, 8);
    assert(s.subrange(0, 8) + s.subrange(8, s.len() as int) =~= s);
}

/// The `IDAT` data of two sequences of chunks one after the other is the
/// `IDAT` data of the first followed by that of the second.
pub proof fn lemma_idat_data_concat(a: Seq<ChunkSpec>, b: Seq<ChunkSpec>)
    ensures
        idat_data(a + b) == idat_data(a) + idat_data(b),
    decreases b.len(),
{
    if b.len() == 0 {
        assert(a + b =~= a);
        assert(idat_data(a) + idat_data(b) =~= idat_data(a));
    } else {
        lemma_idat_data_concat(a, b.drop_last());
        assert((a + b).drop_last() =~= a + b.drop_last());
        assert((a + b).last() == b.last());
        assert(idat_data(a + b) =~= idat_data(a) + idat_data(b));
    }
}

/// A single chunk contributes its data when its type is `IDAT`, and nothing
/// otherwise.
pub proof fn lemma_idat_data_single(c: ChunkSpec)
    ensures
        idat_data(seq![c]) == if c.data_type == idat_type() {
            c.data
        } else {
            seq![]
        },
{
    assert(seq![c].drop_last() =~= Seq::<ChunkSpec>::empty());
    assert(seq![c].last() == c);
    assert(idat_data(Seq::<ChunkSpec>::empty()) =~= Seq::<u8>::empty());
    assert(idat_data(seq![c]) == idat_data(seq![c].drop_last()) + if c.data_type == idat_type() {
        c.data
    } else {
        seq![]
    });
    assert(idat_data(seq![c]) =~= if c.data_type == idat_type() {
        c.data
    } else {
        seq![]
    });
}

/// Appending a chunk appends its data when its type is `IDAT`, whatever chunks
/// come before it, and appends nothing otherwise.
pub proof fn lemma_idat_data_push(cs: Seq<ChunkSpec>, c: ChunkSpec)
    ensures
        idat_data(cs.push(c)) == idat_data(cs) + if c.data_type == idat_type() {
            c.data
        } else {
            seq![]
        },
{
    lemma_idat_data_concat(cs, seq![c]);
    lemma_idat_data_single(c);
    assert(cs.push(c) =~= cs + seq![c]);
}

} // verus!
