use png_qoi::chunk::{
    combine_bytes, combine_chunk_data, compare_vecs, extract_chunks, extract_chunks_accepts, Chunk,
};
use png_qoi::error::DecodeError;
use png_qoi::png::frame::{check_inflated, inflate_bytes, PngImage, PngImageMetadata};
use png_qoi::utils;

const SIGNATURE: [u8; 8] = [137, 80, 78, 71, 13, 10, 26, 10];

fn chunk_bytes(kind: &[u8; 4], data: &[u8], crc: u32) -> Vec<u8> {
    let mut out = (data.len() as u32).to_be_bytes().to_vec();
    out.extend_from_slice(kind);
    out.extend_from_slice(data);
    out.extend_from_slice(&crc.to_be_bytes());
    out
}

fn sample_png() -> Vec<u8> {
    let mut bytes = SIGNATURE.to_vec();
    bytes.extend(chunk_bytes(b"IHDR", &[0, 0, 0, 2, 0, 0, 0, 3, 8, 6, 0, 0, 0], 0xdeadbeef));
    bytes.extend(chunk_bytes(b"IDAT", &[1, 2], 7));
    bytes.extend(chunk_bytes(b"tEXt", &[9, 9, 9], 8));
    bytes.extend(chunk_bytes(b"IDAT", &[3], 9));
    bytes.extend(chunk_bytes(b"IEND", &[], 10));
    bytes
}

fn chunk(kind: &str, data: &[u8]) -> Chunk {
    Chunk {
        length: data.len() as u32,
        data_type: kind.to_string(),
        data: data.to_vec(),
        cyclic_redundancy_check: 0,
    }
}

fn zlib(data: &[u8]) -> Vec<u8> {
    let mut encoder = flate2::write::ZlibEncoder::new(Vec::new(), flate2::Compression::default());
    std::io::Write::write_all(&mut encoder, data).unwrap();
    encoder.finish().unwrap()
}

#[test]
fn compare_vecs_cases() {
    assert!(compare_vecs(&[1u8, 2, 3], &[1u8, 2, 3]));
    assert!(!compare_vecs(&[1u8, 2, 3], &[1u8, 2, 4]));
    assert!(!compare_vecs(&[1u8, 2, 3], &[1u8, 2]));
    assert!(!compare_vecs(&[1u8], &[1u8, 2]));
    assert!(compare_vecs::<u8>(&[], &[]));
}

#[test]
fn combine_bytes_is_big_endian() {
    assert_eq!(combine_bytes(&[0x12, 0x34, 0x56, 0x78]), 0x1234_5678);
    assert_eq!(combine_bytes(&[0xff, 0xff, 0xff, 0xff, 1]), u32::MAX);
    assert_eq!(utils::combine_bytes(&[0x12, 0x34, 0x56, 0x78]), 0x1234_5678);
    assert_eq!(utils::combine_bytes(&[0, 0, 1, 0]), 256);
}

#[test]
fn extract_chunks_reads_every_chunk() {
    let bytes = sample_png();
    assert!(extract_chunks_accepts(&bytes));
    let chunks = extract_chunks(&bytes).unwrap();
    assert_eq!(chunks.len(), 5);
    assert_eq!(chunks[0].data_type, "IHDR");
    assert_eq!(chunks[0].length, 13);
    assert_eq!(chunks[0].cyclic_redundancy_check, 0xdeadbeef);
    assert_eq!(chunks[1].data_type, "IDAT");
    assert_eq!(chunks[1].data, vec![1, 2]);
    assert_eq!(chunks[2].data_type, "tEXt");
    assert_eq!(chunks[4].data_type, "IEND");
    assert_eq!(chunks[4].length, 0);
    assert_eq!(chunks[4].cyclic_redundancy_check, 10);
    let total: usize = chunks.iter().map(|c| 12 + c.data.len()).sum();
    assert_eq!(8 + total, bytes.len());
    for c in &chunks {
        assert_eq!(c.data.len(), c.length as usize);
    }
}

#[test]
fn extract_chunks_of_signature_alone() {
    assert!(extract_chunks(&SIGNATURE).unwrap().is_empty());
}

#[test]
fn extract_chunks_refuses_other_files() {
    let mut bytes = sample_png();
    bytes[1] = b'Q';
    assert!(extract_chunks_accepts(&bytes));
    assert!(matches!(extract_chunks(&bytes), Err(DecodeError::NotAPngFile)));
}

#[test]
fn extract_chunks_accepts_cases() {
    assert!(!extract_chunks_accepts(&[137, 80, 78]));
    let mut truncated = sample_png();
    truncated.pop();
    assert!(!extract_chunks_accepts(&truncated));
    let mut bad_type = SIGNATURE.to_vec();
    bad_type.extend(chunk_bytes(&[0xff, b'D', b'A', b'T'], &[1], 0));
    assert!(!extract_chunks_accepts(&bad_type));
}

#[test]
fn combine_chunk_data_joins_idat_chunks() {
    let chunks = extract_chunks(&sample_png()).unwrap();
    assert_eq!(combine_chunk_data(&chunks), vec![1, 2, 3]);
    let none = vec![chunk("IHDR", &[1]), chunk("IEND", &[])];
    assert_eq!(combine_chunk_data(&none), Vec::<u8>::new());
    assert_eq!(combine_chunk_data(&[]), Vec::<u8>::new());
}

#[test]
fn metadata_from_header_chunk() {
    let chunks = extract_chunks(&sample_png()).unwrap();
    let meta = PngImageMetadata::new(&chunks[0]);
    assert_eq!(meta.width, 2);
    assert_eq!(meta.height, 3);
    assert_eq!(meta.bit_depth, 8);
    assert_eq!(meta.color_type, 6);
    assert_eq!(meta.compression_method, 0);
    assert_eq!(meta.filter_method, 0);
    assert_eq!(meta.interlace_method, 0);
}

#[test]
fn png_image_holds_a_copy() {
    let chunks = extract_chunks(&sample_png()).unwrap();
    let meta = PngImageMetadata::new(&chunks[0]);
    let image = PngImage::new(meta, &[4, 5, 6]);
    assert_eq!(image.metadata.width, 2);
    assert_eq!(image.data, vec![4, 5, 6]);
}

#[test]
fn inflate_round_trip() {
    let plain: Vec<u8> = (0..200u32).map(|x| (x * 7 % 251) as u8).collect();
    let compressed = zlib(&plain);
    assert_ne!(compressed, plain);
    assert_eq!(inflate_bytes(&compressed).unwrap(), plain);
    assert_eq!(png_qoi::image::inflate_bytes(&compressed).unwrap(), plain);
}

#[test]
fn inflate_refuses_garbage_and_empty_output() {
    assert!(matches!(inflate_bytes(&[1, 2, 3, 4, 5]), Err(DecodeError::CouldNotDecode)));
    assert!(matches!(inflate_bytes(&zlib(&[])), Err(DecodeError::CouldNotDecode)));
    assert!(matches!(
        png_qoi::image::inflate_bytes(&[0xff; 10]),
        Err(DecodeError::CouldNotDecode)
    ));
}

#[test]
fn check_inflated_cases() {
    assert!(matches!(check_inflated(None), Err(DecodeError::CouldNotDecode)));
    assert!(matches!(check_inflated(Some(vec![])), Err(DecodeError::CouldNotDecode)));
    assert_eq!(check_inflated(Some(vec![1, 2])).unwrap(), vec![1, 2]);
}

#[test]
fn error_messages() {
    assert_eq!(DecodeError::NotAPngFile.message(), "Not a PNG file");
    assert_eq!(DecodeError::InvalidFilterType.message(), "Invalid filter type");
    assert_eq!(DecodeError::CouldNotDecode.message(), "Could not decode file");
}

#[test]
fn chunks_written_back_give_the_input() {
    let bytes = sample_png();
    let chunks = extract_chunks(&bytes).unwrap();
    let mut rebuilt = SIGNATURE.to_vec();
    for c in &chunks {
        rebuilt.extend_from_slice(&c.length.to_be_bytes());
        rebuilt.extend_from_slice(c.data_type.as_bytes());
        rebuilt.extend_from_slice(&c.data);
        rebuilt.extend_from_slice(&c.cyclic_redundancy_check.to_be_bytes());
    }
    assert_eq!(rebuilt, bytes);
}
