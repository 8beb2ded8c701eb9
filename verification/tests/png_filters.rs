use png_qoi::error::DecodeError;
use png_qoi::png::filters::{
    match_filter, reconstruct_image, reconstruct_image_accepts, reverse_avg_filter,
    reverse_paeth_filter, reverse_sub_filter, reverse_up_filter, reverse_zero_filter, PngFilter,
};
use png_qoi::png::frame::PngImageMetadata;

fn meta(width: u32, height: u32) -> PngImageMetadata {
    PngImageMetadata {
        width,
        height,
        bit_depth: 8,
        color_type: 6,
        compression_method: 0,
        filter_method: 0,
        interlace_method: 0,
    }
}

#[test]
fn match_filter_accepts_zero_to_four() {
    assert!(matches!(match_filter(0), Ok(PngFilter::Zero(0))));
    assert!(matches!(match_filter(1), Ok(PngFilter::Sub(1))));
    assert!(matches!(match_filter(2), Ok(PngFilter::Up(2))));
    assert!(matches!(match_filter(3), Ok(PngFilter::Avg(3))));
    assert!(matches!(match_filter(4), Ok(PngFilter::Paeth(4))));
}

#[test]
fn match_filter_refuses_other_bytes() {
    assert!(matches!(match_filter(5), Err(DecodeError::InvalidFilterType)));
    assert!(matches!(match_filter(255), Err(DecodeError::InvalidFilterType)));
}

#[test]
fn zero_filter_copies_the_line() {
    assert_eq!(reverse_zero_filter(&[1, 2, 3]), vec![1, 2, 3]);
    assert_eq!(reverse_zero_filter(&[]), Vec::<u8>::new());
}

#[test]
fn sub_filter_adds_the_pixel_to_the_left_with_wrapping() {
    assert_eq!(
        reverse_sub_filter(&[1, 2, 3, 4, 5, 6, 7, 8, 250]),
        vec![1, 2, 3, 4, 6, 8, 10, 12, 0]
    );
}

#[test]
fn up_filter_adds_the_byte_above_with_wrapping() {
    assert_eq!(reverse_up_filter(&[1, 2, 255], &[3, 4, 1]), vec![4, 6, 0]);
    assert_eq!(reverse_up_filter(&[1, 2, 3], &[5]), vec![6]);
}

#[test]
fn avg_filter_values() {
    assert_eq!(
        reverse_avg_filter(&[10, 20, 30, 40, 50], &[2, 4, 6, 8, 10]),
        vec![21, 42, 63, 84, 110]
    );
    assert_eq!(reverse_avg_filter(&[200], &[100]), vec![66]);
}

#[test]
fn paeth_filter_values() {
    assert_eq!(
        reverse_paeth_filter(&[1, 2, 3, 4, 5, 6, 7, 8], &[10, 20, 30, 40, 50, 60, 70, 80]),
        vec![11, 22, 33, 44, 55, 66, 77, 88]
    );
}

#[test]
fn paeth_over_zero_row_equals_sub() {
    let line = [9u8, 200, 3, 77, 100, 100, 100, 100, 250, 1];
    let zeros = [0u8; 10];
    assert_eq!(reverse_paeth_filter(&line, &zeros), reverse_sub_filter(&line));
}

#[test]
fn up_over_zero_row_equals_zero_filter() {
    let line = [9u8, 200, 3, 77, 100];
    let zeros = [0u8; 5];
    assert_eq!(reverse_up_filter(&line, &zeros), reverse_zero_filter(&line));
}

#[test]
fn reconstruct_two_rows() {
    let data = [1u8, 10, 20, 30, 40, 2, 1, 1, 1, 1];
    let m = meta(1, 2);
    assert!(reconstruct_image_accepts(&m, &data));
    let out = reconstruct_image(&m, &data).unwrap();
    assert_eq!(out, vec![10, 20, 30, 40, 11, 21, 31, 41]);
    assert_eq!(out.len(), 1 * 2 * 4);
}

#[test]
fn reconstruct_every_filter() {
    let data = [
        0u8, 1, 2, 3, 4, 5, 6, 7, 8, // zero
        1, 1, 1, 1, 1, 1, 1, 1, 1, // sub
        2, 1, 1, 1, 1, 1, 1, 1, 1, // up
        3, 0, 0, 0, 0, 0, 0, 0, 0, // avg
        4, 0, 0, 0, 0, 0, 0, 0, 0, // paeth
    ];
    let m = meta(2, 5);
    assert!(reconstruct_image_accepts(&m, &data));
    let out = reconstruct_image(&m, &data).unwrap();
    assert_eq!(out.len(), 2 * 5 * 4);
    assert_eq!(&out[0..8], &[1, 2, 3, 4, 5, 6, 7, 8]);
    assert_eq!(&out[8..16], &[1, 1, 1, 1, 2, 2, 2, 2]);
    assert_eq!(&out[16..24], &[2, 2, 2, 2, 3, 3, 3, 3]);
    assert_eq!(&out[24..32], &[1, 1, 1, 1, 1, 1, 1, 1]);
    assert_eq!(&out[32..40], &[1, 1, 1, 1, 1, 1, 1, 1]);
}

#[test]
fn reconstruct_first_row_paeth_is_sub() {
    let line = [5u8, 6, 7, 8, 1, 2, 3, 4];
    let mut data = vec![4u8];
    data.extend_from_slice(&line);
    let out = reconstruct_image(&meta(2, 1), &data).unwrap();
    assert_eq!(out, reverse_sub_filter(&line));
}

#[test]
fn reconstruct_refuses_unknown_filter() {
    let data = [1u8, 10, 20, 30, 40, 7, 1, 1, 1, 1];
    let m = meta(1, 2);
    assert!(reconstruct_image_accepts(&m, &data));
    assert!(matches!(reconstruct_image(&m, &data), Err(DecodeError::InvalidFilterType)));
}

#[test]
fn reconstruct_empty_image() {
    let m = meta(0, 0);
    assert!(reconstruct_image_accepts(&m, &[]));
    assert_eq!(reconstruct_image(&m, &[]).unwrap(), Vec::<u8>::new());
}

#[test]
fn reconstruct_accepts_checks_the_length() {
    assert!(!reconstruct_image_accepts(&meta(1, 2), &[0u8; 9]));
    assert!(!reconstruct_image_accepts(&meta(1, 2), &[0u8; 11]));
    assert!(reconstruct_image_accepts(&meta(1, 2), &[0u8; 10]));
}

#[test]
fn each_row_is_its_scanline_decoded_against_the_row_above() {
    let data = [
        3u8, 9, 8, 7, 6, 5, 4, 3, 2, // avg
        4, 1, 2, 3, 4, 5, 6, 7, 8, // paeth
        1, 10, 20, 30, 40, 50, 60, 70, 80, // sub
    ];
    let out = reconstruct_image(&meta(2, 3), &data).unwrap();
    assert_eq!(&out[0..8], reverse_avg_filter(&data[1..9], &[0; 8]).as_slice());
    assert_eq!(&out[8..16], reverse_paeth_filter(&data[10..18], &out[0..8]).as_slice());
    assert_eq!(&out[16..24], reverse_sub_filter(&data[19..27]).as_slice());
}
