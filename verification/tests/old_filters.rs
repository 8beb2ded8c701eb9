use png_qoi::error::DecodeError;
use png_qoi::filters::{
    match_filter, reconstruct_image, reverse_avg_filter, reverse_paeth_filter,
    reverse_sub_filter, reverse_up_filter, reverse_zero_filter, PngFilter,
};
use png_qoi::image::PngImage;

#[test]
fn old_match_filter() {
    assert!(matches!(match_filter(0), Ok(PngFilter::Zero(0))));
    assert!(matches!(match_filter(4), Ok(PngFilter::Paeth(4))));
    assert!(matches!(match_filter(9), Err(DecodeError::InvalidFilterType)));
}

#[test]
fn old_zero_filter() {
    assert_eq!(reverse_zero_filter(&[7, 8]), vec![7, 8]);
}

#[test]
fn old_sub_filter_adds_previous_byte() {
    assert_eq!(reverse_sub_filter(&[1, 2, 3]), vec![1, 3, 5]);
}

#[test]
fn old_up_filter_adds_byte_above() {
    assert_eq!(reverse_up_filter(&[1, 2], &[3, 4, 5]), vec![4, 6]);
}

#[test]
fn old_avg_filter_values() {
    assert_eq!(reverse_avg_filter(&[10, 20], &[2, 4]), vec![21, 47]);
    assert_eq!(reverse_avg_filter(&[100, 100], &[100, 100]), vec![250, 255]);
}

#[test]
fn old_paeth_filter_values() {
    assert_eq!(reverse_paeth_filter(&[1, 2, 3], &[10, 20, 30]), vec![1, 3, 10]);
}

#[test]
fn old_filters_over_zero_row_keep_the_line() {
    let line = [3u8, 250, 0, 17];
    assert_eq!(reverse_paeth_filter(&line, &[0; 4]), line.to_vec());
    assert_eq!(reverse_up_filter(&line, &[0; 4]), line.to_vec());
}

#[test]
fn old_reconstruct_empty_image() {
    let image = PngImage {
        width: 3,
        height: 0,
        bit_depth: 8,
        color_type: 6,
        compression_method: 0,
        filter_method: 0,
        interlace_method: 0,
        data: vec![],
    };
    assert_eq!(reconstruct_image(&image).unwrap(), Vec::<u8>::new());
}
