use png_qoi::qoi::chunk::{Pixel, QoiMetadata};
use png_qoi::qoi::frame::{encode_pixels, encode_pixels_accepts, index_position};
use png_qoi::utils::in_range;

fn header(width: u32, height: u32, channels: u8) -> QoiMetadata<'static> {
    QoiMetadata { magic_bytes: "qoif", width, height, channels, color_space: 0 }
}

fn encode(pixels: &[[u8; 4]]) -> Vec<u8> {
    let raw: Vec<u8> = pixels.iter().flat_map(|p| p.iter().copied()).collect();
    let h = header(pixels.len() as u32, 1, 4);
    assert!(encode_pixels_accepts(&raw, &h));
    encode_pixels(&raw, &h)
}

#[test]
fn index_position_values() {
    assert_eq!(index_position(1, 2, 3, 4), 14);
    assert_eq!(index_position(0, 0, 0, 0), 0);
    assert_eq!(index_position(1, 1, 1, 255), 4);
    assert!(index_position(255, 255, 255, 255) < 64);
}

#[test]
fn pixel_equality_and_default() {
    let p = Pixel { r: 1, g: 2, b: 3, a: 4 };
    assert_eq!(p, Pixel { r: 1, g: 2, b: 3, a: 4 });
    assert_ne!(p, Pixel { r: 1, g: 2, b: 3, a: 5 });
    assert_eq!(Pixel::default(), Pixel { r: 0, g: 0, b: 0, a: 0 });
}

#[test]
fn in_range_is_strict() {
    assert!(in_range(1i8, -3, 2));
    assert!(in_range(-2i8, -3, 2));
    assert!(!in_range(2i8, -3, 2));
    assert!(!in_range(-3i8, -3, 2));
}

#[test]
fn single_start_pixel_is_a_run() {
    assert_eq!(encode(&[[0, 0, 0, 255]]), vec![0xc0]);
}

#[test]
fn run_ended_by_a_new_pixel() {
    assert_eq!(encode(&[[0, 0, 0, 255], [1, 1, 1, 255]]), vec![0xc0]);
}

#[test]
fn small_difference_chunk() {
    assert_eq!(encode(&[[1, 1, 1, 255]]), vec![0x70]);
}

#[test]
fn luma_chunk() {
    assert_eq!(encode(&[[5, 5, 5, 255]]), vec![0xa5, 0x88]);
}

#[test]
fn rgb_chunk() {
    assert_eq!(encode(&[[10, 20, 30, 255]]), vec![0xfe, 10, 20, 30]);
}

#[test]
fn rgba_chunk() {
    assert_eq!(encode(&[[1, 2, 3, 4]]), vec![0xff, 1, 2, 3, 4]);
}

#[test]
fn index_chunk() {
    assert_eq!(
        encode(&[[1, 1, 1, 255], [10, 20, 30, 255], [1, 1, 1, 255]]),
        vec![0x70, 0xfe, 10, 20, 30, 0x04]
    );
}

#[test]
fn runs_stop_at_sixty_two() {
    assert_eq!(encode(&[[0, 0, 0, 255]; 62]), vec![0xfd]);
    assert_eq!(encode(&[[0, 0, 0, 255]; 63]), vec![0xfd, 0xc0]);
    assert_eq!(encode(&[[0, 0, 0, 255]; 10]), vec![0xc9]);
}

#[test]
fn three_channel_pixels_overlap() {
    let raw = [10u8, 20, 30, 255, 0, 0, 0];
    let h = header(2, 1, 3);
    assert!(encode_pixels_accepts(&raw, &h));
    assert_eq!(encode_pixels(&raw, &h), vec![0xfe, 10, 20, 30, 0xff, 255, 0, 0, 0]);
}

#[test]
fn empty_image_encodes_to_nothing() {
    let h = header(0, 5, 4);
    assert!(encode_pixels_accepts(&[], &h));
    assert_eq!(encode_pixels(&[], &h), Vec::<u8>::new());
}

#[test]
fn accepts_refuses_what_the_encoder_cannot_take() {
    assert!(!encode_pixels_accepts(&[0, 0, 0, 255], &header(1, 1, 0)));
    assert!(!encode_pixels_accepts(&[0, 0, 0], &header(1, 1, 4)));
    let raw = [10u8, 10, 10, 255, 5, 5, 5, 255];
    assert!(!encode_pixels_accepts(&raw, &header(2, 1, 4)));
    assert!(!encode_pixels_accepts(&[0; 8], &header(0x1_0000, 0x1_0000, 1)));
}
