use tiny_tiff::reader;
use tiny_tiff::writer;

const CELL_WIDTH: u32 = 191;
const CELL_HEIGHT: u32 = 159;

/// An 8-bit, single-frame image of 191 by 159 pixels described as
/// "image description", whose third pixel is 112.
fn cell8() -> Vec<u8> {
    let n = (CELL_WIDTH * CELL_HEIGHT) as usize;
    let mut pixels: Vec<u8> = Vec::new();
    for i in 0..n {
        pixels.push((i % 251) as u8);
    }
    pixels[2] = 112;
    let mut tiff = writer::open(8, CELL_WIDTH, CELL_HEIGHT);
    assert!(writer::write_image_void(&mut tiff, &pixels));
    writer::close(&mut tiff, "image description").unwrap()
}

#[test]
fn can_open() {
    let _tiff = reader::open(cell8()).unwrap();
}

#[test]
fn can_close() {
    let tiff = reader::open(cell8()).unwrap();
    reader::close(tiff);
}

#[test]
fn can_bits_per_sample() {
    let mut tiff = reader::open(cell8()).unwrap();
    assert_eq!(reader::bits_per_sample(&mut tiff, 0), 8);
    reader::close(tiff);
}

#[test]
fn can_sample_data() {
    let mut tiff = reader::open(cell8()).unwrap();
    let width = reader::width(&tiff);
    let height = reader::height(&tiff);
    let size = (width * height) as usize;
    let mut buffer: Vec<u8> = vec![0u8; size];
    let result = reader::sample_data(&mut tiff, &mut buffer, 0);
    reader::close(tiff);
    assert!(result);
    assert_eq!(buffer[2], 112 as u8);
}

#[test]
fn can_width() {
    let tiff = reader::open(cell8()).unwrap();
    assert_eq!(reader::width(&tiff), 191);
    reader::close(tiff);
}

#[test]
fn can_height() {
    let tiff = reader::open(cell8()).unwrap();
    assert_eq!(reader::height(&tiff), 159);
    reader::close(tiff);
}

#[test]
fn can_count_frames() {
    let tiff = reader::open(cell8()).unwrap();
    assert_eq!(reader::count_frames(&tiff), 1);
    reader::close(tiff);
}

#[test]
fn can_sample_format() {
    let tiff = reader::open(cell8()).unwrap();
    assert_eq!(reader::sample_format(&tiff), 1);
    reader::close(tiff);
}

#[test]
fn can_samples_per_pixel() {
    let tiff = reader::open(cell8()).unwrap();
    assert_eq!(reader::samples_per_pixel(&tiff), 1);
    reader::close(tiff);
}

#[test]
fn can_image_description() {
    let tiff = reader::open(cell8()).unwrap();
    assert_eq!(reader::image_description(&tiff), "image description");
    reader::close(tiff);
}

#[test]
fn can_has_next() {
    let tiff = reader::open(cell8()).unwrap();
    assert!(!reader::has_next(&tiff));
    reader::close(tiff);
}

#[test]
fn can_read_next() {
    let mut tiff = reader::open(cell8()).unwrap();
    assert!(!reader::read_next(&mut tiff));
    reader::close(tiff);
}

#[test]
fn can_success() {
    let tiff = reader::open(cell8()).unwrap();
    assert!(reader::success(&tiff));
    reader::close(tiff);
}

#[test]
fn can_was_error() {
    let tiff = reader::open(cell8()).unwrap();
    assert!(!reader::was_error(&tiff));
    reader::close(tiff);
}

#[test]
fn can_last_error() {
    let tiff = reader::open(cell8()).unwrap();
    assert_eq!(reader::last_error(&tiff), "");
    reader::close(tiff);
}

#[test]
fn bits_per_sample_out_of_range_is_an_error() {
    let mut tiff = reader::open(cell8()).unwrap();
    assert_eq!(reader::bits_per_sample(&mut tiff, 0), 8);
    assert!(reader::success(&tiff));
    assert_eq!(reader::bits_per_sample(&mut tiff, 1), 0);
    assert!(reader::was_error(&tiff));
    assert_eq!(reader::last_error(&tiff), "invalid sample request");
    assert_eq!(reader::width(&tiff), 191);
}

#[test]
fn sample_data_with_wrong_element_size_fails_and_keeps_buffer() {
    let mut tiff = reader::open(cell8()).unwrap();
    let mut buffer: Vec<u16> = vec![7u16; 3];
    assert!(!reader::sample_data(&mut tiff, &mut buffer, 0));
    assert_eq!(buffer, vec![7u16; 3]);
    assert!(reader::was_error(&tiff));
    assert!(!reader::success(&tiff));
    assert_eq!(reader::last_error(&tiff), "invalid sample request");
}

#[test]
fn sample_data_with_sample_out_of_range_fails() {
    let mut tiff = reader::open(cell8()).unwrap();
    let mut buffer: Vec<u8> = Vec::new();
    assert!(!reader::sample_data(&mut tiff, &mut buffer, 1));
    assert!(buffer.is_empty());
    assert!(reader::was_error(&tiff));
}
