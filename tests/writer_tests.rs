use tiny_tiff::reader;
use tiny_tiff::writer;

#[test]
fn can_write_image_void8_and_close() {
    let bits: u16 = 8;
    let width: u32 = 100;
    let height: u32 = 100;
    let size = width * height;
    let buffer: Vec<u8> = vec![42u8; size as usize];
    let mut tiff = writer::open(bits, width, height);
    assert!(writer::write_image_void(&mut tiff, &buffer));
    let file = writer::close(&mut tiff, "test 8bit").unwrap();
    let mut back = reader::open(file).unwrap();
    let mut read: Vec<u8> = Vec::new();
    assert!(reader::sample_data(&mut back, &mut read, 0));
    assert_eq!(read, buffer);
    assert_eq!(reader::image_description(&back), "test 8bit");
}

#[test]
fn can_write_image_void16_and_close() {
    let bits: u16 = 16;
    let width: u32 = 100;
    let height: u32 = 100;
    let size = width * height;
    let buffer: Vec<u16> = vec![42u16; size as usize];
    let mut tiff = writer::open(bits, width, height);
    assert!(writer::write_image_void(&mut tiff, &buffer));
    let file = writer::close(&mut tiff, "test 16bit").unwrap();
    let mut back = reader::open(file).unwrap();
    let mut read: Vec<u16> = Vec::new();
    assert!(reader::sample_data(&mut back, &mut read, 0));
    assert_eq!(read, buffer);
    assert_eq!(reader::bits_per_sample(&mut back, 0), 16);
}

#[test]
fn can_write_image_float32_and_close() {
    let bits: u16 = 32;
    let width: u32 = 100;
    let height: u32 = 100;
    let size = width * height;
    let buffer: Vec<f32> = vec![42f32; size as usize];
    let raw: Vec<u32> = buffer.iter().map(|x| x.to_bits()).collect();
    let mut tiff = writer::open(bits, width, height);
    assert!(writer::write_image_float(&mut tiff, &raw));
    let file = writer::close(&mut tiff, "test 32bit").unwrap();
    let mut back = reader::open(file).unwrap();
    assert_eq!(reader::sample_format(&back), 3);
    let mut read: Vec<u32> = Vec::new();
    assert!(reader::sample_data(&mut back, &mut read, 0));
    let floats: Vec<f32> = read.iter().map(|x| f32::from_bits(*x)).collect();
    assert_eq!(floats, buffer);
}

#[test]
fn can_write_image_double64_and_close() {
    let bits: u16 = 64;
    let width: u32 = 100;
    let height: u32 = 100;
    let size = width * height;
    let buffer: Vec<f64> = vec![42f64; size as usize];
    let raw: Vec<u64> = buffer.iter().map(|x| x.to_bits()).collect();
    let mut tiff = writer::open(bits, width, height);
    assert!(writer::write_image_double(&mut tiff, &raw));
    let file = writer::close(&mut tiff, "test 64bit").unwrap();
    let mut back = reader::open(file).unwrap();
    assert_eq!(reader::sample_format(&back), 3);
    let mut read: Vec<u64> = Vec::new();
    assert!(reader::sample_data(&mut back, &mut read, 0));
    let floats: Vec<f64> = read.iter().map(|x| f64::from_bits(*x)).collect();
    assert_eq!(floats, buffer);
}

#[test]
fn max_description_text_size_is_reserved_area_minus_nul() {
    let tiff = writer::open(8, 2, 2);
    assert_eq!(writer::max_description_text_size(&tiff), 1023);
}

#[test]
fn description_too_long_fails_and_keeps_strips() {
    let pixels: Vec<u8> = vec![9, 8, 7, 6];
    let mut tiff = writer::open(8, 2, 2);
    assert!(writer::write_image_void(&mut tiff, &pixels));
    let long = "x".repeat(1024);
    assert_eq!(
        writer::close(&mut tiff, &long),
        Err(tiny_tiff::error::TiffError::DescriptionTooLong)
    );
    let file = writer::close(&mut tiff, "short").unwrap();
    let mut back = reader::open(file).unwrap();
    let mut read: Vec<u8> = Vec::new();
    assert!(reader::sample_data(&mut back, &mut read, 0));
    assert_eq!(read, pixels);
    assert_eq!(reader::image_description(&back), "short");
}

#[test]
fn description_of_exactly_max_size_is_kept() {
    let mut tiff = writer::open(8, 1, 1);
    assert!(writer::write_image_void(&mut tiff, &vec![5u8]));
    let text = "d".repeat(1023);
    let file = writer::close(&mut tiff, &text).unwrap();
    let back = reader::open(file).unwrap();
    assert_eq!(reader::image_description(&back), text);
}

#[test]
fn empty_description_reads_back_empty() {
    let mut tiff = writer::open(8, 1, 1);
    assert!(writer::write_image_void(&mut tiff, &vec![5u8]));
    let file = writer::close(&mut tiff, "").unwrap();
    let back = reader::open(file).unwrap();
    assert_eq!(reader::image_description(&back), "");
}

#[test]
fn non_ascii_description_round_trips() {
    let mut tiff = writer::open(8, 1, 1);
    assert!(writer::write_image_void(&mut tiff, &vec![5u8]));
    let file = writer::close(&mut tiff, "µm scale").unwrap();
    let back = reader::open(file).unwrap();
    assert_eq!(reader::image_description(&back), "µm scale");
}

#[test]
fn empty_frame_round_trips() {
    let mut tiff = writer::open(8, 0, 5);
    assert!(writer::write_image_void(&mut tiff, &Vec::<u8>::new()));
    let file = writer::close(&mut tiff, "empty").unwrap();
    let mut back = reader::open(file).unwrap();
    assert_eq!(reader::width(&back), 0);
    assert_eq!(reader::height(&back), 5);
    let mut read: Vec<u8> = vec![1, 2, 3];
    assert!(reader::sample_data(&mut back, &mut read, 0));
    assert!(read.is_empty());
}

#[test]
fn big_endian_frames_chain_and_count() {
    let mut tiff = writer::open_with_byte_order(tiny_tiff::bytes::ByteOrder::BigEndian, 64, 2, 1);
    let a: Vec<u64> = vec![0x0102_0304_0506_0708, 1];
    let b: Vec<u64> = vec![u64::MAX, 0];
    assert!(writer::write_image_void(&mut tiff, &a));
    assert!(writer::write_image_void(&mut tiff, &b));
    let file = writer::close(&mut tiff, "be").unwrap();
    assert_eq!(&file[0..4], &[b'M', b'M', 0, 42]);
    let mut back = reader::open(file).unwrap();
    assert_eq!(reader::count_frames(&back), 2);
    let mut read: Vec<u64> = Vec::new();
    assert!(reader::sample_data(&mut back, &mut read, 0));
    assert_eq!(read, a);
    assert!(reader::read_next(&mut back));
    assert!(reader::sample_data(&mut back, &mut read, 0));
    assert_eq!(read, b);
    assert!(!reader::has_next(&back));
    assert!(!reader::read_next(&mut back));
    assert!(reader::success(&back));
}

#[test]
fn little_endian_header_is_written_first() {
    let mut tiff = writer::open(8, 1, 1);
    assert!(writer::write_image_void(&mut tiff, &vec![3u8]));
    let file = writer::close(&mut tiff, "").unwrap();
    assert_eq!(&file[0..8], &[b'I', b'I', 42, 0, 8, 0, 0, 0]);
}
