use tiny_tiff::error::TiffError;
use tiny_tiff::bytes::ByteOrder;
use tiny_tiff::reader;
use tiny_tiff::writer;

const CELL_WIDTH: u32 = 191;
const CELL_HEIGHT: u32 = 159;

fn cell8() -> Vec<u8> {
    let n = (CELL_WIDTH * CELL_HEIGHT) as usize;
    let pixels: Vec<u8> = (0..n).map(|i| (i % 200) as u8).collect();
    let mut tiff = writer::open(8, CELL_WIDTH, CELL_HEIGHT);
    assert!(writer::write_image_void(&mut tiff, &pixels));
    writer::close(&mut tiff, "cell 8bit").unwrap()
}

fn cell16() -> Vec<u8> {
    let n = (CELL_WIDTH * CELL_HEIGHT) as usize;
    let pixels: Vec<u16> = (0..n).map(|i| (i * 7 % 65536) as u16).collect();
    let mut tiff = writer::open(16, CELL_WIDTH, CELL_HEIGHT);
    assert!(writer::write_image_void(&mut tiff, &pixels));
    writer::close(&mut tiff, "cell 16bit").unwrap()
}

fn cell32() -> Vec<u8> {
    let n = (CELL_WIDTH * CELL_HEIGHT) as usize;
    let pixels: Vec<u32> = (0..n).map(|i| (i as f32 * 0.5).to_bits()).collect();
    let mut tiff = writer::open(32, CELL_WIDTH, CELL_HEIGHT);
    assert!(writer::write_image_float(&mut tiff, &pixels));
    writer::close(&mut tiff, "cell 32bit").unwrap()
}

#[test]
fn can_manipulate_image_8() {
    let mut tiff = reader::open(cell8()).unwrap();
    let bits = reader::bits_per_sample(&mut tiff, 0);
    let width = reader::width(&tiff);
    let height = reader::height(&tiff);
    let size = (width * height) as usize;
    let mut buffer: Vec<u8> = vec![0u8; size];
    assert!(reader::sample_data(&mut tiff, &mut buffer, 0));
    reader::close(tiff);

    for px in &mut buffer {
        *px += 42u8;
    }

    let mut tiff = writer::open(bits as u16, width as u32, height as u32);
    assert!(writer::write_image_void(&mut tiff, &buffer));
    let file = writer::close(&mut tiff, "test mod 8bit").unwrap();
    let mut back = reader::open(file).unwrap();
    let mut read: Vec<u8> = Vec::new();
    assert!(reader::sample_data(&mut back, &mut read, 0));
    assert_eq!(read, buffer);
    assert_eq!(reader::image_description(&back), "test mod 8bit");
}

#[test]
fn can_manipulate_image_16() {
    let mut tiff = reader::open(cell16()).unwrap();
    let bits = reader::bits_per_sample(&mut tiff, 0);
    let width = reader::width(&tiff);
    let height = reader::height(&tiff);
    let size = (width * height) as usize;
    let mut buffer: Vec<u16> = vec![0u16; size];
    assert!(reader::sample_data(&mut tiff, &mut buffer, 0));
    reader::close(tiff);

    for px in &mut buffer {
        if *px <= 65535 - 42 {
            *px += 42u16;
        }
    }

    let mut tiff = writer::open(bits as u16, width as u32, height as u32);
    assert!(writer::write_image_void(&mut tiff, &buffer));
    let file = writer::close(&mut tiff, "test mod 16bit").unwrap();
    let mut back = reader::open(file).unwrap();
    let mut read: Vec<u16> = Vec::new();
    assert!(reader::sample_data(&mut back, &mut read, 0));
    assert_eq!(read, buffer);
}

#[test]
fn can_manipulate_image_32() {
    let mut tiff = reader::open(cell32()).unwrap();
    let bits = reader::bits_per_sample(&mut tiff, 0);
    let width = reader::width(&tiff);
    let height = reader::height(&tiff);
    let size = (width * height) as usize;
    let mut raw: Vec<u32> = vec![0u32; size];
    assert!(reader::sample_data(&mut tiff, &mut raw, 0));
    reader::close(tiff);
    let mut buffer: Vec<f32> = raw.iter().map(|x| f32::from_bits(*x)).collect();

    for px in &mut buffer {
        *px += 42f32;
    }

    let out: Vec<u32> = buffer.iter().map(|x| x.to_bits()).collect();
    let mut tiff = writer::open(bits as u16, width as u32, height as u32);
    assert!(writer::write_image_float(&mut tiff, &out));
    let file = writer::close(&mut tiff, "test mod 32bit").unwrap();
    let mut back = reader::open(file).unwrap();
    let mut read: Vec<u32> = Vec::new();
    assert!(reader::sample_data(&mut back, &mut read, 0));
    let floats: Vec<f32> = read.iter().map(|x| f32::from_bits(*x)).collect();
    assert_eq!(floats, buffer);
}

#[test]
fn square_scenario() {
    let mut tiff = writer::open(8, 2, 2);
    assert!(writer::write_image_void(&mut tiff, &vec![1u8, 2, 3, 4]));
    let file = writer::close(&mut tiff, "sq").unwrap();
    let mut back = reader::open(file).unwrap();
    assert_eq!(reader::width(&back), 2);
    assert_eq!(reader::height(&back), 2);
    assert_eq!(reader::bits_per_sample(&mut back, 0), 8);
    assert_eq!(reader::image_description(&back), "sq");
    let mut buffer: Vec<u8> = vec![0u8; 4];
    assert!(reader::sample_data(&mut back, &mut buffer, 0));
    assert_eq!(buffer, vec![1u8, 2, 3, 4]);
    assert!(!reader::has_next(&back));
}

#[test]
fn round_trip_pattern_for_every_sample_width() {
    let (w, h) = (5u32, 3u32);
    let n = (w * h) as usize;
    let p8: Vec<u8> = (0..n).map(|i| (i * 17) as u8).collect();
    let p16: Vec<u16> = (0..n).map(|i| (i * 4099) as u16).collect();
    let p32: Vec<u32> = (0..n).map(|i| (i as f32 - 3.25).to_bits()).collect();
    let p64: Vec<u64> = (0..n).map(|i| (i as f64 * -1.5e10).to_bits()).collect();

    let mut t = writer::open(8, w, h);
    assert!(writer::write_image_void(&mut t, &p8));
    let mut r = reader::open(writer::close(&mut t, "").unwrap()).unwrap();
    let mut b8: Vec<u8> = Vec::new();
    assert!(reader::sample_data(&mut r, &mut b8, 0));
    assert_eq!(b8, p8);

    let mut t = writer::open(16, w, h);
    assert!(writer::write_image_void(&mut t, &p16));
    let mut r = reader::open(writer::close(&mut t, "").unwrap()).unwrap();
    let mut b16: Vec<u16> = Vec::new();
    assert!(reader::sample_data(&mut r, &mut b16, 0));
    assert_eq!(b16, p16);

    let mut t = writer::open(32, w, h);
    assert!(writer::write_image_float(&mut t, &p32));
    let mut r = reader::open(writer::close(&mut t, "").unwrap()).unwrap();
    let mut b32: Vec<u32> = Vec::new();
    assert!(reader::sample_data(&mut r, &mut b32, 0));
    assert_eq!(b32, p32);

    let mut t = writer::open(64, w, h);
    assert!(writer::write_image_double(&mut t, &p64));
    let mut r = reader::open(writer::close(&mut t, "").unwrap()).unwrap();
    let mut b64: Vec<u64> = Vec::new();
    assert!(reader::sample_data(&mut r, &mut b64, 0));
    assert_eq!(b64, p64);
}

#[test]
fn multi_frame_chain_is_visited_in_write_order() {
    let frames: Vec<Vec<u16>> = (0..4u16).map(|f| vec![f, f + 10, f + 20, f + 30, f + 40, f + 50]).collect();
    let mut t = writer::open(16, 3, 2);
    for f in &frames {
        assert!(writer::write_image_void(&mut t, f));
    }
    let mut r = reader::open(writer::close(&mut t, "stack").unwrap()).unwrap();
    assert_eq!(reader::count_frames(&r), 4);
    for (i, f) in frames.iter().enumerate() {
        let mut buf: Vec<u16> = Vec::new();
        assert!(reader::sample_data(&mut r, &mut buf, 0));
        assert_eq!(&buf, f);
        if i == 0 {
            assert_eq!(reader::image_description(&r), "stack");
        } else {
            assert_eq!(reader::image_description(&r), "");
        }
        assert_eq!(reader::has_next(&r), i + 1 < frames.len());
        assert_eq!(reader::read_next(&mut r), i + 1 < frames.len());
    }
    assert!(reader::success(&r));
    assert_eq!(reader::count_frames(&r), 4);
}

#[test]
fn both_byte_orders_decode_identically() {
    let pixels: Vec<u32> = vec![1, 0x0102_0304, 0xFFFF_FFFF, 0x8000_0000, 77, 0];
    let mut le = writer::open_with_byte_order(ByteOrder::LittleEndian, 32, 3, 2);
    let mut be = writer::open_with_byte_order(ByteOrder::BigEndian, 32, 3, 2);
    assert!(writer::write_image_void(&mut le, &pixels));
    assert!(writer::write_image_void(&mut be, &pixels));
    let le_file = writer::close(&mut le, "order").unwrap();
    let be_file = writer::close(&mut be, "order").unwrap();
    assert_eq!(&le_file[0..2], b"II");
    assert_eq!(&be_file[0..2], b"MM");
    assert_ne!(le_file, be_file);
    let mut a = reader::open(le_file).unwrap();
    let mut b = reader::open(be_file).unwrap();
    let mut ba: Vec<u32> = Vec::new();
    let mut bb: Vec<u32> = Vec::new();
    assert!(reader::sample_data(&mut a, &mut ba, 0));
    assert!(reader::sample_data(&mut b, &mut bb, 0));
    assert_eq!(ba, pixels);
    assert_eq!(bb, pixels);
    assert_eq!(reader::image_description(&b), "order");
}

fn small_file() -> Vec<u8> {
    let mut t = writer::open(8, 2, 2);
    assert!(writer::write_image_void(&mut t, &vec![1u8, 2, 3, 4]));
    writer::close(&mut t, "x").unwrap()
}

#[test]
fn bad_byte_order_mark_is_refused() {
    let mut data = small_file();
    data[0] = b'X';
    data[1] = b'Y';
    assert_eq!(reader::open(data).err(), Some(TiffError::BadByteOrderMark));
}

#[test]
fn bad_magic_is_refused() {
    let mut data = small_file();
    data[2] = 43;
    assert_eq!(reader::open(data).err(), Some(TiffError::BadMagic));
}

#[test]
fn short_files_are_truncated() {
    assert_eq!(reader::open(vec![]).err(), Some(TiffError::TruncatedFile));
    assert_eq!(reader::open(b"II*\0".to_vec()).err(), Some(TiffError::TruncatedFile));
    let mut data = small_file();
    data[4] = 0;
    data[5] = 0;
    data[6] = 0;
    data[7] = 0;
    assert_eq!(reader::open(data).err(), Some(TiffError::TruncatedFile));
}

#[test]
fn compression_other_than_one_is_unsupported() {
    let mut data = small_file();
    // The compression entry is the fourth of the first directory, which starts at 8.
    let value = 8 + 2 + 12 * 3 + 8;
    assert_eq!(u16::from_le_bytes([data[value], data[value + 1]]), 1);
    data[value] = 5;
    assert_eq!(reader::open(data).err(), Some(TiffError::CompressionUnsupported));
}

#[test]
fn missing_width_tag_is_reported() {
    let mut data = small_file();
    let tag = 8 + 2;
    assert_eq!(u16::from_le_bytes([data[tag], data[tag + 1]]), 256);
    data[tag] = 0xFF;
    data[tag + 1] = 0x7F;
    assert_eq!(reader::open(data).err(), Some(TiffError::MissingTag(256)));
}

#[test]
fn wrong_entry_type_is_malformed() {
    let mut data = small_file();
    // Give the bits-per-sample entry the ASCII type.
    let typ = 8 + 2 + 12 * 2 + 2;
    data[typ] = 2;
    assert_eq!(reader::open(data).err(), Some(TiffError::MalformedIfdEntry));
}

#[test]
fn corrupt_next_directory_keeps_frame_and_error() {
    let mut t = writer::open(8, 2, 2);
    assert!(writer::write_image_void(&mut t, &vec![1u8, 2, 3, 4]));
    assert!(writer::write_image_void(&mut t, &vec![5u8, 6, 7, 8]));
    let mut data = writer::close(&mut t, "two").unwrap();
    // The second directory follows its strip at the end of the file; break its width tag.
    let second = data.len() - 138;
    data[second + 2] = 0;
    data[second + 3] = 0;
    let mut r = reader::open(data).unwrap();
    assert!(reader::has_next(&r));
    assert!(!reader::read_next(&mut r));
    assert!(reader::was_error(&r));
    assert_eq!(reader::last_error(&r), "a required tag is missing");
    let mut buf: Vec<u8> = Vec::new();
    assert!(reader::sample_data(&mut r, &mut buf, 0));
    assert_eq!(buf, vec![1u8, 2, 3, 4]);
}

/// A hand-made little-endian file of 2 by 1 pixels with three 8-bit samples
/// per pixel, in the given planar configuration, in one strip.
fn rgb_file(planar: u16, strip: &[u8]) -> Vec<u8> {
    let entries: Vec<(u16, u16, u32, u32)> = vec![
        (256, 3, 1, 2),
        (257, 3, 1, 1),
        (258, 3, 3, 0), // out of line, patched below
        (259, 3, 1, 1),
        (273, 4, 1, 0), // strip offset, patched below
        (277, 3, 1, 3),
        (278, 3, 1, 1),
        (279, 4, 1, strip.len() as u32),
        (284, 3, 1, planar as u32),
    ];
    let ifd_len = 2 + 12 * entries.len() + 4;
    let bits_at = 8 + ifd_len;
    let strip_at = bits_at + 6;
    let mut out: Vec<u8> = b"II".to_vec();
    out.extend_from_slice(&42u16.to_le_bytes());
    out.extend_from_slice(&8u32.to_le_bytes());
    out.extend_from_slice(&(entries.len() as u16).to_le_bytes());
    for (tag, typ, count, value) in entries {
        out.extend_from_slice(&tag.to_le_bytes());
        out.extend_from_slice(&typ.to_le_bytes());
        out.extend_from_slice(&count.to_le_bytes());
        let v = match tag {
            258 => bits_at as u32,
            273 => strip_at as u32,
            _ => value,
        };
        out.extend_from_slice(&v.to_le_bytes());
    }
    out.extend_from_slice(&0u32.to_le_bytes());
    for _ in 0..3 {
        out.extend_from_slice(&8u16.to_le_bytes());
    }
    out.extend_from_slice(strip);
    out
}

#[test]
fn chunky_samples_are_deinterleaved() {
    let mut r = reader::open(rgb_file(1, &[10, 20, 30, 11, 21, 31])).unwrap();
    assert_eq!(reader::samples_per_pixel(&r), 3);
    assert_eq!(reader::image_description(&r), "");
    let mut green: Vec<u8> = Vec::new();
    assert!(reader::sample_data(&mut r, &mut green, 1));
    assert_eq!(green, vec![20u8, 21]);
    let mut blue: Vec<u8> = Vec::new();
    assert!(reader::sample_data(&mut r, &mut blue, 2));
    assert_eq!(blue, vec![30u8, 31]);
}

#[test]
fn planar_samples_are_read_as_runs() {
    let mut r = reader::open(rgb_file(2, &[10, 11, 20, 21, 30, 31])).unwrap();
    let mut red: Vec<u8> = Vec::new();
    assert!(reader::sample_data(&mut r, &mut red, 0));
    assert_eq!(red, vec![10u8, 11]);
    let mut blue: Vec<u8> = Vec::new();
    assert!(reader::sample_data(&mut r, &mut blue, 2));
    assert_eq!(blue, vec![30u8, 31]);
}

#[test]
fn strip_past_end_of_file_is_truncated() {
    let mut data = rgb_file(1, &[10, 20, 30, 11, 21, 31]);
    data.truncate(data.len() - 2);
    let mut r = reader::open(data).unwrap();
    let mut buf: Vec<u8> = vec![1, 2];
    assert!(!reader::sample_data(&mut r, &mut buf, 0));
    assert_eq!(buf, vec![1u8, 2]);
    assert_eq!(reader::last_error(&r), "file is truncated");
}

#[test]
fn error_messages_are_not_empty() {
    for e in [
        TiffError::IoError,
        TiffError::BadByteOrderMark,
        TiffError::BadMagic,
        TiffError::TruncatedFile,
        TiffError::MissingTag(256),
        TiffError::CompressionUnsupported,
        TiffError::MalformedIfdEntry,
        TiffError::DescriptionTooLong,
        TiffError::InvalidSampleRequest,
    ] {
        assert!(!e.message().is_empty());
    }
}
