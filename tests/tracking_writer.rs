use gunzip::error::DecodeError;
use gunzip::tracking_writer::{ByteSink, TrackingWriter};

#[test]
fn write() -> Result<(), DecodeError> {
    let mut writer = TrackingWriter::new(ByteSink::with_capacity(10));

    assert_eq!(writer.write(&[1, 2, 3, 4]), 4);
    assert_eq!(writer.byte_count(), 4);

    assert_eq!(writer.write(&[4, 8, 15, 16, 23]), 5);
    assert_eq!(writer.byte_count(), 9);

    assert_eq!(writer.write(&[0, 0, 123]), 1);
    assert_eq!(writer.byte_count(), 10);

    assert_eq!(writer.write(&[42, 124, 234, 27]), 0);
    assert_eq!(writer.byte_count(), 10);
    assert_eq!(writer.crc32().0, 2992191065);

    Ok(())
}

#[test]
fn write_previous() -> Result<(), DecodeError> {
    let mut writer = TrackingWriter::new(ByteSink::with_capacity(512));

    for i in 0..=255 {
        writer.write_u8(i)?;
    }

    writer.write_previous(192, 128)?;
    assert_eq!(writer.byte_count(), 384);

    assert!(writer.write_previous(10000, 20).is_err());
    assert_eq!(writer.byte_count(), 384);

    assert!(writer.write_previous(256, 256).is_err());
    assert_eq!(writer.byte_count(), 512);

    assert!(writer.write_previous(1, 1).is_err());
    assert_eq!(writer.byte_count(), 512);
    assert_eq!(writer.crc32().0, 2733545866);

    Ok(())
}

#[test]
fn write_previous_overlapped() -> Result<(), DecodeError> {
    let mut writer = TrackingWriter::new(ByteSink::with_capacity(10));
    writer.write_u8(0b11110000)?;
    writer.write_u8(0b00001111)?;

    assert!(writer.write_previous(2, 8).is_ok());
    assert_eq!(writer.byte_count(), 10);
    assert_eq!(writer.crc32().0, 3148311779);

    Ok(())
}

#[test]
fn write_previous_copies_bytes_from_history() {
    let mut writer = TrackingWriter::new(ByteSink::new());
    let all: Vec<u8> = (0..=255).collect();
    assert_eq!(writer.write(&all), 256);
    writer.write_previous(192, 128).unwrap();
    assert_eq!(writer.byte_count(), 384);
    let (_, sink) = writer.crc32();
    let out = sink.into_vec();
    assert_eq!(&out[256..], &all[64..192]);
}

#[test]
fn write_previous_unbounded_sink_accepts_long_copy() {
    let mut writer = TrackingWriter::new(ByteSink::new());
    let all: Vec<u8> = (0..=255).cycle().take(384).map(|x: u32| x as u8).collect();
    writer.write(&all);
    assert_eq!(writer.write_previous(256, 256), Ok(()));
    assert_eq!(writer.byte_count(), 640);
}

#[test]
fn write_previous_overlapped_bytes() {
    let mut writer = TrackingWriter::new(ByteSink::new());
    writer.write(&[0xF0, 0x0F]);
    writer.write_previous(2, 8).unwrap();
    let (crc, sink) = writer.crc32();
    assert_eq!(sink.into_vec(), vec![0xF0, 0x0F, 0xF0, 0x0F, 0xF0, 0x0F, 0xF0, 0x0F, 0xF0, 0x0F]);
    assert_eq!(crc, 3148311779);
}

#[test]
fn distance_one_repeats_last_byte() {
    let mut writer = TrackingWriter::new(ByteSink::new());
    writer.write(&[7, 9]);
    writer.write_previous(1, 5).unwrap();
    assert_eq!(writer.crc32().1.into_vec(), vec![7, 9, 9, 9, 9, 9, 9]);
}

#[test]
fn distance_equal_to_length_duplicates_once() {
    let mut writer = TrackingWriter::new(ByteSink::new());
    writer.write(&[1, 2, 3, 4]);
    writer.write_previous(3, 3).unwrap();
    assert_eq!(writer.crc32().1.into_vec(), vec![1, 2, 3, 4, 2, 3, 4]);
}

#[test]
fn write_previous_rejects_bad_arguments() {
    let mut writer = TrackingWriter::new(ByteSink::new());
    writer.write(&[1, 2, 3]);
    assert_eq!(writer.write_previous(0, 1), Err(DecodeError::BadBackReference));
    assert_eq!(writer.write_previous(1, 0), Err(DecodeError::BadBackReference));
    assert_eq!(writer.write_previous(4, 1), Err(DecodeError::BadBackReference));
    assert_eq!(writer.byte_count(), 3);
}

#[test]
fn history_is_capped() {
    let mut writer = TrackingWriter::new(ByteSink::new());
    let big = vec![5u8; 40000];
    assert_eq!(writer.write(&big), 40000);
    assert_eq!(writer.write_previous(32768, 1), Ok(()));
    assert_eq!(writer.write_previous(32769, 1), Err(DecodeError::BadBackReference));
}

#[test]
fn empty_checksum_is_zero() {
    let writer = TrackingWriter::new(ByteSink::new());
    assert_eq!(writer.crc32().0, 0);
}

#[test]
fn writer_history_starts_after_existing_sink_contents() {
    let mut sink = ByteSink::new();
    sink.write(&[1, 2, 3]);
    let mut writer = TrackingWriter::new(sink);
    assert_eq!(writer.write_previous(1, 1), Err(DecodeError::BadBackReference));
    writer.write(b"abc");
    assert_eq!(writer.byte_count(), 3);
    assert_eq!(writer.crc32().0, 0x352441C2);
}
