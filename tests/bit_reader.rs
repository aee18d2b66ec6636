use gunzip::bit_reader::{BitReader, BitSequence, ByteReader};
use gunzip::error::DecodeError;

fn reader_over(data: &[u8]) -> BitReader {
    BitReader::new(ByteReader::new(data.to_vec()))
}

#[test]
fn read_bits() -> Result<(), DecodeError> {
    let mut reader = reader_over(&[0b01100011, 0b11011011, 0b10101111]);
    assert_eq!(reader.read_bits(1)?, BitSequence::new(0b1, 1));
    assert_eq!(reader.read_bits(2)?, BitSequence::new(0b01, 2));
    assert_eq!(reader.read_bits(3)?, BitSequence::new(0b100, 3));
    assert_eq!(reader.read_bits(4)?, BitSequence::new(0b1101, 4));
    assert_eq!(reader.read_bits(5)?, BitSequence::new(0b10110, 5));
    assert_eq!(reader.read_bits(8)?, BitSequence::new(0b01011111, 8));
    assert_eq!(reader.read_bits(2).unwrap_err(), DecodeError::UnexpectedEnd);
    Ok(())
}

#[test]
fn borrow_reader_from_boundary() -> Result<(), DecodeError> {
    let mut reader = reader_over(&[0b01100011, 0b11011011, 0b10101111]);
    assert_eq!(reader.read_bits(3)?, BitSequence::new(0b011, 3));
    assert_eq!(reader.borrow_reader_from_boundary().read_u8()?, 0b11011011);
    assert_eq!(reader.read_bits(8)?, BitSequence::new(0b10101111, 8));
    Ok(())
}

#[test]
fn read_bits_known_values() {
    let mut reader = reader_over(&[0x63, 0xDB, 0xAF]);
    let got: Vec<u16> = [1u8, 2, 3, 4, 5, 8]
        .iter()
        .map(|&n| reader.read_bits(n).unwrap().bits())
        .collect();
    assert_eq!(got, vec![1, 1, 4, 13, 22, 95]);
    assert_eq!(reader.read_bits(2), Err(DecodeError::UnexpectedEnd));
}

#[test]
fn read_zero_bits_consumes_nothing() {
    let mut reader = reader_over(&[0xA5]);
    let s = reader.read_bits(0).unwrap();
    assert_eq!(s.len(), 0);
    assert_eq!(s.bits(), 0);
    assert_eq!(reader.read_bits(8).unwrap().bits(), 0xA5);
    let mut empty = reader_over(&[]);
    assert_eq!(empty.read_bits(0).unwrap(), BitSequence::new(0, 0));
}

#[test]
fn read_sixteen_bits_at_every_alignment() {
    let data = [0x12u8, 0x34, 0x56, 0x78, 0x9A];
    let all: u64 = data.iter().enumerate().map(|(i, &b)| (b as u64) << (8 * i)).sum();
    for skip in 0u8..8 {
        let mut reader = reader_over(&data);
        reader.read_bits(skip).unwrap();
        let s = reader.read_bits(16).unwrap();
        assert_eq!(s.len(), 16);
        assert_eq!(s.bits() as u64, (all >> skip) & 0xFFFF);
    }
}

#[test]
fn read_bits_result_fits_its_length() {
    let mut reader = reader_over(&[0xFF, 0xFF, 0xFF, 0xFF]);
    for n in [1u8, 3, 5, 7, 16] {
        let s = reader.read_bits(n).unwrap();
        assert_eq!(s.len(), n);
        assert!((s.bits() as u32) < (1u32 << n));
    }
}

#[test]
fn concat_appends_low_bits() {
    let a = BitSequence::new(0b101, 3);
    let b = BitSequence::new(0b01, 2);
    assert_eq!(a.concat(b), BitSequence::new(0b10101, 5));
    assert_eq!(BitSequence::new(0, 0).concat(BitSequence::new(0xFFFF, 16)), BitSequence::new(0xFFFF, 16));
}

#[test]
fn byte_reader_integers() {
    let mut r = ByteReader::new(vec![0x34, 0x12, 0x78, 0x56, 0x34, 0x12, 0xAA]);
    assert_eq!(r.read_u16_le(), Ok(0x1234));
    assert_eq!(r.read_u32_le(), Ok(0x12345678));
    assert_eq!(r.read_u16_le(), Err(DecodeError::UnexpectedEnd));
    assert_eq!(r.read_u8(), Ok(0xAA));
    assert!(r.is_empty());
}

#[test]
fn byte_reader_until_nul() {
    let mut r = ByteReader::new(vec![b'a', b'b', 0, b'c']);
    assert_eq!(r.read_until_nul(), vec![b'a', b'b', 0]);
    assert_eq!(r.read_until_nul(), vec![b'c']);
    assert_eq!(r.read_until_nul(), Vec::<u8>::new());
}
