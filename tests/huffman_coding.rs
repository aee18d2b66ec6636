use gunzip::bit_reader::{BitReader, BitSequence, ByteReader};
use gunzip::error::DecodeError;
use gunzip::huffman_coding::{
    build_fixed_trees, DistanceToken, FromCodeWord, HuffmanCodeWord, HuffmanCoding, LitLenToken,
    TreeCodeToken,
};

fn reader_over(data: &[u8]) -> BitReader {
    BitReader::new(ByteReader::new(data.to_vec()))
}

#[test]
fn from_lengths() -> Result<(), DecodeError> {
    let code = HuffmanCoding::<u16>::from_lengths(&[2, 3, 4, 3, 3, 4, 2])?;

    assert_eq!(code.decode_symbol(BitSequence::new(0b00, 2)), Some(0));
    assert_eq!(code.decode_symbol(BitSequence::new(0b100, 3)), Some(1));
    assert_eq!(code.decode_symbol(BitSequence::new(0b1110, 4)), Some(2));
    assert_eq!(code.decode_symbol(BitSequence::new(0b101, 3)), Some(3));
    assert_eq!(code.decode_symbol(BitSequence::new(0b110, 3)), Some(4));
    assert_eq!(code.decode_symbol(BitSequence::new(0b1111, 4)), Some(5));
    assert_eq!(code.decode_symbol(BitSequence::new(0b01, 2)), Some(6));

    assert_eq!(code.decode_symbol(BitSequence::new(0b0, 1)), None);
    assert_eq!(code.decode_symbol(BitSequence::new(0b10, 2)), None);
    assert_eq!(code.decode_symbol(BitSequence::new(0b111, 3)), None);

    Ok(())
}

#[test]
fn read_symbol() -> Result<(), DecodeError> {
    let code = HuffmanCoding::<u16>::from_lengths(&[2, 3, 4, 3, 3, 4, 2])?;
    let mut reader = reader_over(&[0b10111001, 0b11001010, 0b11101101]);

    assert_eq!(code.read_symbol(&mut reader)?, 1);
    assert_eq!(code.read_symbol(&mut reader)?, 2);
    assert_eq!(code.read_symbol(&mut reader)?, 3);
    assert_eq!(code.read_symbol(&mut reader)?, 6);
    assert_eq!(code.read_symbol(&mut reader)?, 0);
    assert_eq!(code.read_symbol(&mut reader)?, 2);
    assert_eq!(code.read_symbol(&mut reader)?, 4);
    assert!(code.read_symbol(&mut reader).is_err());

    Ok(())
}

#[test]
fn from_lengths_with_zeros() -> Result<(), DecodeError> {
    let lengths = [3, 4, 5, 5, 0, 0, 6, 6, 4, 0, 6, 0, 7];
    let code = HuffmanCoding::<u16>::from_lengths(&lengths)?;
    let mut reader = reader_over(&[
        0b00100000, 0b00100001, 0b00010101, 0b10010101, 0b00110101, 0b00011101,
    ]);

    assert_eq!(code.read_symbol(&mut reader)?, 0);
    assert_eq!(code.read_symbol(&mut reader)?, 1);
    assert_eq!(code.read_symbol(&mut reader)?, 2);
    assert_eq!(code.read_symbol(&mut reader)?, 3);
    assert_eq!(code.read_symbol(&mut reader)?, 6);
    assert_eq!(code.read_symbol(&mut reader)?, 7);
    assert_eq!(code.read_symbol(&mut reader)?, 8);
    assert_eq!(code.read_symbol(&mut reader)?, 10);
    assert_eq!(code.read_symbol(&mut reader)?, 12);
    assert!(code.read_symbol(&mut reader).is_err());

    Ok(())
}

#[test]
fn from_lengths_additional() -> Result<(), DecodeError> {
    let lengths = [
        9, 10, 10, 8, 8, 8, 5, 6, 4, 5, 4, 5, 4, 5, 4, 4, 5, 4, 4, 5, 4, 5, 4, 5, 5, 5, 4, 6, 6,
    ];
    let code = HuffmanCoding::<u16>::from_lengths(&lengths)?;
    let mut reader = reader_over(&[
        0b11111000, 0b10111100, 0b01010001, 0b11111111, 0b00110101, 0b11111001, 0b11011111,
        0b11100001, 0b01110111, 0b10011111, 0b10111111, 0b00110100, 0b10111010, 0b11111111,
        0b11111101, 0b10010100, 0b11001110, 0b01000011, 0b11100111, 0b00000010,
    ]);

    let expected = [
        10, 7, 27, 22, 9, 0, 11, 15, 2, 20, 8, 4, 23, 24, 5, 26, 18, 12, 25, 1, 3, 6, 13, 14, 16,
        17, 19, 21,
    ];
    for e in expected {
        assert_eq!(code.read_symbol(&mut reader)?, e);
    }

    Ok(())
}

#[test]
fn over_subscribed_lengths_are_rejected() {
    assert_eq!(
        HuffmanCoding::<u16>::from_lengths(&[1, 1, 1, 1, 1]).err(),
        Some(DecodeError::MalformedCode)
    );
    assert_eq!(
        HuffmanCoding::<u16>::from_lengths(&[1, 1, 1]).err(),
        Some(DecodeError::MalformedCode)
    );
    assert_eq!(
        HuffmanCoding::<u16>::from_lengths(&[2, 2, 2, 2, 3]).err(),
        Some(DecodeError::MalformedCode)
    );
    assert!(HuffmanCoding::<u16>::from_lengths(&[1, 2, 2]).is_ok());
    assert_eq!(
        HuffmanCoding::<u16>::from_lengths(&[16, 1]).err(),
        Some(DecodeError::MalformedCode)
    );
}

#[test]
fn reserved_symbol_fails_when_decoded() {
    let mut lengths = vec![0u8; 32];
    lengths[0] = 1;
    lengths[30] = 1;
    let code = HuffmanCoding::<DistanceToken>::from_lengths(&lengths).unwrap();
    assert_eq!(code.decode_symbol(BitSequence::new(1, 1)), None);
    let mut reader = reader_over(&[0b10]);
    assert_eq!(code.read_symbol(&mut reader), Ok(DistanceToken { base: 1, extra_bits: 0 }));
    assert_eq!(code.read_symbol(&mut reader), Err(DecodeError::ReservedSymbol));
}

#[test]
fn rebuilding_gives_the_same_table() {
    let lengths = [3u8, 4, 5, 5, 0, 0, 6, 6, 4, 0, 6, 0, 7];
    let a = HuffmanCoding::<u16>::from_lengths(&lengths).unwrap();
    let b = HuffmanCoding::<u16>::from_lengths(&lengths).unwrap();
    for len in 1u8..=7 {
        for bits in 0u16..(1 << len) {
            let s = BitSequence::new(bits, len);
            assert_eq!(a.decode_symbol(s), b.decode_symbol(s));
        }
    }
}

#[test]
fn codes_form_a_prefix_code() {
    let lengths = [3u8, 4, 5, 5, 0, 0, 6, 6, 4, 0, 6, 0, 7];
    let code = HuffmanCoding::<u16>::from_lengths(&lengths).unwrap();
    let mut keys = Vec::new();
    for len in 1u8..=7 {
        for bits in 0u16..(1 << len) {
            if code.decode_symbol(BitSequence::new(bits, len)).is_some() {
                keys.push((bits, len));
            }
        }
    }
    assert_eq!(keys.len(), 9);
    for &(b1, l1) in &keys {
        for &(b2, l2) in &keys {
            if (b1, l1) != (b2, l2) && l1 <= l2 {
                assert_ne!(b2 >> (l2 - l1), b1);
            }
        }
    }
}

#[test]
fn distance_tokens() {
    let d = |w: u16| DistanceToken::from_word(HuffmanCodeWord(w));
    assert_eq!(d(0), Ok(DistanceToken { base: 1, extra_bits: 0 }));
    assert_eq!(d(1), Ok(DistanceToken { base: 2, extra_bits: 0 }));
    assert_eq!(d(4), Ok(DistanceToken { base: 5, extra_bits: 1 }));
    assert_eq!(d(29), Ok(DistanceToken { base: 24577, extra_bits: 13 }));
    assert_eq!(d(30), Err(DecodeError::ReservedSymbol));
}

#[test]
fn litlen_tokens() {
    let l = |w: u16| LitLenToken::from_word(HuffmanCodeWord(w));
    assert_eq!(l(65), Ok(LitLenToken::Literal(65)));
    assert_eq!(l(256), Ok(LitLenToken::EndOfBlock));
    assert_eq!(l(257), Ok(LitLenToken::Length { base: 3, extra_bits: 0 }));
    assert_eq!(l(265), Ok(LitLenToken::Length { base: 11, extra_bits: 1 }));
    assert_eq!(l(284), Ok(LitLenToken::Length { base: 227, extra_bits: 5 }));
    assert_eq!(l(285), Ok(LitLenToken::Length { base: 258, extra_bits: 0 }));
    assert_eq!(l(286), Err(DecodeError::ReservedSymbol));
}

#[test]
fn tree_code_tokens() {
    let t = |w: u16| TreeCodeToken::from_word(HuffmanCodeWord(w));
    assert_eq!(t(7), Ok(TreeCodeToken::Length(7)));
    assert_eq!(t(16), Ok(TreeCodeToken::CopyPrev));
    assert_eq!(t(17), Ok(TreeCodeToken::RepeatZero { base: 3, extra_bits: 3 }));
    assert_eq!(t(18), Ok(TreeCodeToken::RepeatZero { base: 11, extra_bits: 7 }));
    assert_eq!(t(19), Err(DecodeError::ReservedSymbol));
}

#[test]
fn fixed_trees_decode_known_codes() {
    let (litlen, distance) = build_fixed_trees().unwrap();
    assert_eq!(litlen.decode_symbol(BitSequence::new(0b0000000, 7)), Some(LitLenToken::EndOfBlock));
    assert_eq!(litlen.decode_symbol(BitSequence::new(0b00110000, 8)), Some(LitLenToken::Literal(0)));
    assert_eq!(litlen.decode_symbol(BitSequence::new(0b110010000, 9)), Some(LitLenToken::Literal(144)));
    assert_eq!(
        distance.decode_symbol(BitSequence::new(0b00000, 5)),
        Some(DistanceToken { base: 1, extra_bits: 0 })
    );
}
