use gunzip::bit_reader::ByteReader;
use gunzip::decompress;
use gunzip::error::DecodeError;
use gunzip::gzip::{CompressionMethod, GzipReader, MemberFlags, MemberHeader};
use gunzip::tracking_writer::ByteSink;

const EMPTY_MEMBER: [u8; 20] = [
    0x1f, 0x8b, 8, 0, 0, 0, 0, 0, 0, 3, 0x03, 0x00, 0, 0, 0, 0, 0, 0, 0, 0,
];

const HELLO_MEMBER: [u8; 33] = [
    31, 139, 8, 0, 0, 0, 0, 0, 0, 3, 243, 72, 205, 201, 201, 215, 81, 40, 207, 47, 202, 73, 81,
    4, 0, 230, 198, 230, 235, 13, 0, 0, 0,
];

const DYNAMIC_MEMBER: [u8; 442] = [31, 139, 8, 0, 0, 0, 0, 0, 0, 3, 109, 84, 9, 142, 195, 32, 12, 252, 10, 95, 163, 219, 168, 65, 27, 18, 212, 6, 169, 202, 235, 23, 123, 108, 24, 218, 149, 18, 66, 176, 61, 30, 95, 108, 49, 223, 238, 49, 44, 229, 149, 182, 99, 15, 123, 13, 183, 229, 140, 225, 17, 115, 142, 225, 149, 30, 109, 189, 47, 91, 59, 201, 53, 156, 209, 164, 207, 245, 8, 242, 37, 213, 119, 146, 7, 251, 115, 253, 132, 104, 34, 213, 21, 4, 192, 65, 167, 35, 202, 70, 94, 247, 15, 177, 110, 129, 224, 4, 127, 99, 41, 138, 231, 7, 204, 81, 16, 160, 128, 211, 75, 236, 135, 72, 222, 5, 161, 224, 16, 90, 70, 218, 169, 84, 3, 150, 125, 73, 35, 128, 13, 153, 58, 114, 250, 121, 54, 177, 232, 251, 62, 187, 91, 208, 190, 70, 4, 3, 27, 10, 146, 185, 242, 133, 5, 153, 59, 134, 13, 24, 138, 126, 243, 173, 136, 219, 92, 170, 146, 122, 90, 57, 213, 226, 203, 52, 237, 211, 216, 213, 97, 195, 188, 97, 135, 53, 29, 136, 23, 127, 10, 107, 49, 145, 1, 78, 90, 145, 26, 102, 220, 202, 26, 57, 5, 23, 103, 15, 244, 139, 17, 28, 104, 206, 30, 233, 217, 181, 226, 221, 171, 34, 56, 98, 19, 32, 34, 101, 230, 118, 239, 196, 167, 237, 47, 43, 4, 224, 150, 41, 131, 23, 31, 89, 191, 233, 10, 230, 150, 11, 213, 82, 48, 16, 132, 240, 203, 29, 37, 145, 50, 236, 106, 82, 38, 23, 223, 56, 8, 24, 35, 76, 60, 61, 49, 222, 234, 163, 128, 108, 72, 173, 107, 190, 38, 124, 72, 192, 85, 219, 250, 159, 105, 32, 202, 80, 28, 94, 234, 24, 119, 183, 212, 20, 144, 73, 214, 186, 0, 169, 115, 118, 118, 109, 219, 30, 36, 204, 80, 167, 186, 27, 101, 239, 169, 203, 47, 13, 75, 174, 253, 229, 79, 222, 16, 139, 136, 161, 21, 197, 244, 47, 155, 95, 20, 18, 86, 88, 69, 193, 220, 66, 200, 115, 220, 187, 205, 250, 228, 236, 147, 216, 27, 25, 171, 51, 70, 207, 17, 74, 158, 166, 189, 61, 124, 213, 241, 149, 214, 140, 121, 88, 113, 226, 40, 115, 61, 224, 158, 199, 125, 175, 110, 161, 129, 142, 91, 7, 74, 123, 229, 233, 160, 46, 159, 90, 125, 238, 96, 30, 223, 229, 131, 6, 93, 11, 95, 181, 152, 175, 93, 197, 252, 3, 147, 100, 217, 90, 44, 6, 0, 0];

fn stored_member(payload: &[u8]) -> Vec<u8> {
    let mut out = vec![0x1f, 0x8b, 8, 0, 0, 0, 0, 0, 0, 3];
    let len = payload.len() as u16;
    out.push(1);
    out.extend_from_slice(&len.to_le_bytes());
    out.extend_from_slice(&(!len).to_le_bytes());
    out.extend_from_slice(payload);
    let crc = crc::Crc::<u32>::new(&crc::CRC_32_ISO_HDLC).checksum(payload);
    out.extend_from_slice(&crc.to_le_bytes());
    out.extend_from_slice(&(payload.len() as u32).to_le_bytes());
    out
}

#[test]
fn empty_member_decodes_to_nothing() {
    assert_eq!(decompress(EMPTY_MEMBER.to_vec()), Ok(vec![]));
}

#[test]
fn empty_input_decodes_to_nothing() {
    assert_eq!(decompress(vec![]), Ok(vec![]));
}

#[test]
fn fixed_block_hello_world() {
    assert_eq!(decompress(HELLO_MEMBER.to_vec()), Ok(b"Hello, world!".to_vec()));
}

#[test]
fn dynamic_block_member() {
    let out = decompress(DYNAMIC_MEMBER.to_vec()).unwrap();
    assert_eq!(out.len(), 1580);
    assert!(out.starts_with(b"lambda epsilon nu beta gamma sigma delta"));
    assert!(out.ends_with(b"ilon sigma sigma epsilon alpha"));
}

#[test]
fn members_concatenate() {
    let mut input = HELLO_MEMBER.to_vec();
    input.extend_from_slice(&EMPTY_MEMBER);
    input.extend_from_slice(&HELLO_MEMBER);
    let mut expected = b"Hello, world!".to_vec();
    expected.extend_from_slice(b"Hello, world!");
    assert_eq!(decompress(input), Ok(expected));
}

#[test]
fn stored_block_of_zero_length() {
    assert_eq!(decompress(stored_member(&[])), Ok(vec![]));
}

#[test]
fn stored_block_of_largest_length() {
    let payload: Vec<u8> = (0..65535u32).map(|i| (i % 251) as u8).collect();
    assert_eq!(decompress(stored_member(&payload)), Ok(payload));
}

#[test]
fn stored_length_mismatch() {
    let mut input = stored_member(b"abc");
    input[13] ^= 1;
    assert_eq!(decompress(input), Err(DecodeError::StoredLengthMismatch));
}

#[test]
fn bad_magic() {
    let mut input = EMPTY_MEMBER.to_vec();
    input[1] = 0x8c;
    assert_eq!(decompress(input), Err(DecodeError::BadMagic));
}

#[test]
fn unsupported_method() {
    let mut input = EMPTY_MEMBER.to_vec();
    input[2] = 7;
    assert_eq!(decompress(input), Err(DecodeError::UnsupportedMethod));
}

#[test]
fn crc_mismatch() {
    let mut input = HELLO_MEMBER.to_vec();
    input[25] ^= 0xff;
    assert_eq!(decompress(input), Err(DecodeError::CrcMismatch));
}

#[test]
fn length_mismatch() {
    let mut input = HELLO_MEMBER.to_vec();
    input[29] = 14;
    assert_eq!(decompress(input), Err(DecodeError::LengthMismatch));
}

#[test]
fn truncated_input() {
    let input = HELLO_MEMBER[..20].to_vec();
    assert_eq!(decompress(input), Err(DecodeError::UnexpectedEnd));
    assert_eq!(decompress(vec![0x1f]), Err(DecodeError::UnexpectedEnd));
}

#[test]
fn reserved_block_type() {
    let mut input = EMPTY_MEMBER.to_vec();
    input[10] = 0x07;
    assert_eq!(decompress(input), Err(DecodeError::ReservedBlockType));
}

#[test]
fn back_reference_before_start() {
    // A fixed block whose first symbol is length 3 (code 0000001) at distance 1.
    let mut input = vec![0x1f, 0x8b, 8, 0, 0, 0, 0, 0, 0, 3];
    input.extend_from_slice(&[0x03, 0x02, 0x00, 0x00]);
    input.extend_from_slice(&[0; 8]);
    assert_eq!(decompress(input), Err(DecodeError::BadBackReference));
}

#[test]
fn header_with_optional_fields() {
    let input = vec![
        31, 139, 8, 30, 1, 2, 3, 4, 0, 3, 3, 0, 120, 121, 122, 102, 105, 108, 101, 46, 116, 120,
        116, 0, 110, 111, 116, 101, 0, 41, 159, 75, 76, 74, 6, 0, 194, 65, 36, 53, 3, 0, 0, 0,
    ];
    assert_eq!(decompress(input.clone()), Ok(b"abc".to_vec()));
    let reader = GzipReader::new(ByteReader::new(input), ByteSink::new());
    let (header, _) = reader.next_member().ok().unwrap();
    assert_eq!(header.extra, Some(b"xyz".to_vec()));
    assert_eq!(header.name, Some(b"file.txt".to_vec()));
    assert_eq!(header.comment, Some(b"note".to_vec()));
    assert_eq!(header.modification_time, 0x04030201);
    assert!(header.has_crc);
    assert_eq!(header.crc16(), 0x9f29);
}

#[test]
fn header_crc_mismatch() {
    let mut input = vec![
        31, 139, 8, 30, 1, 2, 3, 4, 0, 3, 3, 0, 120, 121, 122, 102, 105, 108, 101, 46, 116, 120,
        116, 0, 110, 111, 116, 101, 0, 41, 159, 75, 76, 74, 6, 0, 194, 65, 36, 53, 3, 0, 0, 0,
    ];
    input[29] ^= 1;
    assert_eq!(decompress(input), Err(DecodeError::HeaderCrcMismatch));
}

#[test]
fn unterminated_name() {
    let input = vec![31, 139, 8, 8, 0, 0, 0, 0, 0, 3, b'a', b'b'];
    assert_eq!(decompress(input), Err(DecodeError::UnterminatedString));
}

#[test]
fn header_flags_and_method() {
    let header = MemberHeader {
        compression_method: CompressionMethod::Deflate,
        modification_time: 0,
        extra: None,
        name: Some(b"x".to_vec()),
        comment: None,
        extra_flags: 0,
        os: 3,
        has_crc: true,
        is_text: false,
    };
    let flags: MemberFlags = header.flags();
    assert!(flags.has_name());
    assert!(flags.has_crc());
    assert!(!flags.is_text());
    assert!(!flags.has_extra());
    assert!(!flags.has_comment());
    assert_eq!(u8::from(CompressionMethod::from(8u8)), 8);
    assert_eq!(CompressionMethod::from(9u8), CompressionMethod::Unknown(9));
}

#[test]
fn flag_setters() {
    let header = MemberHeader {
        compression_method: CompressionMethod::Deflate,
        modification_time: 0,
        extra: None,
        name: None,
        comment: None,
        extra_flags: 0,
        os: 3,
        has_crc: false,
        is_text: false,
    };
    let mut flags = header.flags();
    flags.set_is_text(true);
    flags.set_has_comment(true);
    flags.set_has_extra(true);
    flags.set_has_name(true);
    flags.set_has_crc(true);
    assert!(flags.is_text() && flags.has_comment() && flags.has_extra() && flags.has_name() && flags.has_crc());
    flags.set_has_comment(false);
    assert!(!flags.has_comment());
    assert!(flags.is_text());
}

fn member_with_deflate(deflate: &[u8]) -> Vec<u8> {
    let mut input = vec![0x1f, 0x8b, 8, 0, 0, 0, 0, 0, 0, 3];
    input.extend_from_slice(deflate);
    input.extend_from_slice(&[0; 8]);
    input
}

#[test]
fn copy_previous_length_first_fails() {
    assert_eq!(decompress(member_with_deflate(&[5, 0, 18, 0])), Err(DecodeError::NoPrevLength));
}

#[test]
fn code_length_repeat_overrun_fails() {
    assert_eq!(
        decompress(member_with_deflate(&[5, 0, 144, 224, 255, 31])),
        Err(DecodeError::OverrunLengths)
    );
}

#[test]
fn header_checksum_covers_raw_bytes() {
    // The FHCRC field checks the header bytes as they stand, reserved flag bits included.
    let mut input = vec![31, 139, 8, 0b0010_0010, 0, 0, 0, 0, 0, 3];
    let crc = crc::Crc::<u32>::new(&crc::CRC_32_ISO_HDLC).checksum(&input);
    input.extend_from_slice(&((crc & 0xffff) as u16).to_le_bytes());
    input.extend_from_slice(&EMPTY_MEMBER[10..]);
    assert_eq!(decompress(input), Ok(vec![]));
}
