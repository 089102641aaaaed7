use x3::bitreader::BitReader;
use x3::error::X3Error;
use x3::metadata::{params_from_texts, parse_codes, parse_numbers, parse_u32, split_at_commas};
use x3::x3::Parameters;

#[test]
fn decimal_numbers() {
    assert_eq!(parse_u32(b"0"), Some(0));
    assert_eq!(parse_u32(b"48000"), Some(48000));
    assert_eq!(parse_u32(b"4294967295"), Some(4294967295));
    assert_eq!(parse_u32(b"4294967296"), None);
    assert_eq!(parse_u32(b""), None);
    assert_eq!(parse_u32(b"12a"), None);
    assert_eq!(parse_u32(b"-1"), None);
}

#[test]
fn comma_split_keeps_empty_pieces() {
    assert_eq!(split_at_commas(b"a,,bc"), vec![b"a".to_vec(), vec![], b"bc".to_vec()]);
    assert_eq!(split_at_commas(b""), vec![Vec::<u8>::new()]);
}

#[test]
fn codes_and_numbers() {
    assert_eq!(parse_codes(b"RICE0,BFP,RICE3"), Some(vec![0, 3]));
    assert_eq!(parse_codes(b"RICE4"), None);
    assert_eq!(parse_numbers(b"3,8,20"), Some(vec![3, 8, 20]));
    assert_eq!(parse_numbers(b"3,,20"), None);
}

#[test]
fn params_from_element_texts() {
    let (rate, p) = params_from_texts(b"8000", b"20", b"RICE0,RICE1,RICE2,RICE3,BFP", b"3,8,20").unwrap();
    assert_eq!(rate, 8000);
    assert_eq!(p.block_len, 20);
    assert_eq!(p.blocks_per_frame, 500);
    assert_eq!(p.rice_codes, [0, 1, 2]);
    assert_eq!(p.thresholds, [3, 8, 20]);
    assert_eq!(
        params_from_texts(b"8000", b"20", b"RICE0,RICE1", b"3,8,20").err(),
        Some(X3Error::ArchiveHeaderInvalid)
    );
    assert_eq!(
        params_from_texts(b"8000", b"20", b"RICE0,RICE1,RICE2", b"3,8,20,30").err(),
        Some(X3Error::ArchiveHeaderInvalid)
    );
    assert_eq!(
        params_from_texts(b"8000", b"0", b"RICE0,RICE1,RICE2", b"3,8,20").err(),
        Some(X3Error::ArchiveHeaderInvalid)
    );
    assert_eq!(
        params_from_texts(b"8000", b"20", b"RICE0,X,RICE2", b"3,8,20").err(),
        Some(X3Error::ArchiveHeaderRiceCode)
    );
}

#[test]
fn parameters_checks() {
    assert_eq!(Parameters::new(0, 500, [0, 1, 2], [3, 8, 20]).err(), Some(X3Error::ArchiveHeaderInvalid));
    assert_eq!(Parameters::new(20, 500, [0, 1, 2], [3, 3, 20]).err(), Some(X3Error::ArchiveHeaderInvalid));
    assert_eq!(Parameters::new(20, 500, [0, 4, 2], [3, 8, 20]).err(), Some(X3Error::ArchiveHeaderRiceCode));
    assert!(Parameters::new(20, 500, [0, 1, 2], [3, 8, 20]).is_ok());
}

#[test]
fn bit_reader_reads_across_bytes() {
    let data = [0b1011_0011u8, 0b1100_0001, 0xff];
    let mut br = BitReader::new(&data);
    assert_eq!(br.read_bits(3), Ok(0b101));
    assert_eq!(br.read_bits(7), Ok(0b1001111));
    assert_eq!(br.pos, 10);
    assert_eq!(br.read_unary_terminator(), Ok(0));
    assert_eq!(br.pos, 11);
    assert_eq!(br.remaining_bits(), 13);
    br.align_to_byte();
    assert_eq!(br.pos, 16);
    assert!(br.compare_bytes(&[0xff]));
    assert!(!br.compare_bytes(&[0xfe]));
    assert_eq!(br.read_unary_terminator(), Err(X3Error::EndOfStream));
    assert_eq!(br.pos, 16);
    assert_eq!(br.read_bits(9), Err(X3Error::EndOfStream));
    assert_eq!(br.pos, 16);
    assert_eq!(br.byte_slice(1), Ok(&[0xffu8][..]));
    assert_eq!(br.pos, 24);
}

#[test]
fn bit_reader_unary_and_byte_slices() {
    let data = [0b1110_0000u8, 0xab, 0xcd];
    let mut br = BitReader::new(&data);
    assert_eq!(br.read_unary_terminator(), Ok(3));
    assert_eq!(br.byte_slice(1), Err(X3Error::EndOfStream));
    br.align_to_byte();
    assert_eq!(br.byte_slice(3), Err(X3Error::EndOfStream));
    assert_eq!(br.byte_slice(2), Ok(&[0xabu8, 0xcd][..]));
    assert_eq!(br.read_bits(32), Err(X3Error::EndOfStream));
    let full = [0x12u8, 0x34, 0x56, 0x78];
    let mut br2 = BitReader::new(&full);
    assert_eq!(br2.read_bits(32), Ok(0x12345678));
}

#[test]
fn malformed_number_wins_over_unknown_code() {
    assert_eq!(
        params_from_texts(b"48k", b"20", b"RICE0,X,RICE2", b"3,8,20").err(),
        Some(X3Error::ArchiveHeaderInvalid)
    );
    assert_eq!(
        params_from_texts(b"48000", b"", b"RICE0,X,RICE2", b"3,8,20").err(),
        Some(X3Error::ArchiveHeaderInvalid)
    );
    // an unknown code is reported before a malformed threshold
    assert_eq!(
        params_from_texts(b"48000", b"20", b"RICE0,X,RICE2", b"3,x,20").err(),
        Some(X3Error::ArchiveHeaderRiceCode)
    );
}

#[test]
fn thresholds_are_read_as_usize() {
    assert_eq!(parse_numbers(b"3,8,4294967296"), Some(vec![3usize, 8, 4294967296]));
    let (_, p) = params_from_texts(b"8000", b"20", b"RICE0,RICE1,RICE2", b"3,8,4294967296").unwrap();
    assert_eq!(p.thresholds, [3, 8, 4294967296]);
}
