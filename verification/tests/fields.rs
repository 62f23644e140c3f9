use librarium::ascii::Ascii;
use librarium::error::FormatError;
use librarium::numeric::parse_u32_text;
use librarium::octal::{Octal, OctalConversion};

#[test]
fn ascii_write_upper_hex() {
    let mut out = Vec::new();
    Ascii::new(0x008B_2874).write(&mut out);
    assert_eq!(out, b"008B2874".to_vec());
    let mut out = Vec::new();
    Ascii::new(0).write(&mut out);
    assert_eq!(out, b"00000000".to_vec());
    let mut out = Vec::new();
    Ascii::new(u32::MAX).write(&mut out);
    assert_eq!(out, b"FFFFFFFF".to_vec());
}

#[test]
fn ascii_read_values() {
    assert_eq!(Ascii::read(b"008B2874", 0), Ok((0x008B_2874, 8)));
    assert_eq!(Ascii::read(b"008b2874", 0), Ok((0x008B_2874, 8)));
    assert_eq!(Ascii::read(b"+0000001", 0), Ok((1, 8)));
    assert_eq!(Ascii::read(b"xx0000000Axx", 2), Ok((10, 10)));
}

#[test]
fn ascii_read_errors() {
    assert_eq!(Ascii::read(b"0000000", 0), Err(FormatError::Incomplete));
    assert_eq!(Ascii::read(b"00000000", 1), Err(FormatError::Incomplete));
    assert_eq!(Ascii::read(b"0000000G", 0), Err(FormatError::InvalidNumber));
    assert_eq!(Ascii::read(b" 0000001", 0), Err(FormatError::InvalidNumber));
    assert_eq!(Ascii::read(b"-0000001", 0), Err(FormatError::InvalidNumber));
    assert_eq!(Ascii::read(&[0x30, 0x30, 0x30, 0x30, 0x30, 0x30, 0x30, 0xff], 0), Err(FormatError::InvalidNumber));
}

#[test]
fn ascii_round_trip_values() {
    for v in [0u32, 1, 9, 10, 15, 16, 255, 0x1234_5678, 0xDEAD_BEEF, u32::MAX] {
        let mut out = Vec::new();
        Ascii::new(v).write(&mut out);
        assert_eq!(Ascii::read(&out, 0), Ok((v, 8)));
    }
}

#[test]
fn parse_number_text() {
    assert_eq!(parse_u32_text(b"ff", 16), Some(255));
    assert_eq!(parse_u32_text(b"FF", 16), Some(255));
    assert_eq!(parse_u32_text(b"+7", 8), Some(7));
    assert_eq!(parse_u32_text(b"8", 8), None);
    assert_eq!(parse_u32_text(b"", 10), None);
    assert_eq!(parse_u32_text(b"+", 10), None);
    assert_eq!(parse_u32_text(b"4294967295", 10), Some(u32::MAX));
    assert_eq!(parse_u32_text(b"4294967296", 10), None);
}

#[test]
fn octal_bytes_of_values() {
    assert_eq!(0u32.to_octal_bytes(), b"0".to_vec());
    assert_eq!(7u32.to_octal_bytes(), b"7".to_vec());
    assert_eq!(8u32.to_octal_bytes(), b"10".to_vec());
    assert_eq!(0o100644u32.to_octal_bytes(), b"100644".to_vec());
    assert_eq!(u64::MAX.to_octal_bytes(), b"1777777777777777777777".to_vec());
}

#[test]
fn octal_from_text() {
    assert_eq!(<u32 as OctalConversion>::from_octal_string("777"), 511);
    assert_eq!(<u32 as OctalConversion>::from_octal_string("+10"), 8);
    assert_eq!(<u32 as OctalConversion>::from_octal_string("9"), 0);
    assert_eq!(<u32 as OctalConversion>::from_octal_string(""), 0);
    assert_eq!(<u32 as OctalConversion>::from_octal_string("77777777777"), 0);
    assert_eq!(<u64 as OctalConversion>::from_octal_string("77777777777"), 0o77777777777);
}

#[test]
fn octal_round_trip_values() {
    for v in [0u64, 1, 8, 0o777, 1 << 40, u64::MAX] {
        let text = String::from_utf8(v.to_octal_bytes()).unwrap();
        assert_eq!(<u64 as OctalConversion>::from_octal_string(&text), v);
    }
}

#[test]
fn octal_field_read_write() {
    assert_eq!(Octal::<u32, 6>::read(b"000777", 0).map(|(v, e)| (v, e)), Ok((511, 6)));
    assert_eq!(Octal::<u64, 11>::read(b"00000000012", 0).map(|(v, e)| (v, e)), Ok((10, 11)));
    assert_eq!(Octal::<u32, 6>::read(b"00077", 0).map(|(v, e)| (v, e)), Err(FormatError::Incomplete));
    assert_eq!(Octal::<u32, 6>::read(b"0007x7", 0).map(|(v, e)| (v, e)), Ok((0, 6)));
    assert_eq!(Octal::<u32, 6>::read(&[0x30, 0x30, 0x30, 0x30, 0x30, 0xff], 0).map(|(v, e)| (v, e)), Err(FormatError::InvalidNumber));
    let mut out = Vec::new();
    Octal::<u32, 6>::new(0o644).write(&mut out);
    assert_eq!(out, b"644".to_vec());
}
