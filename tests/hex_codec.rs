use negentropy::hex::{decode, encode, Error};
use negentropy::Bytes;

#[test]
fn test_encode() {
    assert_eq!(encode("foobar".as_bytes()).unwrap(), "666f6f626172");
}

#[test]
fn test_decode() {
    assert_eq!(
        decode("666f6f626172"),
        Ok(String::from("foobar").into_bytes())
    );
}

#[test]
fn test_invalid_length() {
    assert_eq!(decode("1").unwrap_err(), Error::OddLength);
    assert_eq!(decode("666f6f6261721").unwrap_err(), Error::OddLength);
}

#[test]
fn test_invalid_char() {
    assert_eq!(
        decode("66ag").unwrap_err(),
        Error::InvalidHexCharacter { c: 'g', index: 3 }
    );
}

#[test]
fn hex_decode_accepts_both_cases() {
    assert_eq!(decode("ABcd0f"), Ok(vec![0xab, 0xcd, 0x0f]));
    assert_eq!(decode(""), Ok(vec![]));
}

#[test]
fn hex_decode_reports_first_bad_high_digit() {
    assert_eq!(
        decode("zz00").unwrap_err(),
        Error::InvalidHexCharacter { c: 'z', index: 0 }
    );
}

#[test]
fn hex_encode_every_nibble() {
    assert_eq!(
        encode(&[0x01, 0x23, 0x45, 0x67, 0x89, 0xab, 0xcd, 0xef]).unwrap(),
        "0123456789abcdef"
    );
    assert_eq!(encode(&[]).unwrap(), "");
}

#[test]
fn bytes_hex_round_trip() {
    let b = Bytes::from_hex("00ff10").unwrap();
    assert_eq!(b.as_bytes(), &[0x00, 0xff, 0x10]);
    assert_eq!(b.to_hex(), "00ff10");
    assert_eq!(Bytes::from_hex("abc").unwrap_err(), Error::OddLength);
}
