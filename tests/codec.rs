use negentropy::encoding::{
    decode_bound, decode_timestamp_in, decode_var_int, encode_var_int, push_bound,
    push_timestamp_out, MAX_U64,
};
use negentropy::{
    binary_search_upper_bound, get_minimal_bound, item_less, Bound, Error, Fingerprint, Item,
    Mode,
};

fn item(ts: u64, id: &[u8]) -> Item {
    Item::with_timestamp_and_id(ts, id).unwrap()
}

#[test]
fn varint_known_encodings() {
    assert_eq!(encode_var_int(0), vec![0x00]);
    assert_eq!(encode_var_int(1), vec![0x01]);
    assert_eq!(encode_var_int(127), vec![0x7f]);
    assert_eq!(encode_var_int(128), vec![0x81, 0x00]);
    assert_eq!(encode_var_int(300), vec![0x82, 0x2c]);
    assert_eq!(encode_var_int(16384), vec![0x81, 0x80, 0x00]);
    assert_eq!(encode_var_int(u64::MAX).len(), 10);
}

#[test]
fn varint_round_trip() {
    for n in [0u64, 1, 127, 128, 255, 16383, 16384, 1 << 35, u64::MAX - 1, u64::MAX] {
        let mut enc = encode_var_int(n);
        let len = enc.len();
        enc.extend_from_slice(&[0x55, 0x01]);
        assert_eq!(decode_var_int(&enc, 0), Ok((n, len)));
    }
}

#[test]
fn varint_length_is_number_of_base128_digits() {
    assert_eq!(encode_var_int(127).len(), 1);
    assert_eq!(encode_var_int(128).len(), 2);
    assert_eq!(encode_var_int((1 << 14) - 1).len(), 2);
    assert_eq!(encode_var_int(1 << 14).len(), 3);
    assert_eq!(encode_var_int(1 << 63).len(), 10);
}

#[test]
fn varint_premature_end() {
    assert_eq!(decode_var_int(&[0x81], 0), Err(Error::PrematureEndOfVarInt));
    assert_eq!(decode_var_int(&[0x05, 0x80], 1), Err(Error::PrematureEndOfVarInt));
    assert_eq!(decode_var_int(&[], 0), Err(Error::PrematureEndOfVarInt));
}

#[test]
fn timestamp_delta_round_trip() {
    let ts = [0u64, 5, 5, 17, 1_000_000, MAX_U64];
    let mut out = Vec::new();
    let mut last_out = 0u64;
    for t in ts {
        push_timestamp_out(&mut out, t, &mut last_out);
    }
    // deltas: 0 -> 1, 5 -> 6, 5 -> 1, 17 -> 13, 1_000_000 -> 999_984, MAX -> 0
    assert_eq!(&out[..4], &[0x01, 0x06, 0x01, 0x0d]);
    assert_eq!(*out.last().unwrap(), 0x00);
    let mut pos = 0;
    let mut last_in = 0u64;
    let mut back = Vec::new();
    while pos < out.len() {
        let (t, p) = decode_timestamp_in(&out, pos, &mut last_in).unwrap();
        back.push(t);
        pos = p;
    }
    assert_eq!(back, ts.to_vec());
}

#[test]
fn timestamp_in_saturates() {
    let enc = encode_var_int(10);
    let mut last = MAX_U64 - 3;
    assert_eq!(decode_timestamp_in(&enc, 0, &mut last), Ok((MAX_U64, 1)));
    assert_eq!(last, MAX_U64);
}

#[test]
fn bound_round_trip() {
    let b = Bound::with_timestamp_and_id(42, &[0xaa, 0xbb]).unwrap();
    let mut out = Vec::new();
    let mut last = 40u64;
    push_bound(&mut out, &b, &mut last);
    assert_eq!(out, vec![0x03, 0x02, 0xaa, 0xbb]);
    assert_eq!(last, 42);
    let mut last_in = 40u64;
    let (d, p) = decode_bound(&out, 0, &mut last_in).unwrap();
    assert_eq!(p, 4);
    assert_eq!(d.item.timestamp, 42);
    assert_eq!(d.id_len, 2);
    assert_eq!(&d.item.id[..3], &[0xaa, 0xbb, 0x00]);
}

#[test]
fn bound_errors() {
    assert_eq!(
        Bound::with_timestamp_and_id(1, &[0u8; 33]).unwrap_err(),
        Error::IdTooBig
    );
    let mut last = 0u64;
    // id length 33 with 33 bytes present
    let mut buf = vec![0x01, 33];
    buf.extend_from_slice(&[7u8; 33]);
    assert_eq!(decode_bound(&buf, 0, &mut last).unwrap_err(), Error::IdTooBig);
    let mut last = 0u64;
    assert_eq!(
        decode_bound(&[0x01, 0x05, 0xaa], 0, &mut last).unwrap_err(),
        Error::ParseEndsPrematurely
    );
}

#[test]
fn minimal_bound_different_timestamps() {
    let prev = item(5, &[0x11; 16]);
    let curr = item(9, &[0x01; 16]);
    let b = get_minimal_bound(&prev, &curr);
    assert_eq!(b.item.timestamp, 9);
    assert_eq!(b.id_len, 0);
    assert!(item_less(&prev, &b.item));
}

#[test]
fn minimal_bound_shared_prefix() {
    let prev = item(7, &[0xaa, 0xbb, 0x10, 0x00, 0, 0, 0, 0]);
    let curr = item(7, &[0xaa, 0xbb, 0x20, 0x05, 0, 0, 0, 0]);
    let b = get_minimal_bound(&prev, &curr);
    assert_eq!(b.item.timestamp, 7);
    assert_eq!(b.id_len, 3);
    assert_eq!(&b.item.id[..4], &[0xaa, 0xbb, 0x20, 0x00]);
    assert!(item_less(&prev, &b.item));
    assert!(!item_less(&curr, &b.item));
    // one byte shorter is not above prev
    let shorter = Bound::with_timestamp_and_id(7, &[0xaa, 0xbb]).unwrap();
    assert!(!item_less(&prev, &shorter.item));
}

#[test]
fn fingerprint_ignores_order() {
    let a = item(1, &[0x0f; 16]);
    let b = item(2, &[0xf0; 16]);
    let c = item(3, &[0x3c, 0x01, 0x02, 0x03, 0x04, 0x05, 0x06, 0x07]);
    let mut f1 = Fingerprint::new();
    for x in [&a, &b, &c] {
        f1.add_item(x);
    }
    let mut f2 = Fingerprint::new();
    for x in [&c, &a, &b] {
        f2.add_item(x);
    }
    assert_eq!(f1.vec(), f2.vec());
    assert_eq!(f1.vec()[0], 0x0f ^ 0xf0 ^ 0x3c);
    assert_eq!(f1.vec()[1], 0x0f ^ 0xf0 ^ 0x01);
    assert_eq!(f1.vec()[10], 0x0f ^ 0xf0);
    assert_eq!(f1.vec()[20], 0);
    assert_eq!(Fingerprint::new().vec(), vec![0u8; 32]);
}

#[test]
fn binary_search_finds_first_not_below() {
    let items = vec![item(1, &[1; 8]), item(3, &[1; 8]), item(3, &[2; 8]), item(8, &[0; 8])];
    assert_eq!(binary_search_upper_bound(&items, &Item::with_timestamp(0)), 0);
    assert_eq!(binary_search_upper_bound(&items, &Item::with_timestamp(3)), 1);
    assert_eq!(binary_search_upper_bound(&items, &item(3, &[2; 8])), 2);
    assert_eq!(binary_search_upper_bound(&items, &item(3, &[2, 2, 2, 2, 2, 2, 2, 3])), 3);
    assert_eq!(binary_search_upper_bound(&items, &Item::with_timestamp(MAX_U64)), 4);
}

#[test]
fn mode_tags() {
    assert_eq!(Mode::Skip.as_u64(), 0);
    assert_eq!(Mode::Fingerprint.as_u64(), 1);
    assert_eq!(Mode::IdList.as_u64(), 2);
    assert_eq!(Mode::Deprecated.as_u64(), 3);
    assert_eq!(Mode::Continuation.as_u64(), 4);
    assert_eq!(Mode::from_u64(2), Ok(Mode::IdList));
    assert_eq!(Mode::from_u64(9), Err(Error::UnexpectedMode(9)));
}

#[test]
fn item_constructors() {
    let it = Item::with_timestamp_and_id(3, &[1, 2, 3]).unwrap();
    assert_eq!(it.timestamp, 3);
    assert_eq!(&it.get_id()[..4], &[1, 2, 3, 0]);
    assert_eq!(it.get_id_prefix(2), vec![1, 2]);
    assert_eq!(Item::new().timestamp, 0);
    assert_eq!(Item::with_timestamp_and_id(0, &[0u8; 40]).unwrap_err(), Error::IdTooBig);
    let b = Bound::from_item(&it);
    assert_eq!(b.id_len, 32);
    assert_eq!(Bound::new().id_len, 0);
    assert_eq!(Bound::with_timestamp(9).item.timestamp, 9);
}
