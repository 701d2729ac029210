use vstd::prelude::*;
use vstd::string::StringSliceAdditionalSpecFns;

verus! {

/// What can go wrong decoding hex.
#[derive(Debug, Clone, Copy, PartialEq, Eq, Structural)]
pub enum Error {
    /// A digit that cannot be written.
    InvalidChar,
    /// The character `c` at byte `index` is not a hex digit.
    InvalidHexCharacter { c: char, index: usize },
    /// An odd number of digits: two make one byte.
    OddLength,
}

/// The lower-case hex digit of `n < 16`, as an ASCII byte.
pub open spec fn hex_digit(n: u8) -> u8 {
    if n < 10 {
        (48 + n) as u8
    } else {
        (87 + n) as u8
    }
}

/// Two lower-case hex digits per byte of `b`, high nibble first.
pub open spec fn hex_of(b: Seq<u8>) -> Seq<u8>
    decreases b.len(),
{
    if b.len() == 0 {
        Seq::empty()
    } else {
        hex_of(b.drop_last()) + seq![hex_digit(b.last() / 16), hex_digit(b.last() % 16)]
    }
}

/// The value of hex digit `c` (either case), if it is one.
pub open spec fn hex_value(c: u8) -> Option<u8> {
    if 48 <= c <= 57 {
        Some((c - 48) as u8)
    } else if 65 <= c <= 70 {
        Some((c - 55) as u8)
    } else if 97 <= c <= 102 {
        Some((c - 87) as u8)
    } else {
        None
    }
}

/// The bytes that the valid hex digits `s` stand for.
pub open spec fn bytes_of_hex(s: Seq<u8>) -> Seq<u8> {
    Seq::new(
        s.len() / 2,
        |i: int| (hex_value(s[2 * i])->Some_0 * 16 + hex_value(s[2 * i + 1])->Some_0) as u8,
    )
}

/// Relies on `String::from_utf8`: ASCII bytes are valid UTF-8, and each
/// becomes the character with its code.
#[verifier::external_body]
fn ascii_to_string(v: Vec<u8>) -> (r: String)
    requires
        forall|i: int| 0 <= i < v@.len() ==> v@[i] < 128,
    ensures
        r@ == v@.map_values(|b: u8| b as char),
{
    String::from_utf8(v).unwrap_or_default()
}

fn hex_digit_exec(n: u8) -> (r: u8)
    requires
        n < 16,
    ensures
        r == hex_digit(n),
        r < 128,
{
    if n < 10 {
        48 + n
    } else {
        87 + n
    }
}

/// The lower-case hex of `data`, two digits per byte.
pub fn encode(data: &[u8]) -> (r: Result<String, Error>)
    ensures
        r matches Ok(s) && s@ == hex_of(data@).map_values(|b: u8| b as char),
{
    let mut out: Vec<u8> = Vec::new();
    let mut i: usize = 0;
    while i < data.len()
        invariant
            i <= data@.len(),
            out@ == hex_of(data@.take(i as int)),
            forall|j: int| 0 <= j < out@.len() ==> out@[j] < 128,
        decreases data@.len() - i,
    {
        let b = data[i];
        out.push(hex_digit_exec(b / 16));
        out.push(hex_digit_exec(b % 16));
        proof {
            let t = data@.take(i + 1);
            assert(t.drop_last() =~= data@.take(i as int));
            assert(t.last() == b);
        }
        i = i + 1;
    }
    assert(data@.take(i as int) =~= data@);
    Ok(ascii_to_string(out))
}

fn hex_value_exec(c: u8, index: usize) -> (r: Result<u8, Error>)
    ensures
        match r {
            Ok(v) => hex_value(c) == Some(v) && v < 16,
            Err(e) => hex_value(c) is None && e == Error::InvalidHexCharacter { c: c as char, index },
        },
{
    if 48 <= c && c <= 57 {
        Ok(c - 48)
    } else if 65 <= c && c <= 70 {
        Ok(c - 55)
    } else if 97 <= c && c <= 102 {
        Ok(c - 87)
    } else {
        Err(Error::InvalidHexCharacter { c: c as char, index })
    }
}

/// The bytes that the hex digits `hex` stand for (either case). Fails with
/// `OddLength` for an odd number of digits, else with
/// `InvalidHexCharacter` at the first byte that is no hex digit.
pub fn decode(hex: &str) -> (r: Result<Vec<u8>, Error>)
    ensures
        hex.spec_bytes().len() % 2 != 0 <==> r == Err::<Vec<u8>, Error>(Error::OddLength),
        hex.spec_bytes().len() % 2 == 0 && (forall|i: int|
            0 <= i < hex.spec_bytes().len() ==> hex_value(#[trigger] hex.spec_bytes()[i]) is Some)
            ==> r is Ok,
        r matches Ok(v) ==> v@ == bytes_of_hex(hex.spec_bytes()),
        r is Ok ==> forall|i: int|
            0 <= i < hex.spec_bytes().len() ==> hex_value(#[trigger] hex.spec_bytes()[i]) is Some,
        r matches Err(Error::InvalidHexCharacter { c, index }) ==> index < hex.spec_bytes().len()
            && hex_value(hex.spec_bytes()[index as int]) is None && c == hex.spec_bytes()[index as int] as char
            && forall|j: int| 0 <= j < index ==> hex_value(#[trigger] hex.spec_bytes()[j]) is Some,
        r != Err::<Vec<u8>, Error>(Error::InvalidChar),
{
    let s = hex.as_bytes();
    let len = s.len();
    if len % 2 != 0 {
        return Err(Error::OddLength);
    }
    let mut bytes: Vec<u8> = Vec::new();
    let mut i: usize = 0;
    while i < len
        invariant
            s@ == hex.spec_bytes(),
            len == s@.len(),
            len % 2 == 0,
            i % 2 == 0,
            i <= len,
            bytes@.len() == i / 2,
            forall|j: int| 0 <= j < i ==> hex_value(#[trigger] s@[j]) is Some,
            forall|j: int| 0 <= j < i / 2 ==> bytes@[j] == bytes_of_hex(s@)[j],
        decreases len - i,
    {
        let high = match hex_value_exec(s[i], i) {
            Ok(v) => v,
            Err(e) => return Err(e),
        };
        let low = match hex_value_exec(s[i + 1], i + 1) {
            Ok(v) => v,
            Err(e) => return Err(e),
        };
        bytes.push(high * 16 + low);
        proof {
            assert(2 * (i / 2) == i);
        }
        i = i + 2;
    }
    assert(bytes@ =~= bytes_of_hex(s@));
    Ok(bytes)
}

} // verus!
