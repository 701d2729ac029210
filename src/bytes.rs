use vstd::prelude::*;
use vstd::string::StringSliceAdditionalSpecFns;

use crate::hex;

verus! {

/// An owned byte string: an id, or a message.
#[derive(Debug, Clone, PartialEq, Eq, PartialOrd, Ord, Hash)]
pub struct Bytes(Vec<u8>);

impl View for Bytes {
    type V = Seq<u8>;

    closed spec fn view(&self) -> Seq<u8> {
        self.0@
    }
}

/// Appends all of `src` to `out`.
pub fn push_all(out: &mut Vec<u8>, src: &[u8])
    ensures
        final(out)@ == old(out)@ + src@,
{
    let ghost start = out@;
    let mut i: usize = 0;
    while i < src.len()
        invariant
            i <= src@.len(),
            out@ == start + src@.take(i as int),
        decreases src@.len() - i,
    {
        out.push(src[i]);
        i = i + 1;
        assert(out@ =~= start + src@.take(i as int));
    }
    assert(src@.take(i as int) =~= src@);
}

impl Bytes {
    /// A copy of `bytes`.
    pub fn new(bytes: &[u8]) -> (r: Bytes)
        ensures
            r@ == bytes@,
    {
        Bytes::from_slice(bytes)
    }

    /// A copy of `slice`.
    pub fn from_slice(slice: &[u8]) -> (r: Bytes)
        ensures
            r@ == slice@,
    {
        let mut v: Vec<u8> = Vec::new();
        push_all(&mut v, slice);
        assert(v@ =~= slice@);
        Bytes(v)
    }

    /// Takes `v` as it is.
    pub fn from_vec(v: Vec<u8>) -> (r: Bytes)
        ensures
            r@ == v@,
    {
        Bytes(v)
    }

    /// The inner vector.
    pub fn to_bytes(self) -> (r: Vec<u8>)
        ensures
            r@ == self@,
    {
        self.0
    }

    /// The bytes, borrowed.
    pub fn as_bytes(&self) -> (r: &[u8])
        ensures
            r@ == self@,
    {
        self.0.as_slice()
    }

    /// The bytes that hex digits `s` stand for; fails as `hex::decode` does.
    pub fn from_hex(s: &str) -> (r: Result<Bytes, hex::Error>)
        ensures
            r matches Ok(b) ==> b@ == hex::bytes_of_hex(s.spec_bytes()),
            r is Ok ==> forall|i: int|
                0 <= i < s.spec_bytes().len() ==> hex::hex_value(#[trigger] s.spec_bytes()[i]) is Some,
            s.spec_bytes().len() % 2 != 0 <==> r == Err::<Bytes, hex::Error>(hex::Error::OddLength),
            s.spec_bytes().len() % 2 == 0 && (forall|i: int|
                0 <= i < s.spec_bytes().len() ==> hex::hex_value(#[trigger] s.spec_bytes()[i]) is Some)
                ==> r is Ok,
            r matches Err(hex::Error::InvalidHexCharacter { c, index }) ==> index < s.spec_bytes().len()
                && hex::hex_value(s.spec_bytes()[index as int]) is None && c == s.spec_bytes()[index as int] as char
                && forall|j: int| 0 <= j < index ==> hex::hex_value(#[trigger] s.spec_bytes()[j]) is Some,
    {
        match hex::decode(s) {
            Ok(v) => Ok(Bytes(v)),
            Err(e) => Err(e),
        }
    }

    /// The bytes as lower-case hex.
    pub fn to_hex(&self) -> (r: String)
        ensures
            r@ == hex::hex_of(self@).map_values(|b: u8| b as char),
    {
        match hex::encode(self.0.as_slice()) {
            Ok(s) => s,
            Err(_) => String::new(),
        }
    }

    /// Number of bytes.
    pub fn len(&self) -> (r: usize)
        ensures
            r == self@.len(),
    {
        self.0.len()
    }

    /// Whether there are no bytes.
    pub fn is_empty(&self) -> (r: bool)
        ensures
            r == (self@.len() == 0),
    {
        self.0.len() == 0
    }
}

} // verus!
