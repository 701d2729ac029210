use vstd::prelude::*;

use crate::error::Error;

verus! {

/// Room for the longest id, in bytes; shorter ids are padded with zeros.
pub const ID_CAPACITY: usize = 32;

/// Strict lexicographic order on byte strings (a proper prefix comes first).
pub open spec fn lex_lt(a: Seq<u8>, b: Seq<u8>) -> bool
    decreases a.len(),
{
    if a.len() == 0 || b.len() == 0 {
        a.len() < b.len()
    } else if a[0] != b[0] {
        a[0] < b[0]
    } else {
        lex_lt(a.drop_first(), b.drop_first())
    }
}

/// Order on `(timestamp, id)` pairs: by timestamp, then by id bytes.
pub open spec fn key_lt(t1: u64, id1: Seq<u8>, t2: u64, id2: Seq<u8>) -> bool {
    t1 < t2 || (t1 == t2 && lex_lt(id1, id2))
}

/// `s` padded with zero bytes up to the full id capacity.
pub open spec fn padded(s: Seq<u8>) -> Seq<u8> {
    s + Seq::new((ID_CAPACITY - s.len()) as nat, |i: int| 0u8)
}

/// Where two strings of equal length first differ, that byte decides.
pub proof fn lemma_lex_first_diff(a: Seq<u8>, b: Seq<u8>, k: int)
    requires
        a.len() == b.len(),
        0 <= k <= a.len(),
        a.take(k) == b.take(k),
        k < a.len() ==> a[k] != b[k],
    ensures
        k < a.len() ==> (lex_lt(a, b) <==> a[k] < b[k]),
        k == a.len() ==> !lex_lt(a, b) && a == b,
    decreases k,
{
    if k == a.len() {
        assert(a =~= a.take(k));
        assert(b =~= b.take(k));
        lemma_lex_irreflexive(a);
    } else if k > 0 {
        assert(a[0] == a.take(k)[0]);
        assert(b[0] == b.take(k)[0]);
        assert(a.drop_first().take(k - 1) =~= b.drop_first().take(k - 1)) by {
            assert forall|i: int| 0 <= i < k - 1 implies a.drop_first()[i] == b.drop_first()[i] by {
                assert(a.take(k)[i + 1] == b.take(k)[i + 1]);
                assert(a.take(k)[i + 1] == a[i + 1] && b.take(k)[i + 1] == b[i + 1]);
            }
        }
        lemma_lex_first_diff(a.drop_first(), b.drop_first(), k - 1);
    }
}

/// No string comes before itself.
pub proof fn lemma_lex_irreflexive(a: Seq<u8>)
    ensures
        !lex_lt(a, a),
    decreases a.len(),
{
    if a.len() > 0 {
        lemma_lex_irreflexive(a.drop_first());
    }
}

/// The order is transitive.
pub proof fn lemma_lex_transitive(a: Seq<u8>, b: Seq<u8>, c: Seq<u8>)
    requires
        lex_lt(a, b),
        lex_lt(b, c),
    ensures
        lex_lt(a, c),
    decreases a.len(),
{
    if a.len() > 0 && b.len() > 0 && c.len() > 0 && a[0] == b[0] && b[0] == c[0] {
        lemma_lex_transitive(a.drop_first(), b.drop_first(), c.drop_first());
    }
}

/// Of two strings of equal length, one comes first or they are equal.
pub proof fn lemma_lex_total(a: Seq<u8>, b: Seq<u8>)
    requires
        a.len() == b.len(),
    ensures
        lex_lt(a, b) || lex_lt(b, a) || a == b,
        !(lex_lt(a, b) && lex_lt(b, a)),
    decreases a.len(),
{
    if a.len() > 0 {
        lemma_lex_total(a.drop_first(), b.drop_first());
        if a[0] == b[0] && a.drop_first() == b.drop_first() {
            assert(a =~= seq![a[0]] + a.drop_first());
            assert(b =~= seq![b[0]] + b.drop_first());
        }
    } else {
        assert(a =~= b);
    }
}

/// Where `a` and `b` agree on their first `j` bytes and `b` is zero after
/// them, `a` does not come before `b`.
pub(crate) proof fn lemma_lex_zero_tail(a: Seq<u8>, b: Seq<u8>, j: int)
    requires
        a.len() == b.len(),
        0 <= j <= a.len(),
        a.take(j) == b.take(j),
        forall|i: int| j <= i < b.len() ==> b[i] == 0,
    ensures
        !lex_lt(a, b),
{
    let k = choose_first_diff(a, b);
    lemma_lex_first_diff(a, b, k);
    if k < a.len() {
        if k < j {
            assert(a.take(j)[k] == b.take(j)[k]);
            assert(a.take(j)[k] == a[k] && b.take(j)[k] == b[k]);
        } else {
            assert(b[k] == 0);
        }
    }
}

/// The first index where `a` and `b` differ, or the common length.
pub open spec fn first_diff(a: Seq<u8>, b: Seq<u8>) -> int
    decreases a.len(),
{
    if a.len() == 0 || b.len() == 0 || a[0] != b[0] {
        0
    } else {
        1 + first_diff(a.drop_first(), b.drop_first())
    }
}

proof fn choose_first_diff(a: Seq<u8>, b: Seq<u8>) -> (k: int)
    requires
        a.len() == b.len(),
    ensures
        0 <= k <= a.len(),
        a.take(k) == b.take(k),
        k < a.len() ==> a[k] != b[k],
        k == first_diff(a, b),
    decreases a.len(),
{
    if a.len() == 0 || a[0] != b[0] {
        assert(a.take(0) =~= b.take(0));
        0
    } else {
        let k1 = choose_first_diff(a.drop_first(), b.drop_first());
        assert(a.take(k1 + 1) =~= b.take(k1 + 1)) by {
            assert forall|i: int| 0 <= i < k1 + 1 implies a[i] == b[i] by {
                if i > 0 {
                    assert(a.drop_first().take(k1)[i - 1] == b.drop_first().take(k1)[i - 1]);
                }
            }
        }
        k1 + 1
    }
}

/// An item of the store: a timestamp and an id, zero-padded to 32 bytes.
#[derive(Clone, Copy, Debug)]
pub struct Item {
    /// Timestamp.
    pub timestamp: u64,
    /// Id bytes; those past the id size are zero.
    pub id: [u8; 32],
}

/// Strict order on items: by timestamp, then by id bytes.
pub open spec fn item_lt(a: Item, b: Item) -> bool {
    key_lt(a.timestamp, a.id@, b.timestamp, b.id@)
}

/// `a` does not come after `b`.
pub open spec fn item_le(a: Item, b: Item) -> bool {
    !item_lt(b, a)
}

/// Items in non-decreasing order.
pub open spec fn sorted_items(s: Seq<Item>) -> bool {
    forall|i: int, j: int| 0 <= i < j < s.len() ==> #[trigger] item_le(s[i], s[j])
}

/// The item order is transitive, and `<` with `<=` gives `<`.
pub proof fn lemma_item_order(a: Item, b: Item, c: Item)
    ensures
        item_lt(a, b) && item_lt(b, c) ==> item_lt(a, c),
        item_le(a, b) && item_le(b, c) ==> item_le(a, c),
        item_lt(a, b) && item_le(b, c) ==> item_lt(a, c),
        item_le(a, b) && item_lt(b, c) ==> item_lt(a, c),
        item_lt(a, b) ==> item_le(a, b),
        !item_lt(a, a),
{
    lemma_lex_total(a.id@, b.id@);
    lemma_lex_total(b.id@, c.id@);
    lemma_lex_total(a.id@, c.id@);
    lemma_lex_irreflexive(a.id@);
    if lex_lt(a.id@, b.id@) && lex_lt(b.id@, c.id@) {
        lemma_lex_transitive(a.id@, b.id@, c.id@);
    }
    if lex_lt(c.id@, b.id@) && lex_lt(b.id@, a.id@) {
        lemma_lex_transitive(c.id@, b.id@, a.id@);
    }
}

/// Strict lexicographic comparison of two padded ids.
fn id_lt(a: &[u8; 32], b: &[u8; 32]) -> (r: bool)
    ensures
        r == lex_lt(a@, b@),
{
    let mut i: usize = 0;
    while i < ID_CAPACITY
        invariant
            0 <= i <= 32,
            a@.len() == 32 && b@.len() == 32,
            a@.take(i as int) == b@.take(i as int),
        decreases 32 - i,
    {
        if a[i] != b[i] {
            proof {
                lemma_lex_first_diff(a@, b@, i as int);
            }
            return a[i] < b[i];
        }
        assert(a@.take(i + 1) =~= b@.take(i + 1)) by {
            assert forall|j: int| 0 <= j < i + 1 implies a@[j] == b@[j] by {
                if j < i {
                    assert(a@.take(i as int)[j] == b@.take(i as int)[j]);
                }
            }
        }
        i = i + 1;
    }
    proof {
        lemma_lex_first_diff(a@, b@, 32);
    }
    false
}

impl Item {
    /// The item with timestamp 0 and an all-zero id: the least of all.
    pub fn new() -> (r: Item)
        ensures
            r.timestamp == 0,
            r.id@ == Seq::new(32, |i: int| 0u8),
    {
        let r = Item { timestamp: 0, id: [0u8; 32] };
        assert(r.id@ =~= Seq::new(32, |i: int| 0u8));
        r
    }

    /// The item with timestamp `timestamp` and an all-zero id.
    pub fn with_timestamp(timestamp: u64) -> (r: Item)
        ensures
            r.timestamp == timestamp,
            r.id@ == Seq::new(32, |i: int| 0u8),
    {
        let r = Item { timestamp, id: [0u8; 32] };
        assert(r.id@ =~= Seq::new(32, |i: int| 0u8));
        r
    }

    /// The item with timestamp `timestamp` and id `id`, zero-padded. Fails
    /// with `IdTooBig` where `id` is longer than 32 bytes.
    pub fn with_timestamp_and_id(timestamp: u64, id: &[u8]) -> (r: Result<Item, Error>)
        ensures
            id@.len() > ID_CAPACITY <==> r is Err,
            r matches Err(e) ==> e == Error::IdTooBig,
            r matches Ok(it) ==> it.timestamp == timestamp && it.id@ == padded(id@),
    {
        if id.len() > ID_CAPACITY {
            return Err(Error::IdTooBig);
        }
        let mut buf = [0u8; 32];
        let mut i: usize = 0;
        while i < id.len()
            invariant
                i <= id@.len() <= 32,
                buf@.len() == 32,
                forall|j: int| 0 <= j < i ==> buf@[j] == id@[j],
                forall|j: int| i <= j < 32 ==> buf@[j] == 0,
            decreases id@.len() - i,
        {
            buf[i] = id[i];
            i = i + 1;
        }
        assert(buf@ =~= padded(id@));
        Ok(Item { timestamp, id: buf })
    }

    /// The padded id.
    pub fn get_id(&self) -> (r: &[u8; 32])
        ensures
            r@ == self.id@,
    {
        &self.id
    }

    /// The first `len` bytes of the id.
    pub fn get_id_prefix(&self, len: usize) -> (r: Vec<u8>)
        requires
            len <= ID_CAPACITY,
        ensures
            r@ == self.id@.take(len as int),
    {
        let mut out: Vec<u8> = Vec::new();
        push_id_prefix(&mut out, &self.id, len);
        assert(out@ =~= self.id@.take(len as int));
        out
    }

    /// The sort key: timestamp, then id.
    pub fn key(&self) -> (r: (u64, [u8; 32]))
        ensures
            r.0 == self.timestamp && r.1@ == self.id@,
    {
        (self.timestamp, self.id)
    }
}

/// Appends the first `len` bytes of `id` to `out`.
pub fn push_id_prefix(out: &mut Vec<u8>, id: &[u8; 32], len: usize)
    requires
        len <= ID_CAPACITY,
    ensures
        final(out)@ == old(out)@ + id@.take(len as int),
{
    let ghost start = out@;
    let mut i: usize = 0;
    while i < len
        invariant
            i <= len <= 32,
            id@.len() == 32,
            out@ == start + id@.take(i as int),
        decreases len - i,
    {
        out.push(id[i]);
        i = i + 1;
        assert(out@ =~= start + id@.take(i as int));
    }
}

/// Whether `a` comes strictly before `b`.
pub fn item_less(a: &Item, b: &Item) -> (r: bool)
    ensures
        r == item_lt(*a, *b),
{
    if a.timestamp != b.timestamp {
        a.timestamp < b.timestamp
    } else {
        id_lt(&a.id, &b.id)
    }
}

/// Relies on `slice::sort_by_key`: it sorts ascending by the key, a
/// `(u64, [u8; 32])` that std orders lexicographically, and moves the
/// elements only.
#[verifier::external_body]
pub(crate) fn sort_items(v: &mut Vec<Item>)
    ensures
        final(v)@.to_multiset() == old(v)@.to_multiset(),
        sorted_items(final(v)@),
{
    v.sort_by_key(Item::key)
}

/// One end of a range: a timestamp and an id prefix of `id_len` bytes, kept
/// zero-padded in `item`.
#[derive(Clone, Copy, Debug)]
pub struct Bound {
    /// Timestamp and padded id prefix.
    pub item: Item,
    /// Length of the id prefix.
    pub id_len: usize,
}

impl Bound {
    /// The prefix is at most 32 bytes and the bytes after it are zero.
    pub open spec fn wf(&self) -> bool {
        &&& self.id_len <= ID_CAPACITY
        &&& self.item.id@ == padded(self.item.id@.take(self.id_len as int))
    }

    /// The id prefix.
    pub open spec fn prefix(&self) -> Seq<u8> {
        self.item.id@.take(self.id_len as int)
    }

    /// The lower end of the universe: timestamp 0, empty prefix.
    pub fn new() -> (r: Bound)
        ensures
            r.wf(),
            r.item.timestamp == 0,
            r.id_len == 0,
    {
        Bound::with_timestamp(0)
    }

    /// The bound that is exactly `item`, with its whole 32-byte id.
    pub fn from_item(item: &Item) -> (r: Bound)
        ensures
            r.wf(),
            r.item == *item,
            r.id_len == ID_CAPACITY,
    {
        let r = Bound { item: *item, id_len: ID_CAPACITY };
        assert(r.item.id@ =~= padded(r.item.id@.take(32)));
        r
    }

    /// Timestamp `timestamp` with an empty prefix.
    pub fn with_timestamp(timestamp: u64) -> (r: Bound)
        ensures
            r.wf(),
            r.item.timestamp == timestamp,
            r.id_len == 0,
    {
        let r = Bound { item: Item::with_timestamp(timestamp), id_len: 0 };
        assert(r.item.id@ =~= padded(r.item.id@.take(0)));
        r
    }

    /// Timestamp `timestamp` with prefix `id`. Fails with `IdTooBig` where
    /// `id` is longer than 32 bytes.
    pub fn with_timestamp_and_id(timestamp: u64, id: &[u8]) -> (r: Result<Bound, Error>)
        ensures
            id@.len() > ID_CAPACITY <==> r is Err,
            r matches Err(e) ==> e == Error::IdTooBig,
            r matches Ok(b) ==> b.wf() && b.item.timestamp == timestamp && b.id_len == id@.len()
                && b.prefix() == id@,
    {
        let item = match Item::with_timestamp_and_id(timestamp, id) {
            Ok(item) => item,
            Err(e) => return Err(e),
        };
        let r = Bound { item, id_len: id.len() };
        assert(r.item.id@.take(id@.len() as int) =~= id@);
        Ok(r)
    }
}

/// Whether bounds `a` and `b` are the same on the wire.
pub fn bound_eq(a: &Bound, b: &Bound) -> (r: bool)
    ensures
        r == (a.item.timestamp == b.item.timestamp && a.id_len == b.id_len && a.item.id@
            == b.item.id@),
{
    if a.item.timestamp != b.item.timestamp || a.id_len != b.id_len {
        return false;
    }
    let mut i: usize = 0;
    while i < ID_CAPACITY
        invariant
            0 <= i <= 32,
            a.item.id@.len() == 32 && b.item.id@.len() == 32,
            forall|j: int| 0 <= j < i ==> a.item.id@[j] == b.item.id@[j],
        decreases 32 - i,
    {
        if a.item.id[i] != b.item.id[i] {
            return false;
        }
        i = i + 1;
    }
    assert(a.item.id@ =~= b.item.id@);
    true
}

/// `b` has timestamp `t` and id prefix `prefix`.
pub open spec fn bound_is(b: Bound, t: u64, prefix: Seq<u8>) -> bool {
    &&& b.item.timestamp == t
    &&& b.id_len == prefix.len()
    &&& b.item.id@ == padded(prefix)
}

/// The id prefix of the shortest bound between `prev` and `curr`: empty where
/// the timestamps differ, else `curr`'s id up to and including the first byte
/// where the ids differ (the whole id where they do not).
pub open spec fn minimal_prefix(prev: Item, curr: Item) -> Seq<u8> {
    if prev.timestamp != curr.timestamp {
        Seq::empty()
    } else if prev.id@ == curr.id@ {
        curr.id@
    } else {
        curr.id@.take(first_diff(prev.id@, curr.id@) + 1)
    }
}

/// The shortest bound that lies above `prev` and not above `curr`: the
/// timestamp of `curr` with an empty prefix where the timestamps differ, else
/// the prefix of `curr`'s id up to and including the first byte where the two
/// ids differ. Equal items give `curr` itself.
pub fn get_minimal_bound(prev: &Item, curr: &Item) -> (r: Bound)
    ensures
        r.wf(),
        bound_is(r, curr.timestamp, minimal_prefix(*prev, *curr)),
        item_lt(*prev, *curr) ==> item_lt(*prev, r.item) && item_le(r.item, *curr),
        item_lt(*prev, *curr) ==> forall|j: int|
            0 <= j < r.id_len ==> !key_lt(
                prev.timestamp,
                prev.id@,
                curr.timestamp,
                #[trigger] padded(curr.id@.take(j)),
            ),
{
    if prev.timestamp != curr.timestamp {
        let r = Bound::with_timestamp(curr.timestamp);
        proof {
            assert(r.item.id@ =~= padded(curr.id@.take(0)));
            assert(curr.id@.take(0) =~= r.item.id@.take(0));
            lemma_lex_zero_tail(curr.id@, r.item.id@, 0);
        }
        return r;
    }
    let mut k: usize = 0;
    while k < ID_CAPACITY && prev.id[k] == curr.id[k]
        invariant
            0 <= k <= 32,
            prev.id@.len() == 32 && curr.id@.len() == 32,
            prev.id@.take(k as int) == curr.id@.take(k as int),
        decreases 32 - k,
    {
        assert(prev.id@.take(k + 1) =~= curr.id@.take(k + 1)) by {
            assert forall|j: int| 0 <= j < k + 1 implies prev.id@[j] == curr.id@[j] by {
                if j < k {
                    assert(prev.id@.take(k as int)[j] == curr.id@.take(k as int)[j]);
                }
            }
        }
        k = k + 1;
    }
    let ghost a = prev.id@;
    let ghost c = curr.id@;
    proof {
        lemma_lex_first_diff(a, c, k as int);
        let k2 = choose_first_diff(a, c);
        if k < 32 {
            lemma_lex_first_diff(a, c, k2);
            if k2 < k {
                assert(a.take(k as int)[k2] == c.take(k as int)[k2]);
            }
            if k < k2 {
                assert(a.take(k2)[k as int] == c.take(k2)[k as int]);
            }
        }
    }
    if k == ID_CAPACITY {
        let r = Bound::from_item(curr);
        proof {
            assert(curr.id@ =~= padded(curr.id@));
            lemma_item_order(*prev, *curr, *curr);
        }
        return r;
    }
    let mut buf = [0u8; 32];
    let mut i: usize = 0;
    while i <= k
        invariant
            k < 32,
            i <= k + 1,
            buf@.len() == 32,
            curr.id@.len() == 32,
            forall|j: int| 0 <= j < i ==> buf@[j] == curr.id@[j],
            forall|j: int| i <= j < 32 ==> buf@[j] == 0,
        decreases k + 1 - i,
    {
        buf[i] = curr.id[i];
        i = i + 1;
    }
    let r = Bound { item: Item { timestamp: curr.timestamp, id: buf }, id_len: k + 1 };
    proof {
        let rb = r.item.id@;
        assert(rb =~= padded(c.take(k + 1)));
        assert(rb.take(k + 1) =~= c.take(k + 1));
        assert(rb =~= padded(rb.take(k + 1)));
        assert(a.take(k as int) =~= rb.take(k as int)) by {
            assert forall|j: int| 0 <= j < k implies a[j] == rb[j] by {
                assert(a.take(k as int)[j] == c.take(k as int)[j]);
            }
        }
        lemma_lex_first_diff(a, rb, k as int);
        lemma_lex_zero_tail(c, rb, k + 1);
        lemma_lex_first_diff(a, c, first_diff(a, c));
        assert forall|j: int| 0 <= j < r.id_len implies !key_lt(
            prev.timestamp,
            a,
            curr.timestamp,
            #[trigger] padded(c.take(j)),
        ) by {
            let pj = padded(c.take(j));
            assert(a.take(j) =~= pj.take(j)) by {
                assert forall|x: int| 0 <= x < j implies a[x] == pj[x] by {
                    assert(a.take(k as int)[x] == c.take(k as int)[x]);
                }
            }
            lemma_lex_zero_tail(a, pj, j);
        }
    }
    r
}

/// Bytewise XOR of two 32-byte strings.
pub open spec fn xor_bytes(a: Seq<u8>, b: Seq<u8>) -> Seq<u8> {
    Seq::new(32, |i: int| a[i] ^ b[i])
}

/// XOR of the ids of `items`, zero for none.
pub open spec fn xor_of(items: Seq<Item>) -> Seq<u8>
    decreases items.len(),
{
    if items.len() == 0 {
        Seq::new(32, |i: int| 0u8)
    } else {
        xor_bytes(xor_of(items.drop_last()), items.last().id@)
    }
}

proof fn lemma_xor_remove(s: Seq<Item>, j: int)
    requires
        0 <= j < s.len(),
    ensures
        xor_of(s) == xor_bytes(xor_of(s.remove(j)), s[j].id@),
    decreases s.len(),
{
    if j < s.len() - 1 {
        let d = s.drop_last();
        lemma_xor_remove(d, j);
        assert(s.remove(j).drop_last() =~= d.remove(j));
        assert(s.remove(j).last() == s.last());
        let x = xor_of(d.remove(j));
        let y = s[j].id@;
        let z = s.last().id@;
        assert(xor_bytes(xor_bytes(x, y), z) =~= xor_bytes(xor_bytes(x, z), y)) by {
            assert forall|i: int| 0 <= i < 32 implies (x[i] ^ y[i]) ^ z[i] == (x[i] ^ z[i]) ^ y[i] by {
                let (p, q, r) = (x[i], y[i], z[i]);
                assert((p ^ q) ^ r == (p ^ r) ^ q) by (bit_vector);
            }
        }
    } else {
        assert(s.remove(j) =~= s.drop_last());
    }
}

/// The XOR digest does not depend on the order of the items: any two
/// sequences with the same items have the same digest.
pub proof fn lemma_xor_permutation(s: Seq<Item>, t: Seq<Item>)
    requires
        s.to_multiset() == t.to_multiset(),
    ensures
        xor_of(s) == xor_of(t),
    decreases s.len(),
{
    broadcast use vstd::seq_lib::group_to_multiset_ensures;

    vstd::seq_lib::to_multiset_len(s);
    vstd::seq_lib::to_multiset_len(t);
    if s.len() == 0 {
        assert(t.len() == 0);
        assert(t =~= s);
    } else {
        let x = s.last();
        assert(s.to_multiset().count(x) > 0) by {
            assert(s.contains(x)) by {
                assert(s[s.len() - 1] == x);
            }
        }
        assert(t.contains(x));
        let j = choose|j: int| 0 <= j < t.len() && t[j] == x;
        let t2 = t.remove(j);
        vstd::seq_lib::to_multiset_remove(t, j);
        vstd::seq_lib::to_multiset_remove(s, s.len() - 1);
        assert(s.remove(s.len() - 1) =~= s.drop_last());
        lemma_xor_permutation(s.drop_last(), t2);
        lemma_xor_remove(t, j);
    }
}

/// A running XOR of ids.
#[derive(Clone, Copy, Debug)]
pub struct Fingerprint {
    /// The 32 digest bytes.
    pub buf: [u8; 32],
}

impl Fingerprint {
    /// The digest of no items: all zero.
    pub fn new() -> (r: Fingerprint)
        ensures
            r.buf@ == xor_of(Seq::empty()),
    {
        let r = Fingerprint { buf: [0u8; 32] };
        assert(r.buf@ =~= xor_of(Seq::empty()));
        r
    }

    /// XORs the id of `item` in.
    pub fn add_item(&mut self, item: &Item)
        ensures
            final(self).buf@ == xor_bytes(old(self).buf@, item.id@),
    {
        let mut i: usize = 0;
        while i < ID_CAPACITY
            invariant
                0 <= i <= 32,
                self.buf@.len() == 32,
                forall|j: int| 0 <= j < i ==> self.buf@[j] == old(self).buf@[j] ^ item.id@[j],
                forall|j: int| i <= j < 32 ==> self.buf@[j] == old(self).buf@[j],
            decreases 32 - i,
        {
            self.buf[i] = self.buf[i] ^ item.id[i];
            i = i + 1;
        }
        assert(self.buf@ =~= xor_bytes(old(self).buf@, item.id@));
    }

    /// The digest bytes.
    pub fn vec(&self) -> (r: Vec<u8>)
        ensures
            r@ == self.buf@,
    {
        let mut out: Vec<u8> = Vec::new();
        push_id_prefix(&mut out, &self.buf, ID_CAPACITY);
        assert(out@ =~= self.buf@);
        out
    }
}

/// What a segment of a message says about its range.
#[derive(Clone, Copy, Debug, PartialEq, Eq, Structural)]
pub enum Mode {
    /// Nothing: the range is passed over.
    Skip,
    /// The XOR digest of the ids in the range follows.
    Fingerprint,
    /// A count and the ids in the range follow.
    IdList,
    /// The withdrawn earlier protocol; refused on receipt.
    Deprecated,
    /// The sender has more to say and asks to be called again.
    Continuation,
}

/// The wire tag of a mode.
pub open spec fn mode_tag(m: Mode) -> u64 {
    match m {
        Mode::Skip => 0,
        Mode::Fingerprint => 1,
        Mode::IdList => 2,
        Mode::Deprecated => 3,
        Mode::Continuation => 4,
    }
}

impl Mode {
    /// The wire tag: 0 to 4 in declaration order.
    pub fn as_u64(&self) -> (r: u64)
        ensures
            r == mode_tag(*self),
    {
        match self {
            Mode::Skip => 0,
            Mode::Fingerprint => 1,
            Mode::IdList => 2,
            Mode::Deprecated => 3,
            Mode::Continuation => 4,
        }
    }

    /// The mode with wire tag `tag`; `UnexpectedMode` for a tag above 4.
    pub fn from_u64(tag: u64) -> (r: Result<Mode, Error>)
        ensures
            tag <= 4 ==> (r matches Ok(m) && mode_tag(m) == tag),
            tag > 4 ==> r == Err::<Mode, Error>(Error::UnexpectedMode(tag)),
    {
        match tag {
            0 => Ok(Mode::Skip),
            1 => Ok(Mode::Fingerprint),
            2 => Ok(Mode::IdList),
            3 => Ok(Mode::Deprecated),
            4 => Ok(Mode::Continuation),
            _ => Err(Error::UnexpectedMode(tag)),
        }
    }
}

} // verus!
