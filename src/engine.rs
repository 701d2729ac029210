use vstd::prelude::*;

use crate::encoding::{
    bound_bytes, decode_bound, decode_var_int, decode_varint, get_bytes, parse_bound, push_bound,
    push_var_int, varint, MAX_U64,
};
use crate::bytes::{push_all, Bytes};
use crate::error::Error;
use crate::types::{
    bound_eq, bound_is, get_minimal_bound, item_less, lemma_item_order, padded, item_le, item_lt, minimal_prefix, push_id_prefix, sort_items,
    sorted_items, xor_of, Bound, Fingerprint, Item, Mode, ID_CAPACITY,
};

verus! {

/// Ranges of at most this many items are sent as id lists; larger ones are
/// split into buckets.
pub const BUCKETS: usize = 16;

/// Twice `BUCKETS`: the size from which a range is split.
pub const DOUBLE_BUCKETS: usize = 32;

/// An outgoing segment that waits to be framed: the range from `start` to
/// `end` and what to say of it.
#[derive(Debug)]
pub struct OutputRange {
    /// Lower bound of the range.
    pub start: Bound,
    /// Upper bound of the range.
    pub end: Bound,
    /// Mode tag and body.
    pub payload: Vec<u8>,
}

/// A segment as a value: start, end, payload.
pub type Segment = (Bound, Bound, Seq<u8>);

impl View for OutputRange {
    type V = Segment;

    open spec fn view(&self) -> Segment {
        (self.start, self.end, self.payload@)
    }
}

/// The segments that a queue of output ranges holds.
pub open spec fn segments(s: Seq<OutputRange>) -> Seq<Segment> {
    s.map_values(|o: OutputRange| o@)
}

proof fn lemma_segments_skip(s: Seq<OutputRange>, base: int)
    requires
        0 <= base <= s.len(),
    ensures
        segments(s.skip(base)).len() == s.len() - base,
        forall|j: int|
            0 <= j < s.len() - base ==> #[trigger] segments(s.skip(base))[j] == s[base + j]@,
{
    assert forall|j: int| 0 <= j < s.len() - base implies #[trigger] segments(s.skip(base))[j]
        == s[base + j]@ by {
        assert(s.skip(base)[j] == s[base + j]);
    }
}

/// The first `n` bytes of each id, one after another.
pub open spec fn ids_bytes(items: Seq<Item>, n: nat) -> Seq<u8>
    decreases items.len(),
{
    if items.len() == 0 {
        Seq::empty()
    } else {
        ids_bytes(items.drop_last(), n) + items.last().id@.take(n as int)
    }
}

/// Payload of an id list: the tag, the count, and the ids.
pub open spec fn id_list_payload(items: Seq<Item>, id_size: nat) -> Seq<u8> {
    varint(2) + varint(items.len()) + ids_bytes(items, id_size)
}

/// Payload of a fingerprint: the tag and the XOR of the ids, cut to `id_size`.
pub open spec fn fingerprint_payload(items: Seq<Item>, id_size: nat) -> Seq<u8> {
    varint(1) + xor_of(items).take(id_size as int)
}

/// Index of the first item of bucket `i` when `n` items from `lo` are cut
/// into 16 buckets, the first `n % 16` of them one item larger.
pub open spec fn bucket_start(lo: int, n: int, i: int) -> int {
    lo + i * (n / 16) + if i < n % 16 {
        i
    } else {
        n % 16
    }
}

/// Segment `i` of a split of `items[lo..hi]` into buckets.
pub open spec fn bucket_ok(
    items: Seq<Item>,
    lo: int,
    hi: int,
    lb: Bound,
    ub: Bound,
    id_size: nat,
    out: Seq<Segment>,
    i: int,
) -> bool {
    let n = hi - lo;
    let b = bucket_start(lo, n, i + 1);
    &&& out[i].0 == if i == 0 {
        lb
    } else {
        out[i - 1].1
    }
    &&& i == 15 ==> out[i].1 == ub
    &&& i < 15 ==> bound_is(out[i].1, items[b].timestamp, minimal_prefix(items[b - 1], items[b]))
    &&& out[i].2 == fingerprint_payload(items.subrange(bucket_start(lo, n, i), b), id_size)
}

/// What describing `items[lo..hi]`, between bounds `lb` and `ub`, sends: one
/// id list below 32 items, else 16 fingerprints of buckets, separated by
/// minimal bounds.
pub open spec fn split_ok(
    items: Seq<Item>,
    lo: int,
    hi: int,
    lb: Bound,
    ub: Bound,
    id_size: nat,
    out: Seq<Segment>,
) -> bool {
    if hi - lo < 32 {
        out == seq![(lb, ub, id_list_payload(items.subrange(lo, hi), id_size))]
    } else {
        &&& out.len() == 16
        &&& forall|i: int| 0 <= i < 16 ==> bucket_ok(items, lo, hi, lb, ub, id_size, out, i)
    }
}

proof fn lemma_bucket_step(lo: int, n: int, i: int)
    requires
        0 <= i < 16,
        n >= 32,
    ensures
        bucket_start(lo, n, i + 1) == bucket_start(lo, n, i) + n / 16 + if i < n % 16 {
            1int
        } else {
            0
        },
        bucket_start(lo, n, 0) == lo,
        bucket_start(lo, n, 16) == lo + n,
        bucket_start(lo, n, i + 1) <= lo + n,
        i < 15 ==> bucket_start(lo, n, i + 1) < lo + n,
        bucket_start(lo, n, i + 1) >= lo + 2,
        n / 16 >= 2,
{
    assert(i < 15 ==> (i + 1) * (n / 16) < 16 * (n / 16)) by (nonlinear_arith)
        requires n / 16 >= 2;
    assert((i + 1) * (n / 16) >= n / 16) by (nonlinear_arith)
        requires i >= 0, n / 16 >= 0;
    assert((i + 1) * (n / 16) <= 16 * (n / 16)) by (nonlinear_arith)
        requires i + 1 <= 16, n / 16 >= 0;
    assert((i + 1) * (n / 16) == i * (n / 16) + n / 16) by (nonlinear_arith);
    assert(16 * (n / 16) + n % 16 == n) by (nonlinear_arith);
}


/// Bound `b` is the least one: timestamp 0, empty prefix.
pub open spec fn is_zero_bound(b: Bound) -> bool {
    b.item.timestamp == 0 && b.id_len == 0
}

/// `a` and `b` are the same on the wire.
pub open spec fn same_bound(a: Bound, b: Bound) -> bool {
    a.item.timestamp == b.item.timestamp && a.id_len == b.id_len && a.item.id@ == b.item.id@
}

/// Whether segment `i` of a frame needs a skip before it: its start is not
/// where the previous segment ended (the least bound, for the first).
pub open spec fn needs_skip(segs: Seq<Segment>, i: int) -> bool {
    if i == 0 {
        !is_zero_bound(segs[0].0)
    } else {
        !same_bound(segs[i - 1].1, segs[i].0)
    }
}

/// The last timestamp sent before segment `i`.
pub open spec fn last_out(segs: Seq<Segment>, i: int) -> u64 {
    if i == 0 {
        0
    } else {
        segs[i - 1].1.item.timestamp
    }
}

/// Bytes of segment `i` in a frame of `segs`: a skip up to its start where
/// needed, then its end bound and its payload.
pub open spec fn segment_bytes(segs: Seq<Segment>, i: int) -> Seq<u8> {
    if needs_skip(segs, i) {
        bound_bytes(segs[i].0, last_out(segs, i)) + varint(0) + bound_bytes(
            segs[i].1,
            segs[i].0.item.timestamp,
        ) + segs[i].2
    } else {
        bound_bytes(segs[i].1, last_out(segs, i)) + segs[i].2
    }
}

/// A frame of the first `k` segments of `segs`.
pub open spec fn frame_bytes(segs: Seq<Segment>, k: int) -> Seq<u8>
    decreases k,
{
    if k <= 0 {
        Seq::empty()
    } else {
        frame_bytes(segs, k - 1) + segment_bytes(segs, k - 1)
    }
}

/// Segment `i` starts before the previous one ends.
pub open spec fn overlaps(segs: Seq<Segment>, i: int) -> bool {
    i > 0 && item_lt(segs[i].0.item, segs[i - 1].1.item)
}

/// A frame of the first `k` segments leaves room for a continuation mark.
pub open spec fn fits(segs: Seq<Segment>, k: int, limit: nat) -> bool {
    limit == 0 || frame_bytes(segs, k).len() + 5 <= limit
}

/// Segments in order of their start bounds.
pub open spec fn sorted_by_start(segs: Seq<Segment>) -> bool {
    forall|i: int, j: int| 0 <= i < j < segs.len() ==> item_le(#[trigger] segs[i].0.item, #[trigger] segs[j].0.item)
}

/// The continuation mark: the bound at the end of the universe, mode 4.
pub open spec fn continuation_mark() -> Seq<u8> {
    seq![0u8, 0u8, 4u8]
}

/// The framing of a queue of segments: `sorted` is the queue in order of
/// start bounds; the frame holds its first `k`, up to the first overlap or
/// the first that would leave no room for a continuation mark; `rest` is
/// what stays queued; a continuation mark closes the frame where the
/// non-initiator leaves work queued, or where the initiator sends nothing
/// while the peer asked to be called again.
pub open spec fn framed(
    queue: Seq<Segment>,
    sorted: Seq<Segment>,
    k: int,
    rest: Seq<Segment>,
    frame: Seq<u8>,
    is_initiator: bool,
    continuation: bool,
    limit: nat,
) -> bool {
    let body = frame_bytes(sorted, k);
    let mark = (!is_initiator && k < sorted.len()) || (is_initiator && body.len() == 0
        && continuation);
    &&& sorted.to_multiset() == queue.to_multiset()
    &&& sorted_by_start(sorted)
    &&& 0 <= k <= sorted.len()
    &&& rest == sorted.skip(k)
    &&& forall|j: int| 0 <= j < k ==> !overlaps(sorted, j) && fits(sorted, j + 1, limit)
    &&& k == sorted.len() || overlaps(sorted, k) || !fits(sorted, k + 1, limit)
    &&& frame == body + if mark {
        continuation_mark()
    } else {
        Seq::empty()
    }
}

/// `u` is where `b` falls in `items`: every item before it is below `b`, none
/// from it on is.
pub open spec fn is_upper(items: Seq<Item>, b: Item, u: int) -> bool {
    &&& 0 <= u <= items.len()
    &&& forall|i: int| 0 <= i < u ==> item_lt(#[trigger] items[i], b)
    &&& forall|i: int| u <= i < items.len() ==> !item_lt(#[trigger] items[i], b)
}

/// The first index whose item is not below `b`, found by binary search in the
/// sorted `items`.
pub fn binary_search_upper_bound(items: &Vec<Item>, b: &Item) -> (r: usize)
    requires
        sorted_items(items@),
    ensures
        is_upper(items@, *b, r as int),
{
    let mut low: usize = 0;
    let mut high: usize = items.len();
    while low < high
        invariant
            0 <= low <= high <= items@.len(),
            sorted_items(items@),
            forall|i: int| 0 <= i < low ==> item_lt(#[trigger] items@[i], *b),
            forall|i: int| high <= i < items@.len() ==> !item_lt(#[trigger] items@[i], *b),
        decreases high - low,
    {
        let mid = low + (high - low) / 2;
        if item_less(&items[mid], b) {
            proof {
                assert forall|i: int| 0 <= i <= mid implies item_lt(#[trigger] items@[i], *b) by {
                    if i < mid {
                        assert(item_le(items@[i], items@[mid as int]));
                        lemma_item_order(items@[i], items@[mid as int], *b);
                    }
                }
            }
            low = mid + 1;
        } else {
            proof {
                assert forall|i: int| mid <= i < items@.len() implies !item_lt(#[trigger] items@[i], *b) by {
                    if i > mid {
                        assert(item_le(items@[mid as int], items@[i]));
                        lemma_item_order(*b, items@[mid as int], items@[i]);
                        lemma_item_order(items@[i], *b, items@[mid as int]);
                    }
                }
            }
            high = mid;
        }
    }
    low
}

/// A segment of a received message: its upper bound, its mode tag, and its
/// body (the digest for a fingerprint, the ids for an id list).
pub type Received = (Bound, u64, Seq<Seq<u8>>);

/// `n` ids of `size` bytes each, one after another in `s`.
pub open spec fn split_ids(s: Seq<u8>, n: nat, size: nat) -> Seq<Seq<u8>> {
    Seq::new(n, |i: int| s.subrange(i * size, (i + 1) * size))
}

/// Reads one segment at the start of `s` after timestamp `last`: the bound's
/// timestamp and prefix, the mode tag, the body and the bytes taken. Mode 3
/// and tags above 4 are refused.
pub open spec fn parse_segment(s: Seq<u8>, last: u64, id_size: nat) -> Result<
    (u64, Seq<u8>, u64, Seq<Seq<u8>>, nat),
    Error,
> {
    match parse_bound(s, last) {
        Err(e) => Err(e),
        Ok((t, prefix, k1)) => match decode_varint(s.skip(k1 as int)) {
            None => Err(Error::PrematureEndOfVarInt),
            Some((m, k2)) => {
                let rest = s.skip((k1 + k2) as int);
                if m > 4 {
                    Err(Error::UnexpectedMode(m))
                } else if m == 3 {
                    Err(Error::DeprecatedProtocol)
                } else if m == 1 {
                    if rest.len() < id_size {
                        Err(Error::ParseEndsPrematurely)
                    } else {
                        Ok((t, prefix, m, seq![rest.take(id_size as int)], (k1 + k2 + id_size) as nat))
                    }
                } else if m == 2 {
                    match decode_varint(rest) {
                        None => Err(Error::PrematureEndOfVarInt),
                        Some((n, k3)) => if rest.len() - k3 < n * id_size {
                            Err(Error::ParseEndsPrematurely)
                        } else {
                            Ok(
                                (
                                    t,
                                    prefix,
                                    m,
                                    split_ids(rest.skip(k3 as int), n as nat, id_size),
                                    (k1 + k2 + k3 + n * id_size) as nat,
                                ),
                            )
                        },
                    }
                } else {
                    Ok((t, prefix, m, Seq::empty(), (k1 + k2) as nat))
                }
            },
        },
    }
}

/// The ids of `items`, each cut to `n` bytes.
pub open spec fn ids_of(items: Seq<Item>, n: nat) -> Seq<Seq<u8>> {
    items.map_values(|it: Item| it.id@.take(n as int))
}

/// The ids of ours that the initiator has and the peer lacks: each one that
/// the peer did not list, and each repeat of one already matched.
pub open spec fn have_ids(ours: Seq<Seq<u8>>, theirs: Seq<Seq<u8>>) -> Seq<Seq<u8>>
    decreases ours.len(),
{
    if ours.len() == 0 {
        Seq::empty()
    } else {
        let k = ours.last();
        have_ids(ours.drop_last(), theirs) + if !theirs.contains(k) || ours.drop_last().contains(k) {
            seq![k]
        } else {
            Seq::empty()
        }
    }
}

/// The ids that the peer listed and we lack, each once, in the order listed.
pub open spec fn need_ids(theirs: Seq<Seq<u8>>, ours: Seq<Seq<u8>>) -> Seq<Seq<u8>>
    decreases theirs.len(),
{
    if theirs.len() == 0 {
        Seq::empty()
    } else {
        let k = theirs.last();
        need_ids(theirs.drop_last(), ours) + if !ours.contains(k) && !theirs.drop_last().contains(k) {
            seq![k]
        } else {
            Seq::empty()
        }
    }
}

/// On one range answered with an id list, where our ids in it are distinct:
/// an id is recorded as had exactly when we hold it and the peer did not list
/// it, and as needed exactly when the peer listed it and we do not hold it.
pub proof fn lemma_id_list_differences(ours: Seq<Seq<u8>>, theirs: Seq<Seq<u8>>)
    requires
        ours.no_duplicates(),
    ensures
        forall|x: Seq<u8>| #[trigger] have_ids(ours, theirs).contains(x) <==> (ours.contains(x) && !theirs.contains(x)),
        forall|x: Seq<u8>| #[trigger] need_ids(theirs, ours).contains(x) <==> (theirs.contains(x) && !ours.contains(x)),
{
    lemma_have_ids(ours, theirs);
    lemma_need_ids(theirs, ours);
}

proof fn lemma_have_ids(ours: Seq<Seq<u8>>, theirs: Seq<Seq<u8>>)
    requires
        ours.no_duplicates(),
    ensures
        forall|x: Seq<u8>| #[trigger] have_ids(ours, theirs).contains(x) <==> (ours.contains(x) && !theirs.contains(x)),
    decreases ours.len(),
{
    if ours.len() > 0 {
        let d = ours.drop_last();
        let k = ours.last();
        assert(d.no_duplicates()) by {
            assert forall|i: int, j: int| 0 <= i < d.len() && 0 <= j < d.len() && i != j implies d[i] != d[j] by {
                assert(d[i] == ours[i] && d[j] == ours[j]);
            }
        }
        lemma_have_ids(d, theirs);
        assert(!d.contains(k)) by {
            if d.contains(k) {
                let i = choose|i: int| 0 <= i < d.len() && d[i] == k;
                assert(ours[i] == ours[ours.len() - 1]);
            }
        }
        assert(ours =~= d.push(k));
        let tail = if !theirs.contains(k) || d.contains(k) {
            seq![k]
        } else {
            Seq::<Seq<u8>>::empty()
        };
        assert forall|x: Seq<u8>| #[trigger] have_ids(ours, theirs).contains(x) <==> (ours.contains(x)
            && !theirs.contains(x)) by {
            let h = have_ids(d, theirs);
            assert(have_ids(ours, theirs) == h + tail);
            if (h + tail).contains(x) {
                let i = choose|i: int| 0 <= i < (h + tail).len() && (h + tail)[i] == x;
                if i < h.len() {
                    assert(h[i] == x);
                    assert(h.contains(x));
                    let j = choose|j: int| 0 <= j < d.len() && d[j] == x;
                    assert(ours[j] == x);
                } else {
                    assert(x == k);
                    assert(ours[ours.len() - 1] == x);
                }
            }
            if ours.contains(x) && !theirs.contains(x) {
                let j = choose|j: int| 0 <= j < ours.len() && ours[j] == x;
                if j < d.len() {
                    assert(d[j] == x);
                    assert(h.contains(x));
                    let i = choose|i: int| 0 <= i < h.len() && h[i] == x;
                    assert((h + tail)[i] == x);
                } else {
                    assert(x == k);
                    assert((h + tail)[h.len() as int] == x);
                }
            }
        }
    }
}

proof fn lemma_need_ids(theirs: Seq<Seq<u8>>, ours: Seq<Seq<u8>>)
    ensures
        forall|x: Seq<u8>| #[trigger] need_ids(theirs, ours).contains(x) <==> (theirs.contains(x) && !ours.contains(x)),
    decreases theirs.len(),
{
    if theirs.len() > 0 {
        let d = theirs.drop_last();
        let k = theirs.last();
        lemma_need_ids(d, ours);
        let tail = if !ours.contains(k) && !d.contains(k) {
            seq![k]
        } else {
            Seq::<Seq<u8>>::empty()
        };
        assert forall|x: Seq<u8>| #[trigger] need_ids(theirs, ours).contains(x) <==> (theirs.contains(x)
            && !ours.contains(x)) by {
            let h = need_ids(d, ours);
            assert(need_ids(theirs, ours) == h + tail);
            if (h + tail).contains(x) {
                let i = choose|i: int| 0 <= i < (h + tail).len() && (h + tail)[i] == x;
                if i < h.len() {
                    assert(h[i] == x);
                    assert(h.contains(x));
                    let j = choose|j: int| 0 <= j < d.len() && d[j] == x;
                    assert(theirs[j] == x);
                } else {
                    assert(x == k);
                    assert(theirs[theirs.len() - 1] == x);
                }
            }
            if theirs.contains(x) && !ours.contains(x) {
                let j = choose|j: int| 0 <= j < theirs.len() && theirs[j] == x;
                if j < d.len() {
                    assert(d[j] == x);
                    assert(h.contains(x));
                    let i = choose|i: int| 0 <= i < h.len() && h[i] == x;
                    assert((h + tail)[i] == x);
                } else if d.contains(x) {
                    assert(h.contains(x));
                    let i = choose|i: int| 0 <= i < h.len() && h[i] == x;
                    assert((h + tail)[i] == x);
                } else {
                    assert(x == k);
                    assert((h + tail)[h.len() as int] == x);
                }
            }
        }
    }
}

/// Number of id lists that answer a range of `n` items: one per hundred, and
/// one for none.
pub open spec fn chunk_count(n: int) -> int {
    if n <= 0 {
        1
    } else {
        (n + 99) / 100
    }
}

/// List `c` of the answer to an id list over `items[lo..hi]`.
pub open spec fn chunk_ok(
    items: Seq<Item>,
    lo: int,
    hi: int,
    prev: Bound,
    curr: Bound,
    id_size: nat,
    out: Seq<Segment>,
    c: int,
) -> bool {
    let a = lo + 100 * c;
    let b = if lo + 100 * (c + 1) < hi {
        lo + 100 * (c + 1)
    } else {
        hi
    };
    &&& out[c].0 == if c == 0 {
        prev
    } else {
        out[c - 1].1
    }
    &&& b == hi ==> out[c].1 == curr
    &&& b < hi ==> bound_is(out[c].1, items[b].timestamp, minimal_prefix(items[b - 1], items[b]))
    &&& out[c].2 == id_list_payload(items.subrange(a, b), id_size)
}

/// The answer of the non-initiator to an id list over `items[lo..hi]`: the
/// items in lists of up to a hundred, from `prev` to `curr`, with minimal
/// bounds between the lists.
pub open spec fn chunks_ok(
    items: Seq<Item>,
    lo: int,
    hi: int,
    prev: Bound,
    curr: Bound,
    id_size: nat,
    out: Seq<Segment>,
) -> bool {
    &&& out.len() == chunk_count(hi - lo)
    &&& forall|c: int| 0 <= c < out.len() ==> chunk_ok(items, lo, hi, prev, curr, id_size, out, c)
}

/// Whether the first `n` bytes of `id` are `v`.
fn id_matches(id: &[u8; 32], n: usize, v: &[u8]) -> (r: bool)
    requires
        n <= ID_CAPACITY,
    ensures
        r == (id@.take(n as int) == v@),
{
    if v.len() != n {
        proof {
            assert(id@.take(n as int).len() != v@.len());
        }
        return false;
    }
    let mut i: usize = 0;
    while i < n
        invariant
            i <= n <= 32,
            v@.len() == n,
            id@.len() == 32,
            forall|j: int| 0 <= j < i ==> id@[j] == v@[j],
        decreases n - i,
    {
        if id[i] != v[i] {
            proof {
                assert(id@.take(n as int)[i as int] != v@[i as int]);
            }
            return false;
        }
        i = i + 1;
    }
    assert(id@.take(n as int) =~= v@);
    true
}

/// Whether `a` and `b` hold the same bytes.
fn bytes_equal(a: &[u8], b: &[u8]) -> (r: bool)
    ensures
        r == (a@ == b@),
{
    if a.len() != b.len() {
        return false;
    }
    let mut i: usize = 0;
    while i < a.len()
        invariant
            i <= a@.len() == b@.len(),
            forall|j: int| 0 <= j < i ==> a@[j] == b@[j],
        decreases a@.len() - i,
    {
        if a[i] != b[i] {
            return false;
        }
        i = i + 1;
    }
    assert(a@ =~= b@);
    true
}

/// Appends a copy of `id` to `v`.
fn have_or_need_push(v: &mut Vec<Bytes>, id: &[u8])
    ensures
        byte_views(final(v)@) == byte_views(old(v)@).push(id@),
{
    v.push(Bytes::from_slice(id));
    assert(byte_views(v@) =~= byte_views(old(v)@).push(id@));
}

/// The byte strings that `v` holds.
pub open spec fn vec_views(v: Seq<Vec<u8>>) -> Seq<Seq<u8>> {
    v.map_values(|x: Vec<u8>| x@)
}

/// One step of reconciling: the received segment, the range of our items it
/// covers, the bound it starts from, and what it produces.
pub struct Step {
    /// The segment as received.
    pub seg: Received,
    /// Start bound: the previous segment's bound, the least one for the first.
    pub prev: Bound,
    /// First index of the range.
    pub lower: int,
    /// End index of the range.
    pub upper: int,
    /// Segments queued in answer.
    pub out: Seq<Segment>,
    /// Ids found on our side only.
    pub have: Seq<Seq<u8>>,
    /// Ids found on the peer's side only.
    pub need: Seq<Seq<u8>>,
}

/// What one received segment does, on `items` with ids of `id_size` bytes.
pub open spec fn step_effect(items: Seq<Item>, id_size: nat, initiator: bool, st: Step) -> bool {
    let (bound, mode, body) = st.seg;
    let range = items.subrange(st.lower, st.upper);
    if mode == 1 && body[0] != xor_of(range).take(id_size as int) {
        split_ok(items, st.lower, st.upper, st.prev, bound, id_size, st.out) && st.have.len() == 0
            && st.need.len() == 0
    } else if mode == 2 && initiator {
        st.out.len() == 0 && st.have == have_ids(ids_of(range, id_size), body) && st.need
            == need_ids(body, ids_of(range, id_size))
    } else if mode == 2 {
        chunks_ok(items, st.lower, st.upper, st.prev, bound, id_size, st.out) && st.have.len() == 0
            && st.need.len() == 0
    } else {
        st.out.len() == 0 && st.have.len() == 0 && st.need.len() == 0
    }
}

/// Step `i` of `steps` is the segment that starts at byte `starts[i]` of
/// `query`, read after the previous segment, and has its effect; its range
/// starts where the previous one ended (or at its own end, where bounds go
/// backwards).
pub open spec fn step_ok(
    items: Seq<Item>,
    id_size: nat,
    initiator: bool,
    query: Seq<u8>,
    steps: Seq<Step>,
    starts: Seq<int>,
    i: int,
) -> bool {
    let st = steps[i];
    let last = if i == 0 {
        0
    } else {
        steps[i - 1].seg.0.item.timestamp
    };
    let prev_upper = if i == 0 {
        0
    } else {
        steps[i - 1].upper
    };
    &&& 0 <= starts[i] < starts[i + 1] <= query.len()
    &&& parse_segment(query.skip(starts[i]), last, id_size) == Ok::<
        (u64, Seq<u8>, u64, Seq<Seq<u8>>, nat),
        Error,
    >((st.seg.0.item.timestamp, st.seg.0.prefix(), st.seg.1, st.seg.2, (starts[i + 1] - starts[i]) as nat))
    &&& st.seg.0.wf()
    &&& i == 0 ==> is_zero_bound(st.prev) && st.prev.wf()
    &&& i > 0 ==> st.prev == steps[i - 1].seg.0
    &&& is_upper(items, st.seg.0.item, st.upper)
    &&& st.lower == if prev_upper <= st.upper {
        prev_upper
    } else {
        st.upper
    }
    &&& step_effect(items, id_size, initiator, st)
}

/// `steps` are the first segments of `query`, from its start to `starts[n]`.
pub open spec fn steps_ok(
    items: Seq<Item>,
    id_size: nat,
    initiator: bool,
    query: Seq<u8>,
    steps: Seq<Step>,
    starts: Seq<int>,
) -> bool {
    &&& starts.len() == steps.len() + 1
    &&& starts[0] == 0
    &&& forall|i: int| 0 <= i < steps.len() ==> #[trigger] step_ok(items, id_size, initiator, query, steps, starts, i)
}

/// All segments queued by `steps`, in order.
pub open spec fn outs_of(steps: Seq<Step>) -> Seq<Segment>
    decreases steps.len(),
{
    if steps.len() == 0 {
        Seq::empty()
    } else {
        outs_of(steps.drop_last()) + steps.last().out
    }
}

/// All have ids of `steps`, in order.
pub open spec fn haves_of(steps: Seq<Step>) -> Seq<Seq<u8>>
    decreases steps.len(),
{
    if steps.len() == 0 {
        Seq::empty()
    } else {
        haves_of(steps.drop_last()) + steps.last().have
    }
}

/// All need ids of `steps`, in order.
pub open spec fn needs_of(steps: Seq<Step>) -> Seq<Seq<u8>>
    decreases steps.len(),
{
    if steps.len() == 0 {
        Seq::empty()
    } else {
        needs_of(steps.drop_last()) + steps.last().need
    }
}

/// Some step carries a continuation mark.
pub open spec fn continues(steps: Seq<Step>) -> bool {
    exists|i: int| 0 <= i < steps.len() && (#[trigger] steps[i]).seg.1 == 4
}

/// The byte strings that `v` holds.
pub open spec fn byte_views(v: Seq<Bytes>) -> Seq<Seq<u8>> {
    v.map_values(|b: Bytes| b@)
}

/// The timestamp of the last bound read by `steps`.
pub open spec fn last_in(steps: Seq<Step>) -> u64 {
    if steps.len() == 0 {
        0
    } else {
        steps.last().seg.0.item.timestamp
    }
}

/// Reading all of `query` went through: its segments are `steps`, whose
/// answers go in front of `old_pending`, whose have and need ids follow the
/// old ones, and `continuation` says whether one carried a continuation mark.
pub open spec fn reconciled(
    items: Seq<Item>,
    id_size: nat,
    initiator: bool,
    query: Seq<u8>,
    old_pending: Seq<Segment>,
    pending: Seq<Segment>,
    old_have: Seq<Seq<u8>>,
    have: Seq<Seq<u8>>,
    old_need: Seq<Seq<u8>>,
    need: Seq<Seq<u8>>,
    continuation: bool,
) -> bool {
    exists|steps: Seq<Step>, starts: Seq<int>|
        steps_ok(items, id_size, initiator, query, steps, starts) && starts.last() == query.len()
            && pending == outs_of(steps) + old_pending && have == old_have + haves_of(steps) && need
            == old_need + needs_of(steps) && continuation == continues(steps)
}

proof fn lemma_no_ids(items: Seq<Item>, id_size: nat, steps: Seq<Step>)
    requires
        forall|i: int| 0 <= i < steps.len() ==> step_effect(items, id_size, false, #[trigger] steps[i]),
    ensures
        haves_of(steps) == Seq::<Seq<u8>>::empty(),
        needs_of(steps) == Seq::<Seq<u8>>::empty(),
    decreases steps.len(),
{
    if steps.len() > 0 {
        let d = steps.drop_last();
        assert forall|i: int| 0 <= i < d.len() implies step_effect(items, id_size, false, #[trigger] d[i]) by {
            assert(d[i] == steps[i]);
        }
        lemma_no_ids(items, id_size, d);
        assert(step_effect(items, id_size, false, steps[steps.len() - 1]));
        assert(haves_of(steps) =~= Seq::<Seq<u8>>::empty());
        assert(needs_of(steps) =~= Seq::<Seq<u8>>::empty());
    }
}

/// Reading `query` stopped with `e`: the segments before went through and
/// the next one does not parse.
pub open spec fn refused(items: Seq<Item>, id_size: nat, initiator: bool, query: Seq<u8>, e: Error) -> bool {
    exists|steps: Seq<Step>, starts: Seq<int>|
        steps_ok(items, id_size, initiator, query, steps, starts) && starts.last() < query.len()
            && parse_segment(query.skip(starts.last()), last_in(steps), id_size) == Err::<
            (u64, Seq<u8>, u64, Seq<Seq<u8>>, nat),
            Error,
        >(e)
}

/// Answering `query`: reading it as `reconciled` says, then framing the
/// queue, which leaves `rest`.
pub open spec fn answered(
    items: Seq<Item>,
    id_size: nat,
    initiator: bool,
    query: Seq<u8>,
    old_pending: Seq<Segment>,
    rest: Seq<Segment>,
    old_have: Seq<Seq<u8>>,
    have: Seq<Seq<u8>>,
    old_need: Seq<Seq<u8>>,
    need: Seq<Seq<u8>>,
    continuation: bool,
    limit: nat,
    frame: Seq<u8>,
) -> bool {
    exists|queue: Seq<Segment>, sorted: Seq<Segment>, k: int|
        reconciled(
            items,
            id_size,
            initiator,
            query,
            old_pending,
            queue,
            old_have,
            have,
            old_need,
            need,
            continuation,
        ) && framed(queue, sorted, k, rest, frame, initiator, continuation, limit)
}

/// What starting a session produces: the whole store, from the least bound
/// to the end of the universe, described by `split_ok`, then framed; `rest`
/// stays queued.
pub open spec fn initiated(
    items: Seq<Item>,
    id_size: nat,
    continuation: bool,
    limit: nat,
    rest: Seq<Segment>,
    frame: Seq<u8>,
) -> bool {
    exists|lb: Bound, ub: Bound, queue: Seq<Segment>, sorted: Seq<Segment>, k: int|
        bound_is(lb, 0, Seq::empty()) && bound_is(ub, MAX_U64, Seq::empty()) && split_ok(
            items,
            0,
            items.len() as int,
            lb,
            ub,
            id_size,
            queue,
        ) && framed(queue, sorted, k, rest, frame, true, continuation, limit)
}

/// Relies on `slice::sort_by_key`: it sorts ascending by the key, here the
/// start bound's `(u64, [u8; 32])` key, which std orders lexicographically,
/// and moves the elements only.
#[verifier::external_body]
fn sort_by_start(v: &mut Vec<OutputRange>)
    ensures
        final(v)@.to_multiset() == old(v)@.to_multiset(),
        sorted_by_start(segments(final(v)@)),
{
    v.sort_by_key(|o| o.start.item.key())
}

proof fn lemma_segments_index(s: Seq<OutputRange>)
    ensures
        segments(s).len() == s.len(),
        forall|i: int| 0 <= i < s.len() ==> #[trigger] segments(s)[i] == s[i]@,
{
}

proof fn lemma_segments_permutation(a: Seq<OutputRange>, b: Seq<OutputRange>)
    requires
        a.to_multiset() == b.to_multiset(),
    ensures
        segments(a).to_multiset() == segments(b).to_multiset(),
    decreases a.len(),
{
    broadcast use vstd::seq_lib::group_to_multiset_ensures;

    vstd::seq_lib::to_multiset_len(a);
    vstd::seq_lib::to_multiset_len(b);
    if a.len() == 0 {
        assert(b.len() == 0);
        assert(segments(a) =~= segments(b));
    } else {
        let x = a.last();
        assert(a.contains(x)) by {
            assert(a[a.len() - 1] == x);
        }
        assert(a.to_multiset().count(x) > 0);
        assert(b.contains(x));
        let j = choose|j: int| 0 <= j < b.len() && b[j] == x;
        vstd::seq_lib::to_multiset_remove(b, j);
        vstd::seq_lib::to_multiset_remove(a, a.len() - 1);
        assert(a.remove(a.len() - 1) =~= a.drop_last());
        lemma_segments_permutation(a.drop_last(), b.remove(j));
        assert(segments(a) =~= segments(a.drop_last()).push(x@));
        assert(segments(b.remove(j)) =~= segments(b).remove(j));
        vstd::seq_lib::to_multiset_remove(segments(b), j);
        assert(segments(b)[j] == x@);
        assert(segments(b).contains(x@));
        assert(segments(b).to_multiset().count(x@) > 0);
        assert(segments(b).to_multiset() =~= segments(b).to_multiset().remove(x@).insert(x@));
    }
}

proof fn lemma_segments_multiset(a: Seq<OutputRange>, b: Seq<OutputRange>)
    requires
        a.to_multiset() == b.to_multiset(),
    ensures
        forall|i: int| 0 <= i < a.len() ==> b.contains(#[trigger] a[i]),
{
    broadcast use vstd::seq_lib::group_to_multiset_ensures;

    assert forall|i: int| 0 <= i < a.len() implies b.contains(#[trigger] a[i]) by {
        assert(a.contains(a[i]));
        assert(a.to_multiset().count(a[i]) > 0);
        assert(b.contains(a[i]));
    }
}

/// The reconciliation engine of one party: its store of items and the state
/// of its side of a session.
#[derive(Debug)]
pub struct Negentropy {
    id_size: usize,
    frame_size_limit: u64,
    items: Vec<Item>,
    sealed: bool,
    is_initiator: bool,
    continuation_needed: bool,
    pending_outputs: Vec<OutputRange>,
}

impl Negentropy {
    /// Bytes of each id.
    pub closed spec fn spec_id_size(&self) -> nat {
        self.id_size as nat
    }

    /// Largest frame to produce; 0 for no limit.
    pub closed spec fn spec_frame_size_limit(&self) -> nat {
        self.frame_size_limit as nat
    }

    /// The store, sorted once sealed.
    pub closed spec fn spec_items(&self) -> Seq<Item> {
        self.items@
    }

    /// Whether the store is sealed.
    pub closed spec fn spec_sealed(&self) -> bool {
        self.sealed
    }

    /// Whether this side started the session.
    pub closed spec fn spec_is_initiator(&self) -> bool {
        self.is_initiator
    }

    /// Whether the last message asked to be called again.
    pub closed spec fn spec_continuation_needed(&self) -> bool {
        self.continuation_needed
    }

    /// Segments waiting to be framed.
    pub closed spec fn spec_pending(&self) -> Seq<Segment> {
        segments(self.pending_outputs@)
    }

    /// The engine's invariant.
    pub closed spec fn wf(&self) -> bool {
        &&& 8 <= self.id_size <= ID_CAPACITY
        &&& self.frame_size_limit == 0 || self.frame_size_limit >= 4096
        &&& self.sealed ==> sorted_items(self.items@)
        &&& self.is_initiator ==> self.sealed
        &&& forall|i: int|
            0 <= i < self.pending_outputs@.len() ==> (#[trigger] self.pending_outputs@[i]).start.wf()
                && self.pending_outputs@[i].end.wf()
    }

    /// A new engine for ids of `id_size` bytes and frames of at most
    /// `frame_size_limit` bytes (`None` or 0: no limit). Fails with
    /// `InvalidIdSize` unless `8 <= id_size <= 32`, else with
    /// `FrameSizeLimitTooSmall` for a limit from 1 to 4095.
    pub fn new(id_size: u8, frame_size_limit: Option<u64>) -> (r: Result<Negentropy, Error>)
        ensures
            !(8 <= id_size <= 32) ==> r == Err::<Negentropy, Error>(Error::InvalidIdSize),
            8 <= id_size <= 32 && (frame_size_limit matches Some(l) && 0 < l < 4096) ==> r == Err::<
                Negentropy,
                Error,
            >(Error::FrameSizeLimitTooSmall),
            8 <= id_size <= 32 && !(frame_size_limit matches Some(l) && 0 < l < 4096) ==> (
            r matches Ok(n) && n.wf() && n.spec_id_size() == id_size && n.spec_frame_size_limit()
                == match frame_size_limit {
                Some(l) => l,
                None => 0,
            } && n.spec_items().len() == 0 && !n.spec_sealed() && !n.spec_is_initiator()
                && !n.spec_continuation_needed() && n.spec_pending().len() == 0),
    {
        if id_size < 8 || id_size > 32 {
            return Err(Error::InvalidIdSize);
        }
        let limit: u64 = match frame_size_limit {
            Some(l) => l,
            None => 0,
        };
        if limit > 0 && limit < 4096 {
            return Err(Error::FrameSizeLimitTooSmall);
        }
        let r = Negentropy {
            id_size: id_size as usize,
            frame_size_limit: limit,
            items: Vec::new(),
            sealed: false,
            is_initiator: false,
            continuation_needed: false,
            pending_outputs: Vec::new(),
        };
        assert(r.spec_pending() =~= Seq::empty());
        Ok(r)
    }

    /// Whether this side started the session.
    pub fn is_initiator(&self) -> (r: bool)
        ensures
            r == self.spec_is_initiator(),
    {
        self.is_initiator
    }

    /// Whether the last message parsed carried a continuation mark.
    pub fn continuation_needed(&self) -> (r: bool)
        ensures
            r == self.spec_continuation_needed(),
    {
        self.continuation_needed
    }

    /// Adds an item to the open store. Fails with `AlreadySealed` once the
    /// store is sealed, else with `InvalidIdSize` where `id` is not of the
    /// id size.
    pub fn add_item(&mut self, created_at: u64, id: Bytes) -> (r: Result<(), Error>)
        requires
            old(self).wf(),
        ensures
            final(self).wf(),
            old(self).spec_sealed() ==> r == Err::<(), Error>(Error::AlreadySealed),
            !old(self).spec_sealed() && id@.len() != old(self).spec_id_size() ==> r == Err::<
                (),
                Error,
            >(Error::InvalidIdSize),
            r is Err ==> *final(self) == *old(self),
            !old(self).spec_sealed() && id@.len() == old(self).spec_id_size() ==> r is Ok,
            r is Ok ==> !old(self).spec_sealed() && id@.len() == old(self).spec_id_size(),
            r is Ok ==> final(self).spec_items().len() == old(self).spec_items().len() + 1
                && final(self).spec_items().take(old(self).spec_items().len() as int)
                == old(self).spec_items() && final(self).spec_items().last().timestamp == created_at
                && final(self).spec_items().last().id@ == padded(id@),
            r is Ok ==> final(self).spec_id_size() == old(self).spec_id_size()
                && final(self).spec_sealed() == old(self).spec_sealed()
                && final(self).spec_is_initiator() == old(self).spec_is_initiator()
                && final(self).spec_frame_size_limit() == old(self).spec_frame_size_limit()
                && final(self).spec_continuation_needed() == old(self).spec_continuation_needed()
                && final(self).spec_pending() == old(self).spec_pending(),
    {
        if self.sealed {
            return Err(Error::AlreadySealed);
        }
        let bytes = id.as_bytes();
        if bytes.len() != self.id_size {
            return Err(Error::InvalidIdSize);
        }
        let item = match Item::with_timestamp_and_id(created_at, bytes) {
            Ok(item) => item,
            Err(e) => return Err(e),
        };
        self.items.push(item);
        assert(self.items@.take(old(self).items@.len() as int) =~= old(self).items@);
        Ok(())
    }

    /// Seals the store: sorts it, after which it takes no more items. Fails
    /// with `AlreadySealed` the second time.
    pub fn seal(&mut self) -> (r: Result<(), Error>)
        requires
            old(self).wf(),
        ensures
            final(self).wf(),
            old(self).spec_sealed() <==> r == Err::<(), Error>(Error::AlreadySealed),
            !old(self).spec_sealed() ==> r is Ok,
            r is Err ==> *final(self) == *old(self),
            r is Ok ==> final(self).spec_sealed() && sorted_items(final(self).spec_items())
                && final(self).spec_items().to_multiset() == old(self).spec_items().to_multiset(),
            r is Ok ==> final(self).spec_id_size() == old(self).spec_id_size()
                && final(self).spec_is_initiator() == old(self).spec_is_initiator()
                && final(self).spec_frame_size_limit() == old(self).spec_frame_size_limit()
                && final(self).spec_continuation_needed() == old(self).spec_continuation_needed()
                && final(self).spec_pending() == old(self).spec_pending(),
    {
        if self.sealed {
            return Err(Error::AlreadySealed);
        }
        sort_items(&mut self.items);
        self.sealed = true;
        Ok(())
    }

    /// Frames the pending segments: see `framed`. What it sends leaves the
    /// queue.
    fn build_output(&mut self) -> (r: Vec<u8>)
        requires
            old(self).wf(),
        ensures
            final(self).wf(),
            exists|sorted: Seq<Segment>, k: int|
                framed(
                    old(self).spec_pending(),
                    sorted,
                    k,
                    final(self).spec_pending(),
                    r@,
                    old(self).is_initiator,
                    old(self).continuation_needed,
                    old(self).frame_size_limit as nat,
                ),
            old(self).frame_size_limit > 0 ==> r@.len() <= old(self).frame_size_limit,
            !old(self).is_initiator && final(self).pending_outputs@.len() > 0 ==> r@.len() >= 3
                && r@.skip(r@.len() - 3) == continuation_mark(),
            final(self).id_size == old(self).id_size,
            final(self).frame_size_limit == old(self).frame_size_limit,
            final(self).items == old(self).items,
            final(self).sealed == old(self).sealed,
            final(self).is_initiator == old(self).is_initiator,
            final(self).continuation_needed == old(self).continuation_needed,
    {
        let ghost old_queue = self.pending_outputs@;
        sort_by_start(&mut self.pending_outputs);
        let ghost sorted_ranges = self.pending_outputs@;
        let ghost sorted = segments(sorted_ranges);
        proof {
            lemma_segments_index(sorted_ranges);
            lemma_segments_index(old_queue);
            lemma_segments_multiset(sorted_ranges, old_queue);
            lemma_segments_permutation(sorted_ranges, old_queue);
        }
        let limit = self.frame_size_limit;
        let mut output: Vec<u8> = Vec::new();
        let mut cursor: Bound = Bound::new();
        let mut last: u64 = 0;
        let mut i: usize = 0;
        let n = self.pending_outputs.len();
        while i < n
            invariant
                self.wf(),
                self.pending_outputs@ == sorted_ranges,
                sorted == segments(sorted_ranges),
                sorted.len() == n,
                self.frame_size_limit == limit,
                0 <= i <= n,
                cursor.wf(),
                i == 0 ==> is_zero_bound(cursor) && last == 0,
                i > 0 ==> cursor == sorted[i - 1].1 && last == cursor.item.timestamp,
                output@ == frame_bytes(sorted, i as int),
                limit > 0 ==> output@.len() + 5 <= limit,
                limit == 0 || limit >= 4096,
                forall|j: int| 0 <= j < i ==> !#[trigger] overlaps(sorted, j),
                forall|j: int| 1 <= j <= i ==> #[trigger] fits(sorted, j, limit as nat),
            ensures
                0 <= i <= n,
                i == n || overlaps(sorted, i as int) || !fits(sorted, i + 1, limit as nat),
            decreases n - i,
        {
            let p = &self.pending_outputs[i];
            proof {
                lemma_segments_index(sorted_ranges);
                assert(sorted[i as int] == p@);
            }
            if item_less(&p.start.item, &cursor.item) {
                proof {
                    if i == 0 {
                        assert(cursor.item.id@.take(0) =~= p.start.item.id@.take(0));
                        crate::types::lemma_lex_zero_tail(p.start.item.id@, cursor.item.id@, 0);
                    }
                }
                break;
            }
            let mut o: Vec<u8> = Vec::new();
            let mut l: u64 = last;
            if !bound_eq(&cursor, &p.start) {
                push_bound(&mut o, &p.start, &mut l);
                push_var_int(&mut o, Mode::Skip.as_u64());
            }
            push_bound(&mut o, &p.end, &mut l);
            push_all(&mut o, p.payload.as_slice());
            proof {
                if i == 0 {
                    assert(cursor.item.id@ =~= p.start.item.id@ <== is_zero_bound(p.start)) by {
                        if is_zero_bound(p.start) {
                            assert(cursor.item.id@ =~= padded(Seq::empty()));
                            assert(p.start.item.id@ =~= padded(Seq::empty()));
                        }
                    }
                }
                assert(o@ =~= segment_bytes(sorted, i as int));
            }
            proof {
                assert(frame_bytes(sorted, i + 1) == frame_bytes(sorted, i as int) + segment_bytes(sorted, i as int));
            }
            if limit > 0 && o.len() as u64 > limit - 5 - output.len() as u64 {
                break;
            }
            proof {
                assert(!overlaps(sorted, i as int));
                assert(fits(sorted, i + 1, limit as nat));
            }
            output.append(&mut o);
            cursor = p.end;
            last = l;
            i = i + 1;
        }
        proof {
            lemma_segments_index(sorted_ranges);
        }
        let rest = self.pending_outputs.split_off(i);
        self.pending_outputs = rest;
        let ghost body = output@;
        if (!self.is_initiator && i < n) || (self.is_initiator && output.len() == 0
            && self.continuation_needed) {
            let end = Bound::with_timestamp(MAX_U64);
            push_bound(&mut output, &end, &mut last);
            push_var_int(&mut output, Mode::Continuation.as_u64());
            assert(output@ =~= body + continuation_mark());
            assert(output@.skip(output@.len() - 3) =~= continuation_mark());
        } else {
            assert(output@ =~= body + Seq::empty());
        }
        proof {
            assert(self.pending_outputs@ == sorted_ranges.skip(i as int));
            assert(segments(self.pending_outputs@) =~= sorted.skip(i as int));
            assert forall|j: int| 0 <= j < i implies !overlaps(sorted, j) && fits(sorted, j + 1, limit as nat) by {
                assert(fits(sorted, j + 1, limit as nat));
            }
            assert forall|j: int| 0 <= j < self.pending_outputs@.len() implies (#[trigger] self.pending_outputs@[j]).start.wf()
                && self.pending_outputs@[j].end.wf() by {
                assert(self.pending_outputs@[j] == sorted_ranges[i + j]);
                lemma_segments_multiset(sorted_ranges, old_queue);
                assert(old_queue.contains(sorted_ranges[i + j]));
                let x = choose|x: int| 0 <= x < old_queue.len() && old_queue[x] == sorted_ranges[i + j];
                assert(old(self).pending_outputs@[x].start.wf());
            }
            assert(framed(
                segments(old_queue),
                sorted,
                i as int,
                segments(self.pending_outputs@),
                output@,
                self.is_initiator,
                self.continuation_needed,
                limit as nat,
            ));
            assert(framed(
                old(self).spec_pending(),
                sorted,
                i as int,
                self.spec_pending(),
                output@,
                old(self).is_initiator,
                old(self).continuation_needed,
                old(self).frame_size_limit as nat,
            ));
        }
        output
    }

    /// Starts a session as the initiator: describes the whole store, from the
    /// least bound to the end of the universe, and frames that. Fails with
    /// `NotSealed` before the store is sealed.
    pub fn initiate(&mut self) -> (r: Result<Bytes, Error>)
        requires
            old(self).wf(),
        ensures
            final(self).wf(),
            !old(self).spec_sealed() <==> r == Err::<Bytes, Error>(Error::NotSealed),
            old(self).spec_sealed() ==> r is Ok,
            r is Err ==> *final(self) == *old(self),
            r is Ok ==> final(self).spec_is_initiator(),
            r matches Ok(frame) ==> initiated(
                old(self).spec_items(),
                old(self).spec_id_size(),
                old(self).spec_continuation_needed(),
                old(self).spec_frame_size_limit(),
                final(self).spec_pending(),
                frame@,
            ),
            r matches Ok(frame) ==> old(self).spec_frame_size_limit() > 0 ==> frame@.len()
                <= old(self).spec_frame_size_limit(),
            r is Ok ==> final(self).spec_items() == old(self).spec_items() && final(self).spec_sealed()
                && final(self).spec_id_size() == old(self).spec_id_size()
                && final(self).spec_frame_size_limit() == old(self).spec_frame_size_limit()
                && final(self).spec_continuation_needed() == old(self).spec_continuation_needed(),
    {
        if !self.sealed {
            return Err(Error::NotSealed);
        }
        self.is_initiator = true;
        let mut outputs: Vec<OutputRange> = Vec::new();
        let lb = Bound::new();
        let ub = Bound::with_timestamp(MAX_U64);
        self.split_range(0, self.items.len(), lb, ub, &mut outputs);
        proof {
            assert(outputs@.skip(0) =~= outputs@);
            assert(lb.item.id@ =~= padded(Seq::empty()));
            assert(ub.item.id@ =~= padded(Seq::empty()));
        }
        self.pending_outputs = outputs;
        let ghost queue = self.spec_pending();
        let frame = self.build_output();
        let out = Bytes::from_vec(frame);
        proof {
            let (sorted, k) = choose|sorted: Seq<Segment>, k: int|
                framed(
                    queue,
                    sorted,
                    k,
                    self.spec_pending(),
                    out@,
                    true,
                    old(self).continuation_needed,
                    old(self).frame_size_limit as nat,
                );
            assert(bound_is(lb, 0, Seq::empty()) && bound_is(ub, MAX_U64, Seq::empty()) && split_ok(
                old(self).spec_items(),
                0,
                old(self).spec_items().len() as int,
                lb,
                ub,
                old(self).spec_id_size(),
                queue,
            ) && framed(
                queue,
                sorted,
                k,
                self.spec_pending(),
                out@,
                true,
                old(self).spec_continuation_needed(),
                old(self).spec_frame_size_limit(),
            ));
            assert(initiated(
                old(self).spec_items(),
                old(self).spec_id_size(),
                old(self).spec_continuation_needed(),
                old(self).spec_frame_size_limit(),
                self.spec_pending(),
                out@,
            ));
            assert(self.spec_is_initiator());
            assert(old(self).spec_frame_size_limit() > 0 ==> out@.len() <= old(self).spec_frame_size_limit());
        }
        Ok(out)
    }

    /// The payload of an id list of `items[lower..upper]`.
    fn id_list_payload(&self, lower: usize, upper: usize) -> (r: Vec<u8>)
        requires
            self.wf(),
            lower <= upper <= self.items@.len(),
        ensures
            r@ == id_list_payload(self.items@.subrange(lower as int, upper as int), self.id_size as nat),
    {
        let ghost items = self.items@;
        let ghost id_size = self.id_size as nat;
        let mut payload: Vec<u8> = Vec::new();
        push_var_int(&mut payload, Mode::IdList.as_u64());
        push_var_int(&mut payload, (upper - lower) as u64);
        let mut i: usize = lower;
        while i < upper
            invariant
                lower <= i <= upper <= items.len(),
                items == self.items@,
                id_size == self.id_size,
                self.id_size <= 32,
                payload@ == varint(2) + varint((upper - lower) as nat) + ids_bytes(
                    items.subrange(lower as int, i as int),
                    id_size,
                ),
            decreases upper - i,
        {
            push_id_prefix(&mut payload, &self.items[i].id, self.id_size);
            proof {
                let s = items.subrange(lower as int, i + 1);
                assert(s.drop_last() =~= items.subrange(lower as int, i as int));
                assert(s.last() == items[i as int]);
            }
            i = i + 1;
        }
        payload
    }

    /// The XOR digest of `items[lower..upper]`.
    fn fingerprint_of(&self, lower: usize, upper: usize) -> (r: Fingerprint)
        requires
            lower <= upper <= self.items@.len(),
        ensures
            r.buf@ == xor_of(self.items@.subrange(lower as int, upper as int)),
    {
        let ghost items = self.items@;
        let mut fp = Fingerprint::new();
        let mut i: usize = lower;
        while i < upper
            invariant
                lower <= i <= upper <= items.len(),
                items == self.items@,
                fp.buf@ == xor_of(items.subrange(lower as int, i as int)),
            decreases upper - i,
        {
            fp.add_item(&self.items[i]);
            proof {
                let s = items.subrange(lower as int, i + 1);
                assert(s.drop_last() =~= items.subrange(lower as int, i as int));
                assert(s.last() == items[i as int]);
            }
            i = i + 1;
        }
        proof {
            assert(items.subrange(lower as int, lower as int) =~= Seq::<Item>::empty());
        }
        fp
    }

    /// Reads the segment at `pos` of `q` after timestamp `*last`, which
    /// becomes the segment's bound's.
    fn read_segment(&self, q: &[u8], pos: usize, last: &mut u64) -> (r: Result<
        (Bound, u64, Vec<Vec<u8>>, usize),
        Error,
    >)
        requires
            self.wf(),
            pos <= q@.len(),
        ensures
            match r {
                Ok((b, m, body, p)) => b.wf() && pos < p <= q@.len() && *final(last) == b.item.timestamp && parse_segment(
                    q@.skip(pos as int),
                    *old(last),
                    self.id_size as nat,
                ) == Ok::<(u64, Seq<u8>, u64, Seq<Seq<u8>>, nat), Error>(
                    (b.item.timestamp, b.prefix(), m, vec_views(body@), (p - pos) as nat),
                ),
                Err(e) => parse_segment(q@.skip(pos as int), *old(last), self.id_size as nat)
                    == Err::<(u64, Seq<u8>, u64, Seq<Seq<u8>>, nat), Error>(e),
            },
    {
        let ghost s = q@.skip(pos as int);
        let ghost id_size = self.id_size as nat;
        let (b, p1) = match decode_bound(q, pos, last) {
            Ok(x) => x,
            Err(e) => return Err(e),
        };
        let ghost k1 = (p1 - pos) as int;
        assert(s.skip(k1) =~= q@.subrange(p1 as int, q@.len() as int));
        let (m, p2) = match decode_var_int(q, p1) {
            Ok(x) => x,
            Err(e) => return Err(e),
        };
        let ghost k2 = (p2 - p1) as int;
        assert(s.skip(k1 + k2) =~= q@.skip(p2 as int));
        if m > 4 {
            return Err(Error::UnexpectedMode(m));
        }
        if m == 3 {
            return Err(Error::DeprecatedProtocol);
        }
        let mut body: Vec<Vec<u8>> = Vec::new();
        if m == 1 {
            let (v, p3) = match get_bytes(q, p2, self.id_size as u64) {
                Ok(x) => x,
                Err(e) => return Err(e),
            };
            let ghost vv = v@;
            assert(vv =~= q@.skip(p2 as int).take(id_size as int));
            body.push(v);
            assert(body@[0]@ == vv);
            assert(vec_views(body@) =~= seq![q@.skip(p2 as int).take(id_size as int)]);
            return Ok((b, m, body, p3));
        }
        if m == 2 {
            assert(q@.skip(p2 as int) =~= q@.subrange(p2 as int, q@.len() as int));
            let (n, p3) = match decode_var_int(q, p2) {
                Ok(x) => x,
                Err(e) => return Err(e),
            };
            let ghost k3 = (p3 - p2) as int;
            let ghost rest = q@.skip(p2 as int);
            let avail: usize = q.len() - p3;
            proof {
                let l = avail as int;
                let z = self.id_size as int;
                assert((l / z < n) == (l < n * z)) by (nonlinear_arith)
                    requires z > 0, l >= 0, n >= 0;
                assert(rest.len() - k3 == l);
            }
            if ((avail / self.id_size) as u64) < n {
                return Err(Error::ParseEndsPrematurely);
            }
            let mut j: u64 = 0;
            let mut at: usize = p3;
            while j < n
                invariant
                    j <= n,
                    8 <= self.id_size <= 32,
                    id_size == self.id_size,
                    p3 <= q@.len(),
                    (q@.len() - p3) >= n * id_size,
                    at == p3 + j * id_size,
                    body@.len() == j,
                    forall|x: int| 0 <= x < j ==> (#[trigger] body@[x])@ == q@.skip(p3 as int).subrange(x * id_size, (x + 1) * id_size),
                decreases n - j,
            {
                proof {
                    assert((j + 1) * id_size <= n * id_size) by (nonlinear_arith)
                        requires j + 1 <= n;
                    assert((j + 1) * id_size == j * id_size + id_size) by (nonlinear_arith);
                }
                let (v, next) = match get_bytes(q, at, self.id_size as u64) {
                    Ok(x) => x,
                    Err(e) => return Err(e),
                };
                proof {
                    assert(v@ =~= q@.skip(p3 as int).subrange(j * id_size, (j + 1) * id_size));
                }
                body.push(v);
                at = next;
                j = j + 1;
            }
            proof {
                assert(rest.skip(k3) =~= q@.skip(p3 as int));
                assert(vec_views(body@) =~= split_ids(rest.skip(k3), n as nat, id_size));
                assert(n * id_size >= 0) by (nonlinear_arith)
                    requires n >= 0, id_size >= 0;
            }
            return Ok((b, m, body, at));
        }
        assert(vec_views(body@) =~= Seq::empty());
        Ok((b, m, body, p2))
    }

    /// Matches our ids in `items[lower..upper]` against the ids the peer
    /// listed, and records what we have and what we need.
    fn compare_id_list(
        &self,
        lower: usize,
        upper: usize,
        theirs: &Vec<Vec<u8>>,
        have: &mut Vec<Bytes>,
        need: &mut Vec<Bytes>,
    )
        requires
            self.wf(),
            lower <= upper <= self.items@.len(),
        ensures
            byte_views(final(have)@) == byte_views(old(have)@) + have_ids(
                ids_of(self.items@.subrange(lower as int, upper as int), self.id_size as nat),
                vec_views(theirs@),
            ),
            byte_views(final(need)@) == byte_views(old(need)@) + need_ids(
                vec_views(theirs@),
                ids_of(self.items@.subrange(lower as int, upper as int), self.id_size as nat),
            ),
    {
        let ghost items = self.items@;
        let ghost n = self.id_size as nat;
        let ghost tv = vec_views(theirs@);
        let m = theirs.len();
        let mut matched: Vec<bool> = Vec::new();
        while matched.len() < m
            invariant
                matched@.len() <= m == theirs@.len(),
                forall|t: int| 0 <= t < matched@.len() ==> !(#[trigger] matched@[t]),
            decreases m - matched@.len(),
        {
            matched.push(false);
        }
        let mut i: usize = lower;
        while i < upper
            invariant
                lower <= i <= upper <= items.len(),
                items == self.items@,
                n == self.id_size,
                self.wf(),
                tv == vec_views(theirs@),
                m == theirs@.len(),
                matched@.len() == m,
                forall|t: int|
                    0 <= t < m ==> #[trigger] matched@[t] == ids_of(items.subrange(lower as int, i as int), n).contains(tv[t]),
                byte_views(have@) == byte_views(old(have)@) + have_ids(
                    ids_of(items.subrange(lower as int, i as int), n),
                    tv,
                ),
                need@ == old(need)@,
            decreases upper - i,
        {
            let ghost prev = ids_of(items.subrange(lower as int, i as int), n);
            let ghost k = items[i as int].id@.take(n as int);
            let mut found = false;
            let mut seen = false;
            let mut t: usize = 0;
            while t < m
                invariant
                    t <= m == theirs@.len(),
                    i < items.len(),
                    n == self.id_size <= 32,
                    items == self.items@,
                    tv == vec_views(theirs@),
                    k == items[i as int].id@.take(n as int),
                    matched@.len() == m,
                    forall|x: int|
                        0 <= x < m ==> #[trigger] matched@[x] == prev.contains(tv[x]),
                    found == exists|x: int| 0 <= x < t && tv[x] == k,
                    found ==> (seen == prev.contains(k)),
                decreases m - t,
            {
                if id_matches(&self.items[i].id, self.id_size, theirs[t].as_slice()) {
                    proof {
                        assert(tv[t as int] == k);
                    }
                    found = true;
                    seen = matched[t];
                }
                t = t + 1;
            }
            proof {
                assert(tv.contains(k) == found);
            }
            let mut t: usize = 0;
            while t < m
                invariant
                    t <= m == theirs@.len(),
                    i < items.len(),
                    n == self.id_size <= 32,
                    items == self.items@,
                    tv == vec_views(theirs@),
                    k == items[i as int].id@.take(n as int),
                    matched@.len() == m,
                    forall|x: int| 0 <= x < t ==> #[trigger] matched@[x] == (prev.contains(tv[x]) || tv[x] == k),
                    forall|x: int| t <= x < m ==> #[trigger] matched@[x] == prev.contains(tv[x]),
                decreases m - t,
            {
                if id_matches(&self.items[i].id, self.id_size, theirs[t].as_slice()) {
                    matched[t] = true;
                }
                t = t + 1;
            }
            let ghost have_before = byte_views(have@);
            if !found || seen {
                let id = Bytes::from_vec(self.items[i].get_id_prefix(self.id_size));
                have.push(id);
                assert(byte_views(have@) =~= have_before.push(k));
            } else {
                assert(byte_views(have@) =~= have_before);
            }
            proof {
                let cur = ids_of(items.subrange(lower as int, i + 1), n);
                assert(cur =~= prev.push(k));
                assert(cur.drop_last() =~= prev);
                assert forall|x: int| 0 <= x < m implies #[trigger] matched@[x] == cur.contains(tv[x]) by {
                    if tv[x] == k {
                        assert(cur[cur.len() - 1] == k);
                    }
                    if prev.contains(tv[x]) {
                        let y = choose|y: int| 0 <= y < prev.len() && prev[y] == tv[x];
                        assert(cur[y] == tv[x]);
                    }
                    if cur.contains(tv[x]) {
                        let y = choose|y: int| 0 <= y < cur.len() && cur[y] == tv[x];
                        if y < prev.len() {
                            assert(prev[y] == tv[x]);
                        }
                    }
                }
                assert(cur.last() == k);
                assert(have_ids(cur, tv) == have_ids(prev, tv) + if !tv.contains(k) || prev.contains(k) {
                    seq![k]
                } else {
                    Seq::<Seq<u8>>::empty()
                });
                assert(byte_views(have@) =~= byte_views(old(have)@) + have_ids(cur, tv));
            }
            i = i + 1;
        }
        let ghost ours = ids_of(items.subrange(lower as int, upper as int), n);
        let mut t: usize = 0;
        while t < m
            invariant
                t <= m == theirs@.len(),
                tv == vec_views(theirs@),
                matched@.len() == m,
                forall|x: int| 0 <= x < m ==> #[trigger] matched@[x] == ours.contains(tv[x]),
                byte_views(need@) == byte_views(old(need)@) + need_ids(tv.take(t as int), ours),
            decreases m - t,
        {
            let mut earlier = false;
            let mut x: usize = 0;
            while x < t
                invariant
                    x <= t < m == theirs@.len(),
                    tv == vec_views(theirs@),
                    earlier == tv.take(x as int).contains(tv[t as int]),
                decreases t - x,
            {
                if bytes_equal(theirs[x].as_slice(), theirs[t].as_slice()) {
                    earlier = true;
                }
                proof {
                    assert(tv[x as int] == theirs@[x as int]@);
                    assert(tv[t as int] == theirs@[t as int]@);
                    let a = tv.take(x + 1);
                    assert(a =~= tv.take(x as int).push(tv[x as int]));
                    if tv[x as int] == tv[t as int] {
                        assert(a[x as int] == tv[t as int]);
                    }
                    if tv.take(x as int).contains(tv[t as int]) {
                        let y = choose|y: int| 0 <= y < x && tv.take(x as int)[y] == tv[t as int];
                        assert(a[y] == tv[t as int]);
                    }
                    if a.contains(tv[t as int]) {
                        let y = choose|y: int| 0 <= y < x + 1 && a[y] == tv[t as int];
                        if y < x {
                            assert(tv.take(x as int)[y] == tv[t as int]);
                        }
                    }
                }
                x = x + 1;
            }
            if !matched[t] && !earlier {
                have_or_need_push(need, theirs[t].as_slice());
            }
            proof {
                let a = tv.take(t + 1);
                assert(a.drop_last() =~= tv.take(t as int));
                assert(a.last() == tv[t as int]);
            }
            t = t + 1;
        }
        proof {
            assert(tv.take(m as int) =~= tv);
        }
    }

    /// Queues the answer of the non-initiator to an id list: our items in
    /// `items[lower..upper]`, in lists of up to a hundred.
    fn respond_id_list(
        &self,
        lower: usize,
        upper: usize,
        prev: Bound,
        curr: Bound,
        outputs: &mut Vec<OutputRange>,
    )
        requires
            self.wf(),
            lower <= upper <= self.items@.len(),
            prev.wf(),
            curr.wf(),
        ensures
            final(outputs)@.len() >= old(outputs)@.len(),
            final(outputs)@.take(old(outputs)@.len() as int) == old(outputs)@,
            chunks_ok(
                self.items@,
                lower as int,
                upper as int,
                prev,
                curr,
                self.id_size as nat,
                segments(final(outputs)@.skip(old(outputs)@.len() as int)),
            ),
            forall|i: int|
                0 <= i < final(outputs)@.len() && !(0 <= i < old(outputs)@.len()) ==> (
                #[trigger] final(outputs)@[i]).start.wf() && final(outputs)@[i].end.wf(),
    {
        let ghost items = self.items@;
        let ghost base = old(outputs)@.len() as int;
        let mut a: usize = lower;
        let mut start: Bound = prev;
        let mut c: usize = 0;
        loop
            invariant_except_break
                lower <= a <= upper <= items.len(),
                a == lower + 100 * c,
                c == 0 || a < upper,
            invariant
                items == self.items@,
                self.wf(),
                prev.wf(),
                curr.wf(),
                start.wf(),
                base == old(outputs)@.len(),
                outputs@.len() == base + c,
                outputs@.take(base) == old(outputs)@,
                c == 0 ==> start == prev,
                c > 0 ==> start == outputs@[base + c - 1].end,
                forall|j: int|
                    0 <= j < c ==> chunk_ok(
                        items,
                        lower as int,
                        upper as int,
                        prev,
                        curr,
                        self.id_size as nat,
                        segments(outputs@.skip(base)),
                        j,
                    ),
                forall|j: int|
                    base <= j < outputs@.len() ==> (#[trigger] outputs@[j]).start.wf()
                        && outputs@[j].end.wf(),
            ensures
                outputs@.len() == base + chunk_count(upper - lower),
            decreases upper - a + (if c == 0 { 1int } else { 0 }),
        {
            let b: usize = if upper - a > 100 {
                a + 100
            } else {
                upper
            };
            let payload = self.id_list_payload(a, b);
            let end: Bound = if b == upper {
                curr
            } else {
                get_minimal_bound(&self.items[b - 1], &self.items[b])
            };
            let ghost old_out = outputs@;
            let ghost pl = payload@;
            outputs.push(OutputRange { start, end, payload });
            proof {
                assert(outputs@.subrange(0, old_out.len() as int) =~= old_out);
                lemma_segments_skip(outputs@, base);
                lemma_segments_skip(old_out, base);
                let segs = segments(outputs@.skip(base));
                let old_segs = segments(old_out.skip(base));
                assert forall|j: int| 0 <= j < c implies chunk_ok(
                    items,
                    lower as int,
                    upper as int,
                    prev,
                    curr,
                    self.id_size as nat,
                    segs,
                    j,
                ) by {
                    assert(outputs@.subrange(0, old_out.len() as int)[base + j] == old_out[base + j]);
                    assert(segs[j] == old_segs[j]);
                    if j > 0 {
                        assert(outputs@.subrange(0, old_out.len() as int)[base + j - 1] == old_out[base + j - 1]);
                        assert(segs[j - 1] == old_segs[j - 1]);
                    }
                    assert(chunk_ok(
                        items,
                        lower as int,
                        upper as int,
                        prev,
                        curr,
                        self.id_size as nat,
                        old_segs,
                        j,
                    ));
                }
                assert(segs[c as int] == (start, end, pl));
                if c > 0 {
                    assert(segs[c - 1] == outputs@[base + c - 1]@);
                }
                assert(outputs@.take(base) =~= old(outputs)@);
                assert((lower + 100 * (c + 1) < upper) == (b < upper));
            }
            start = end;
            c = c + 1;
            if b == upper {
                proof {
                    let n = upper - lower;
                    let cc = c as int;
                    assert(chunk_count(n as int) == cc) by (nonlinear_arith)
                        requires lower + 100 * (cc - 1) <= upper, upper <= lower + 100 * cc, cc == 1 || lower + 100 * (cc - 1) < upper, n == upper - lower, cc >= 1;
                }
                break;
            }
            a = b;
        }
        proof {
            lemma_segments_skip(outputs@, base);
        }
    }

    /// Answers a message as the non-initiator: reads it, works out each
    /// segment, and frames what is queued. Fails with `Initiator` on the
    /// initiator, with `NotSealed` before sealing, and with the parse error
    /// of the first segment that does not parse.
    pub fn reconcile(&mut self, query: &Bytes) -> (r: Result<Bytes, Error>)
        requires
            old(self).wf(),
        ensures
            final(self).wf(),
            old(self).spec_is_initiator() ==> r == Err::<Bytes, Error>(Error::Initiator),
            !old(self).spec_is_initiator() && !old(self).spec_sealed() ==> r == Err::<Bytes, Error>(
                Error::NotSealed,
            ),
            old(self).spec_is_initiator() || !old(self).spec_sealed() ==> *final(self) == *old(self),
            !old(self).spec_is_initiator() && old(self).spec_sealed() ==> match r {
                Ok(frame) => answered(
                    old(self).spec_items(),
                    old(self).spec_id_size(),
                    false,
                    query@,
                    old(self).spec_pending(),
                    final(self).spec_pending(),
                    Seq::empty(),
                    Seq::empty(),
                    Seq::empty(),
                    Seq::empty(),
                    final(self).spec_continuation_needed(),
                    old(self).spec_frame_size_limit(),
                    frame@,
                ),
                Err(e) => refused(old(self).spec_items(), old(self).spec_id_size(), false, query@, e),
            },
            r matches Ok(frame) ==> old(self).spec_frame_size_limit() > 0 ==> frame@.len()
                <= old(self).spec_frame_size_limit(),
            r matches Ok(frame) ==> final(self).spec_pending().len() > 0 ==> frame@.len() >= 3
                && frame@.skip(frame@.len() - 3) == continuation_mark(),
            final(self).spec_items() == old(self).spec_items(),
            final(self).spec_sealed() == old(self).spec_sealed(),
            final(self).spec_is_initiator() == old(self).spec_is_initiator(),
            final(self).spec_id_size() == old(self).spec_id_size(),
            final(self).spec_frame_size_limit() == old(self).spec_frame_size_limit(),
    {
        if self.is_initiator {
            return Err(Error::Initiator);
        }
        let mut have: Vec<Bytes> = Vec::new();
        let mut need: Vec<Bytes> = Vec::new();
        let ghost queue0 = self.spec_pending();
        match self.reconcile_aux(query.as_bytes(), &mut have, &mut need) {
            Ok(()) => {},
            Err(e) => return Err(e),
        }
        let ghost queue = self.spec_pending();
        let ghost cont = self.continuation_needed;
        let frame = self.build_output();
        let out = Bytes::from_vec(frame);
        proof {
            let (sorted, k) = choose|sorted: Seq<Segment>, k: int|
                framed(
                    queue,
                    sorted,
                    k,
                    self.spec_pending(),
                    out@,
                    false,
                    cont,
                    self.frame_size_limit as nat,
                );
            assert(byte_views(Seq::<Bytes>::empty()) =~= Seq::empty());
            let (steps, starts) = choose|steps: Seq<Step>, starts: Seq<int>|
                steps_ok(old(self).items@, old(self).id_size as nat, false, query@, steps, starts)
                    && starts.last() == query@.len() && queue == outs_of(steps) + queue0
                    && byte_views(have@) == byte_views(Seq::<Bytes>::empty()) + haves_of(steps)
                    && byte_views(need@) == byte_views(Seq::<Bytes>::empty()) + needs_of(steps)
                    && cont == continues(steps);
            assert forall|i: int| 0 <= i < steps.len() implies step_effect(
                old(self).items@,
                old(self).id_size as nat,
                false,
                #[trigger] steps[i],
            ) by {
                assert(step_ok(old(self).items@, old(self).id_size as nat, false, query@, steps, starts, i));
            }
            lemma_no_ids(old(self).items@, old(self).id_size as nat, steps);
            assert(byte_views(have@) =~= Seq::empty());
            assert(byte_views(need@) =~= Seq::empty());
            assert(answered(
                old(self).spec_items(),
                old(self).spec_id_size(),
                false,
                query@,
                old(self).spec_pending(),
                self.spec_pending(),
                Seq::empty(),
                Seq::empty(),
                Seq::empty(),
                Seq::empty(),
                self.spec_continuation_needed(),
                old(self).spec_frame_size_limit(),
                out@,
            )) by {
                assert(reconciled(
                    old(self).items@,
                    old(self).id_size as nat,
                    false,
                    query@,
                    queue0,
                    queue,
                    Seq::empty(),
                    Seq::empty(),
                    Seq::empty(),
                    Seq::empty(),
                    cont,
                ));
                assert(framed(
                    queue,
                    sorted,
                    k,
                    self.spec_pending(),
                    out@,
                    false,
                    cont,
                    self.frame_size_limit as nat,
                ));
            }
        }
        Ok(out)
    }

    /// Answers a message as the initiator: reads it, records in `have_ids`
    /// the ids only we hold and in `need_ids` those only the peer holds, and
    /// frames what is queued. `None` means the session is over. Fails with
    /// `NonInitiator` on the non-initiator, and with the parse error of the
    /// first segment that does not parse.
    pub fn reconcile_with_ids(
        &mut self,
        query: &Bytes,
        have_ids: &mut Vec<Bytes>,
        need_ids: &mut Vec<Bytes>,
    ) -> (r: Result<Option<Bytes>, Error>)
        requires
            old(self).wf(),
        ensures
            final(self).wf(),
            !old(self).spec_is_initiator() ==> r == Err::<Option<Bytes>, Error>(Error::NonInitiator),
            !old(self).spec_is_initiator() ==> *final(self) == *old(self) && final(have_ids)@
                == old(have_ids)@ && final(need_ids)@ == old(need_ids)@,
            old(self).spec_is_initiator() ==> match r {
                Ok(out) => exists|frame: Seq<u8>|
                    answered(
                        old(self).spec_items(),
                        old(self).spec_id_size(),
                        true,
                        query@,
                        old(self).spec_pending(),
                        final(self).spec_pending(),
                        byte_views(old(have_ids)@),
                        byte_views(final(have_ids)@),
                        byte_views(old(need_ids)@),
                        byte_views(final(need_ids)@),
                        final(self).spec_continuation_needed(),
                        old(self).spec_frame_size_limit(),
                        frame,
                    ) && match out {
                        None => frame.len() == 0,
                        Some(f) => f@ == frame && frame.len() > 0,
                    },
                Err(e) => refused(old(self).spec_items(), old(self).spec_id_size(), true, query@, e),
            },
            r matches Ok(Some(frame)) ==> old(self).spec_frame_size_limit() > 0 ==> frame@.len()
                <= old(self).spec_frame_size_limit(),
            final(self).spec_items() == old(self).spec_items(),
            final(self).spec_sealed() == old(self).spec_sealed(),
            final(self).spec_is_initiator() == old(self).spec_is_initiator(),
            final(self).spec_id_size() == old(self).spec_id_size(),
            final(self).spec_frame_size_limit() == old(self).spec_frame_size_limit(),
    {
        if !self.is_initiator {
            return Err(Error::NonInitiator);
        }
        let ghost queue0 = self.spec_pending();
        let ghost have0 = byte_views(have_ids@);
        let ghost need0 = byte_views(need_ids@);
        match self.reconcile_aux(query.as_bytes(), have_ids, need_ids) {
            Ok(()) => {},
            Err(e) => return Err(e),
        }
        let ghost queue = self.spec_pending();
        let ghost cont = self.continuation_needed;
        let frame = self.build_output();
        let ghost fv = frame@;
        proof {
            let (sorted, k) = choose|sorted: Seq<Segment>, k: int|
                framed(
                    queue,
                    sorted,
                    k,
                    self.spec_pending(),
                    fv,
                    true,
                    cont,
                    self.frame_size_limit as nat,
                );
            assert(answered(
                old(self).spec_items(),
                old(self).spec_id_size(),
                true,
                query@,
                old(self).spec_pending(),
                self.spec_pending(),
                have0,
                byte_views(have_ids@),
                need0,
                byte_views(need_ids@),
                self.spec_continuation_needed(),
                old(self).spec_frame_size_limit(),
                fv,
            )) by {
                assert(reconciled(
                    old(self).items@,
                    old(self).id_size as nat,
                    true,
                    query@,
                    queue0,
                    queue,
                    have0,
                    byte_views(have_ids@),
                    need0,
                    byte_views(need_ids@),
                    cont,
                ));
            }
        }
        if frame.len() == 0 {
            Ok(None)
        } else {
            Ok(Some(Bytes::from_vec(frame)))
        }
    }

    /// Reads `query` segment by segment and works out each: queues answers in
    /// front of the pending ones, and (as the initiator) records have and
    /// need ids.
    fn reconcile_aux(&mut self, query: &[u8], have: &mut Vec<Bytes>, need: &mut Vec<Bytes>) -> (r: Result<(), Error>)
        requires
            old(self).wf(),
        ensures
            final(self).wf(),
            !old(self).sealed ==> r == Err::<(), Error>(Error::NotSealed),
            !old(self).sealed ==> *final(self) == *old(self),
            final(self).id_size == old(self).id_size,
            final(self).frame_size_limit == old(self).frame_size_limit,
            final(self).items@ == old(self).items@,
            final(self).sealed == old(self).sealed,
            final(self).is_initiator == old(self).is_initiator,
            old(self).sealed ==> match r {
                Ok(()) => reconciled(
                    old(self).items@,
                    old(self).id_size as nat,
                    old(self).is_initiator,
                    query@,
                    old(self).spec_pending(),
                    final(self).spec_pending(),
                    byte_views(old(have)@),
                    byte_views(final(have)@),
                    byte_views(old(need)@),
                    byte_views(final(need)@),
                    final(self).continuation_needed,
                ),
                Err(e) => refused(
                    old(self).items@,
                    old(self).id_size as nat,
                    old(self).is_initiator,
                    query@,
                    e,
                ),
            },
    {
        if !self.sealed {
            return Err(Error::NotSealed);
        }
        let ghost items = self.items@;
        let ghost n = self.id_size as nat;
        let ghost init = self.is_initiator;
        self.continuation_needed = false;
        let mut prev_bound: Bound = Bound::new();
        let mut prev_index: usize = 0;
        let mut last: u64 = 0;
        let mut outputs: Vec<OutputRange> = Vec::new();
        let mut pos: usize = 0;
        let ghost mut steps: Seq<Step> = Seq::empty();
        let ghost mut starts: Seq<int> = seq![0int];
        while pos < query.len()
            invariant
                self.wf(),
                self.sealed,
                old(self).sealed,
                self.items@ == items,
                items == old(self).items@,
                self.id_size == old(self).id_size,
                n == self.id_size,
                self.frame_size_limit == old(self).frame_size_limit,
                self.is_initiator == init,
                init == old(self).is_initiator,
                self.pending_outputs@ == old(self).pending_outputs@,
                pos <= query@.len(),
                steps_ok(items, n, init, query@, steps, starts),
                starts.last() == pos,
                prev_index as int == if steps.len() == 0 {
                    0
                } else {
                    steps.last().upper
                },
                prev_index <= items.len(),
                prev_bound.wf(),
                steps.len() == 0 ==> is_zero_bound(prev_bound),
                steps.len() > 0 ==> prev_bound == steps.last().seg.0,
                last == last_in(steps),
                segments(outputs@) == outs_of(steps),
                forall|j: int| 0 <= j < outputs@.len() ==> (#[trigger] outputs@[j]).start.wf()
                    && outputs@[j].end.wf(),
                byte_views(have@) == byte_views(old(have)@) + haves_of(steps),
                byte_views(need@) == byte_views(old(need)@) + needs_of(steps),
                self.continuation_needed == continues(steps),
            decreases query@.len() - pos,
        {
            let (curr, m, body, p) = match self.read_segment(query, pos, &mut last) {
                Ok(x) => x,
                Err(e) => {
                    proof {
                        assert(refused(items, n, init, query@, e));
                    }
                    return Err(e);
                },
            };
            let upper = binary_search_upper_bound(&self.items, &curr.item);
            let lower: usize = if prev_index <= upper {
                prev_index
            } else {
                upper
            };
            let ghost out_before = outputs@;
            let ghost have_before = byte_views(have@);
            let ghost need_before = byte_views(need@);
            let ghost cont_before = self.continuation_needed;
            let ghost bv = vec_views(body@);
            if m == 1 {
                let fp = self.fingerprint_of(lower, upper);
                proof {
                    assert(bv.len() == 1);
                    assert(bv[0] == body@[0]@);
                }
                if !id_matches(&fp.buf, self.id_size, body[0].as_slice()) {
                    self.split_range(lower, upper, prev_bound, curr, &mut outputs);
                } else {
                    assert(outputs@.skip(out_before.len() as int) =~= Seq::<OutputRange>::empty());
                }
                assert(byte_views(have@).skip(have_before.len() as int) =~= Seq::<Seq<u8>>::empty());
                assert(byte_views(need@).skip(need_before.len() as int) =~= Seq::<Seq<u8>>::empty());
            } else if m == 2 {
                if self.is_initiator {
                    self.compare_id_list(lower, upper, &body, have, need);
                    assert(outputs@.skip(out_before.len() as int) =~= Seq::<OutputRange>::empty());
                    assert(byte_views(have@).skip(have_before.len() as int) =~= have_ids(
                        ids_of(items.subrange(lower as int, upper as int), n),
                        bv,
                    ));
                    assert(byte_views(need@).skip(need_before.len() as int) =~= need_ids(
                        bv,
                        ids_of(items.subrange(lower as int, upper as int), n),
                    ));
                } else {
                    self.respond_id_list(lower, upper, prev_bound, curr, &mut outputs);
                    assert(byte_views(have@).skip(have_before.len() as int) =~= Seq::<Seq<u8>>::empty());
                    assert(byte_views(need@).skip(need_before.len() as int) =~= Seq::<Seq<u8>>::empty());
                }
            } else {
                if m == 4 {
                    self.continuation_needed = true;
                }
                assert(outputs@.skip(out_before.len() as int) =~= Seq::<OutputRange>::empty());
                assert(byte_views(have@).skip(have_before.len() as int) =~= Seq::<Seq<u8>>::empty());
                assert(byte_views(need@).skip(need_before.len() as int) =~= Seq::<Seq<u8>>::empty());
            }
            let ghost step = Step {
                seg: (curr, m, bv),
                prev: prev_bound,
                lower: lower as int,
                upper: upper as int,
                out: segments(outputs@.skip(out_before.len() as int)),
                have: byte_views(have@).skip(have_before.len() as int),
                need: byte_views(need@).skip(need_before.len() as int),
            };
            proof {
                let steps2 = steps.push(step);
                let starts2 = starts.push(p as int);
                let i = steps.len() as int;
                assert(byte_views(have@) =~= have_before + step.have);
                assert(byte_views(need@) =~= need_before + step.need);
                assert(outputs@.take(out_before.len() as int) =~= out_before);
                let kk = out_before.len() as int;
                assert(outputs@ =~= outputs@.take(kk) + outputs@.skip(kk));
                assert(segments(outputs@) =~= segments(out_before) + step.out);
                assert(steps2.drop_last() =~= steps);
                assert(step_effect(items, n, init, step));
                assert forall|j: int| 0 <= j < steps2.len() implies #[trigger] step_ok(
                    items,
                    n,
                    init,
                    query@,
                    steps2,
                    starts2,
                    j,
                ) by {
                    if j < i {
                        assert(step_ok(items, n, init, query@, steps, starts, j));
                        assert(steps2[j] == steps[j]);
                        assert(starts2[j] == starts[j] && starts2[j + 1] == starts[j + 1]);
                        if j > 0 {
                            assert(steps2[j - 1] == steps[j - 1]);
                        }
                    } else {
                        assert(steps2[j] == step);
                        if j > 0 {
                            assert(steps2[j - 1] == steps.last());
                        }
                        assert(query@.skip(pos as int) == query@.skip(starts2[j]));
                    }
                }
                if m == 4 {
                    assert(steps2[i].seg.1 == 4);
                }
                if continues(steps) {
                    let x = choose|x: int| 0 <= x < steps.len() && (#[trigger] steps[x]).seg.1 == 4;
                    assert(steps2[x] == steps[x]);
                }
                if continues(steps2) {
                    let x = choose|x: int| 0 <= x < steps2.len() && (#[trigger] steps2[x]).seg.1 == 4;
                    if x < i {
                        assert(steps2[x] == steps[x]);
                    }
                }
                steps = steps2;
                starts = starts2;
            }
            prev_index = upper;
            prev_bound = curr;
            pos = p;
        }
        let ghost queued = segments(outputs@);
        outputs.append(&mut self.pending_outputs);
        self.pending_outputs = outputs;
        proof {
            assert(segments(self.pending_outputs@) =~= queued + segments(old(self).pending_outputs@));
            assert forall|j: int| 0 <= j < self.pending_outputs@.len() implies (#[trigger] self.pending_outputs@[j]).start.wf()
                && self.pending_outputs@[j].end.wf() by {
                if j >= queued.len() {
                    assert(self.pending_outputs@[j] == old(self).pending_outputs@[j - queued.len()]);
                }
            }
            assert(reconciled(
                items,
                n,
                init,
                query@,
                old(self).spec_pending(),
                self.spec_pending(),
                byte_views(old(have)@),
                byte_views(have@),
                byte_views(old(need)@),
                byte_views(need@),
                self.continuation_needed,
            ));
        }
        Ok(())
    }

    /// Appends to `outputs` the segments that describe `items[lower..upper]`
    /// between `lower_bound` and `upper_bound`.
    fn split_range(
        &self,
        lower: usize,
        upper: usize,
        lower_bound: Bound,
        upper_bound: Bound,
        outputs: &mut Vec<OutputRange>,
    )
        requires
            self.wf(),
            lower <= upper <= self.items@.len(),
            lower_bound.wf(),
            upper_bound.wf(),
        ensures
            final(outputs)@.len() >= old(outputs)@.len(),
            final(outputs)@.take(old(outputs)@.len() as int) == old(outputs)@,
            split_ok(
                self.items@,
                lower as int,
                upper as int,
                lower_bound,
                upper_bound,
                self.id_size as nat,
                segments(final(outputs)@.skip(old(outputs)@.len() as int)),
            ),
            forall|i: int|
                0 <= i < final(outputs)@.len() && !(0 <= i < old(outputs)@.len()) ==> (
                #[trigger] final(outputs)@[i]).start.wf() && final(outputs)@[i].end.wf(),
    {
        let ghost items = self.items@;
        let ghost base = old(outputs)@.len() as int;
        let ghost id_size = self.id_size as nat;
        let num_elems: usize = upper - lower;
        if num_elems < DOUBLE_BUCKETS {
            let mut payload: Vec<u8> = Vec::new();
            push_var_int(&mut payload, Mode::IdList.as_u64());
            push_var_int(&mut payload, num_elems as u64);
            let mut i: usize = lower;
            while i < upper
                invariant
                    lower <= i <= upper <= items.len(),
                    items == self.items@,
                    id_size == self.id_size,
                    self.id_size <= 32,
                    payload@ == varint(2) + varint(num_elems as nat) + ids_bytes(
                        items.subrange(lower as int, i as int),
                        id_size,
                    ),
                decreases upper - i,
            {
                push_id_prefix(&mut payload, &self.items[i].id, self.id_size);
                proof {
                    let s = items.subrange(lower as int, i + 1);
                    assert(s.drop_last() =~= items.subrange(lower as int, i as int));
                    assert(s.last() == items[i as int]);
                }
                i = i + 1;
            }
            outputs.push(OutputRange { start: lower_bound, end: upper_bound, payload });
            proof {
                assert(segments(outputs@.skip(base)) =~= seq![
                    (lower_bound, upper_bound, id_list_payload(items.subrange(lower as int, upper as int), id_size)),
                ]);
                assert(outputs@.take(base) =~= old(outputs)@);
            }
        } else {
            let items_per_bucket: usize = num_elems / BUCKETS;
            let buckets_with_extra: usize = num_elems % BUCKETS;
            let mut curr: usize = lower;
            let mut prev_bound: Bound = lower_bound;
            let mut i: usize = 0;
            proof {
                lemma_bucket_step(lower as int, num_elems as int, 0);
            }
            while i < BUCKETS
                invariant
                    0 <= i <= 16,
                    num_elems == upper - lower >= 32,
                    items_per_bucket == num_elems / 16,
                    buckets_with_extra == num_elems % 16,
                    upper <= items.len(),
                    items == self.items@,
                    id_size == self.id_size,
                    self.wf(),
                    lower_bound.wf(),
                    upper_bound.wf(),
                    prev_bound.wf(),
                    curr == bucket_start(lower as int, num_elems as int, i as int),
                    outputs@.len() == base + i,
                    base == old(outputs)@.len(),
                    outputs@.take(base) == old(outputs)@,
                    i == 0 ==> prev_bound == lower_bound,
                    i > 0 ==> prev_bound == outputs@[base + i - 1].end,
                    forall|j: int|
                        0 <= j < i ==> bucket_ok(
                            items,
                            lower as int,
                            upper as int,
                            lower_bound,
                            upper_bound,
                            id_size,
                            segments(outputs@.skip(base)),
                            j,
                        ),
                    forall|j: int|
                        base <= j < outputs@.len() ==> (#[trigger] outputs@[j]).start.wf()
                            && outputs@[j].end.wf(),
                decreases 16 - i,
            {
                proof {
                    lemma_bucket_step(lower as int, num_elems as int, i as int);
                }
                let bucket_end: usize = curr + items_per_bucket + if i < buckets_with_extra {
                    1
                } else {
                    0
                };
                let ghost bstart = curr as int;
                let mut fp = Fingerprint::new();
                while curr != bucket_end
                    invariant
                        0 <= bstart <= curr <= bucket_end <= upper <= items.len(),
                        items == self.items@,
                        fp.buf@ == xor_of(items.subrange(bstart, curr as int)),
                    decreases bucket_end - curr,
                {
                    fp.add_item(&self.items[curr]);
                    proof {
                        let s = items.subrange(bstart, curr + 1);
                        assert(s.drop_last() =~= items.subrange(bstart, curr as int));
                        assert(s.last() == items[curr as int]);
                    }
                    curr = curr + 1;
                }
                let mut payload: Vec<u8> = Vec::new();
                push_var_int(&mut payload, Mode::Fingerprint.as_u64());
                push_id_prefix(&mut payload, &fp.buf, self.id_size);
                let end: Bound = if i + 1 == BUCKETS {
                    upper_bound
                } else {
                    get_minimal_bound(&self.items[curr - 1], &self.items[curr])
                };
                let ghost old_out = outputs@;
                let ghost pl = payload@;
                outputs.push(OutputRange { start: prev_bound, end, payload });
                proof {
                    assert(outputs@.len() == old_out.len() + 1);
                    assert(outputs@.subrange(0, old_out.len() as int) =~= old_out);
                    assert(outputs@[old_out.len() as int]@ == (prev_bound, end, pl));
                    let segs = segments(outputs@.skip(base));
                    let old_segs = segments(old_out.skip(base));
                    lemma_segments_skip(outputs@, base);
                    lemma_segments_skip(old_out, base);
                    assert forall|j: int| 0 <= j < i implies bucket_ok(
                        items,
                        lower as int,
                        upper as int,
                        lower_bound,
                        upper_bound,
                        id_size,
                        segs,
                        j,
                    ) by {
                        assert(outputs@.subrange(0, old_out.len() as int)[base + j] == old_out[base + j]);
                        assert(segs[j] == outputs@[base + j]@);
                        assert(old_segs[j] == old_out[base + j]@);
                        assert(segs[j] == old_segs[j]);
                        assert(bucket_ok(
                            items,
                            lower as int,
                            upper as int,
                            lower_bound,
                            upper_bound,
                            id_size,
                            old_segs,
                            j,
                        ));
                        if j > 0 {
                            assert(outputs@.subrange(0, old_out.len() as int)[base + j - 1] == old_out[base + j - 1]);
                            assert(segs[j - 1] == outputs@[base + j - 1]@);
                            assert(old_segs[j - 1] == old_out[base + j - 1]@);
                            assert(segs[j - 1] == old_segs[j - 1]);
                        }
                    }
                    assert(segs[i as int] == (prev_bound, end, pl));
                    if i > 0 {
                        assert(segs[i - 1] == outputs@[base + i - 1]@);
                    }
                    assert(bucket_ok(
                        items,
                        lower as int,
                        upper as int,
                        lower_bound,
                        upper_bound,
                        id_size,
                        segs,
                        i as int,
                    ));
                    assert(outputs@.take(base) =~= old(outputs)@);
                }
                prev_bound = end;
                i = i + 1;
            }
            proof {
                assert(segments(outputs@.skip(base)).len() == 16);
            }
        }
    }
}

} // verus!
