use vstd::arithmetic::power::pow;
use vstd::prelude::*;

use crate::error::Error;
use crate::types::{Bound, ID_CAPACITY};

verus! {

/// `2^57`: an accumulator below it can take another 7-bit group without
/// losing bits.
pub const SHIFT_LIMIT: u64 = 0x200_0000_0000_0000;

/// Big-endian base-128 digits of `n`, each with the continuation bit set.
pub open spec fn varint_high(n: nat) -> Seq<u8>
    decreases n,
{
    if n < 128 {
        seq![(n + 128) as u8]
    } else {
        varint_high(n / 128).push((n % 128 + 128) as u8)
    }
}

/// The varint encoding of `n`: big-endian base-128 digits, every byte but the
/// last with bit 7 set.
pub open spec fn varint(n: nat) -> Seq<u8> {
    if n < 128 {
        seq![n as u8]
    } else {
        varint_high(n / 128).push((n % 128) as u8)
    }
}

/// One decoding step: shift the 64-bit accumulator left by 7 and put the low
/// 7 bits of `b` in.
pub open spec fn varint_step(acc: u64, b: u8) -> u64 {
    ((acc % SHIFT_LIMIT) * 128 + b % 128) as u64
}

/// Decodes a varint at the start of `s` with accumulator `acc`: the value and
/// the number of bytes read, or `None` where `s` ends inside the varint.
pub open spec fn varint_from(s: Seq<u8>, acc: u64) -> Option<(u64, nat)>
    decreases s.len(),
{
    if s.len() == 0 {
        None
    } else {
        let a = varint_step(acc, s[0]);
        if s[0] < 128 {
            Some((a, 1nat))
        } else {
            match varint_from(s.drop_first(), a) {
                Some((v, k)) => Some((v, k + 1)),
                None => None,
            }
        }
    }
}

/// The varint at the start of `s`, with the number of bytes it takes.
pub open spec fn decode_varint(s: Seq<u8>) -> Option<(u64, nat)> {
    varint_from(s, 0)
}

fn push_var_int_high(out: &mut Vec<u8>, n: u64)
    ensures
        final(out)@ == old(out)@ + varint_high(n as nat),
    decreases n,
{
    if n >= 128 {
        push_var_int_high(out, n / 128);
    }
    out.push((n % 128 + 128) as u8);
    proof {
        assert(final(out)@ =~= old(out)@ + varint_high(n as nat));
    }
}

/// Appends the varint encoding of `n` to `out`.
pub fn push_var_int(out: &mut Vec<u8>, n: u64)
    ensures
        final(out)@ == old(out)@ + varint(n as nat),
{
    if n >= 128 {
        push_var_int_high(out, n / 128);
    }
    out.push((n % 128) as u8);
    proof {
        assert(final(out)@ =~= old(out)@ + varint(n as nat));
    }
}

/// The varint encoding of `n`.
pub fn encode_var_int(n: u64) -> (r: Vec<u8>)
    ensures
        r@ == varint(n as nat),
{
    let mut out: Vec<u8> = Vec::new();
    push_var_int(&mut out, n);
    proof {
        assert(out@ =~= varint(n as nat));
    }
    out
}

/// Reads the varint that starts at `pos` in `buf`: its value and the position
/// after it. Fails with `PrematureEndOfVarInt` where `buf` ends first.
pub fn decode_var_int(buf: &[u8], pos: usize) -> (r: Result<(u64, usize), Error>)
    requires
        pos <= buf@.len(),
    ensures
        match r {
            Ok((v, p)) => pos < p <= buf@.len() && decode_varint(buf@.subrange(pos as int, buf@.len() as int))
                == Some((v, (p - pos) as nat)),
            Err(e) => e == Error::PrematureEndOfVarInt && decode_varint(
                buf@.subrange(pos as int, buf@.len() as int),
            ) is None,
        },
{
    let ghost s = buf@;
    let mut i: usize = pos;
    let mut acc: u64 = 0;
    while i < buf.len()
        invariant
            pos <= i <= s.len(),
            s == buf@,
            decode_varint(s.subrange(pos as int, s.len() as int)) == match varint_from(
                s.subrange(i as int, s.len() as int),
                acc,
            ) {
                Some((v, k)) => Some((v, k + (i - pos) as nat)),
                None => None,
            },
        decreases s.len() - i,
    {
        let b = buf[i];
        proof {
            assert(s.subrange(i as int, s.len() as int)[0] == b);
            assert(s.subrange(i as int, s.len() as int).drop_first() =~= s.subrange(
                i + 1,
                s.len() as int,
            ));
        }
        acc = (acc % SHIFT_LIMIT) * 128 + (b % 128) as u64;
        i = i + 1;
        if b < 128 {
            return Ok((acc, i));
        }
    }
    proof {
        assert(s.subrange(i as int, s.len() as int).len() == 0);
    }
    Err(Error::PrematureEndOfVarInt)
}

proof fn lemma_high_decode(m: nat, t: Seq<u8>, acc: u64)
    requires
        acc * pow(128, varint_high(m).len()) + m < SHIFT_LIMIT,
    ensures
        varint_from(varint_high(m) + t, acc) == match varint_from(
            t,
            (acc * pow(128, varint_high(m).len()) + m) as u64,
        ) {
            Some((v, k)) => Some((v, k + varint_high(m).len())),
            None => None,
        },
    decreases m,
{
    let len = varint_high(m).len();
    reveal_with_fuel(pow, 2);
    if m < 128 {
        let s = varint_high(m) + t;
        assert(s[0] == (m + 128) as u8);
        assert(s.drop_first() =~= t);
        assert(acc < SHIFT_LIMIT) by (nonlinear_arith)
            requires acc * 128 + m < SHIFT_LIMIT;
    } else {
        let d = (m % 128 + 128) as u8;
        let lo = varint_high(m / 128);
        let t2 = seq![d] + t;
        assert(varint_high(m) + t =~= lo + t2);
        assert(len == lo.len() + 1);
        assert(pow(128, len) == 128 * pow(128, lo.len()));
        let p = pow(128, lo.len());
        vstd::arithmetic::power::lemma_pow_positive(128, lo.len());
        let a1 = acc * p + m / 128;
        assert(a1 * 128 + m % 128 == acc * (128 * p) + m) by (nonlinear_arith)
            requires a1 == acc * p + m / 128, m == (m / 128) * 128 + m % 128;
        assert(a1 < SHIFT_LIMIT) by (nonlinear_arith)
            requires a1 * 128 + m % 128 < SHIFT_LIMIT, m % 128 >= 0;
        lemma_high_decode(m / 128, t2, acc);
        assert(t2[0] == d);
        assert(t2.drop_first() =~= t);
        assert(varint_step(a1 as u64, d) == (acc * pow(128, len) + m) as u64);
    }
}

/// Decoding the encoding of any 64-bit `n`, whatever follows it, gives `n`
/// back and reads exactly the encoding.
pub proof fn lemma_varint_round_trip(n: u64, rest: Seq<u8>)
    ensures
        decode_varint(varint(n as nat) + rest) == Some((n, varint(n as nat).len())),
{
    if n < 128 {
        let s = varint(n as nat) + rest;
        assert(s[0] == n as u8);
    } else {
        let hi = varint_high((n / 128) as nat);
        let t = seq![(n % 128) as u8] + rest;
        assert(varint(n as nat) + rest =~= hi + t);
        vstd::arithmetic::power::lemma_pow_positive(128, hi.len());
        assert(0 * pow(128, hi.len()) == 0);
        lemma_high_decode((n / 128) as nat, t, 0);
        assert(t[0] == (n % 128) as u8);
    }
}

proof fn lemma_high_len(m: nat)
    ensures
        m < pow(128, varint_high(m).len()),
        pow(128, (varint_high(m).len() - 1) as nat) <= m || m == 0,
        varint_high(m).len() >= 1,
    decreases m,
{
    reveal_with_fuel(pow, 2);
    if m >= 128 {
        lemma_high_len(m / 128);
        let l = varint_high(m / 128).len();
        assert(varint_high(m).len() == l + 1);
        assert(pow(128, l + 1) == 128 * pow(128, l));
        assert(pow(128, l) == 128 * pow(128, (l - 1) as nat));
        let q = m / 128;
        assert(m < 128 * pow(128, l)) by (nonlinear_arith)
            requires q < pow(128, l), m == q * 128 + m % 128, m % 128 < 128;
        assert(128 * pow(128, (l - 1) as nat) <= m) by (nonlinear_arith)
            requires pow(128, (l - 1) as nat) <= q || q == 0, m == q * 128 + m % 128, q >= 1, m % 128 >= 0, l >= 1, pow(128, (l - 1) as nat) >= 1;
    }
}

/// The encoding of `n` takes one byte per base-128 digit of `n`: the least
/// `len` with `n < 128^len`, and one byte for zero.
pub proof fn lemma_varint_len(n: u64)
    ensures
        n < pow(128, varint(n as nat).len()),
        n > 0 ==> pow(128, (varint(n as nat).len() - 1) as nat) <= n,
        n == 0 ==> varint(n as nat).len() == 1,
{
    reveal_with_fuel(pow, 2);
    if n >= 128 {
        let q = (n / 128) as nat;
        lemma_high_len(q);
        let l = varint_high(q).len();
        assert(varint(n as nat).len() == l + 1);
        assert(pow(128, l + 1) == 128 * pow(128, l));
        assert(pow(128, l) == 128 * pow(128, (l - 1) as nat));
        vstd::arithmetic::power::lemma_pow_positive(128, (l - 1) as nat);
        assert(n < 128 * pow(128, l)) by (nonlinear_arith)
            requires q < pow(128, l), n == q * 128 + n % 128, n % 128 < 128;
        assert(128 * pow(128, (l - 1) as nat) <= n) by (nonlinear_arith)
            requires pow(128, (l - 1) as nat) <= q || q == 0, n == q * 128 + n % 128, q >= 1, n % 128 >= 0, pow(128, (l - 1) as nat) >= 1;
    }
}

/// The largest timestamp; it also stands for "the end of the universe".
pub const MAX_U64: u64 = 0xffff_ffff_ffff_ffff;

/// The varint value that carries timestamp `t` after the previously sent
/// timestamp `last`: `0` for `MAX_U64`, else the saturated difference plus one.
pub open spec fn timestamp_out(t: u64, last: u64) -> u64 {
    if t == MAX_U64 {
        0
    } else if t >= last {
        ((t - last) + 1) as u64
    } else {
        1
    }
}

/// The timestamp that varint value `v` carries after the previously received
/// timestamp `last`: `MAX_U64` for `0`, else `last + v - 1`, saturated.
pub open spec fn timestamp_in(v: u64, last: u64) -> u64 {
    if v == 0 || (v - 1) + last > MAX_U64 {
        MAX_U64
    } else {
        ((v - 1) + last) as u64
    }
}

/// The varint values that carry the timestamps `ts`, starting after `last`.
pub open spec fn timestamps_out(ts: Seq<u64>, last: u64) -> Seq<u64>
    decreases ts.len(),
{
    if ts.len() == 0 {
        Seq::empty()
    } else {
        seq![timestamp_out(ts[0], last)] + timestamps_out(ts.drop_first(), ts[0])
    }
}

/// The timestamps that the varint values `vs` carry, starting after `last`.
pub open spec fn timestamps_in(vs: Seq<u64>, last: u64) -> Seq<u64>
    decreases vs.len(),
{
    if vs.len() == 0 {
        Seq::empty()
    } else {
        let t = timestamp_in(vs[0], last);
        seq![t] + timestamps_in(vs.drop_first(), t)
    }
}

/// Sending a non-decreasing run of timestamps (the order in which bounds go
/// out) and reading it back gives the same run; `MAX_U64` travels as `0`.
pub proof fn lemma_timestamps_round_trip(ts: Seq<u64>, last: u64)
    requires
        forall|i: int, j: int| 0 <= i < j < ts.len() ==> ts[i] <= ts[j],
        ts.len() > 0 ==> last <= ts[0],
    ensures
        timestamps_out(ts, last).len() == ts.len(),
        timestamps_in(timestamps_out(ts, last), last) == ts,
        forall|i: int| 0 <= i < ts.len() ==> (timestamps_out(ts, last)[i] == 0 <==> ts[i] == MAX_U64),
    decreases ts.len(),
{
    if ts.len() > 0 {
        let rest = ts.drop_first();
        assert forall|i: int, j: int| 0 <= i < j < rest.len() implies rest[i] <= rest[j] by {
            assert(rest[i] == ts[i + 1] && rest[j] == ts[j + 1]);
        }
        if rest.len() > 0 {
            assert(rest[0] == ts[1]);
        }
        lemma_timestamps_round_trip(rest, ts[0]);
        let out = timestamps_out(ts, last);
        assert(out.drop_first() =~= timestamps_out(rest, ts[0]));
        assert(timestamp_in(out[0], last) == ts[0]);
        assert(timestamps_in(out, last) =~= ts);
        assert forall|i: int| 0 <= i < ts.len() implies (out[i] == 0 <==> ts[i] == MAX_U64) by {
            if i > 0 {
                assert(out[i] == timestamps_out(rest, ts[0])[i - 1]);
                assert(rest[i - 1] == ts[i]);
            }
        }
    }
}

/// Appends the varint that carries timestamp `t` after `*last`, and makes `t`
/// the last timestamp sent.
pub fn push_timestamp_out(out: &mut Vec<u8>, t: u64, last: &mut u64)
    ensures
        final(out)@ == old(out)@ + varint(timestamp_out(t, *old(last)) as nat),
        *final(last) == t,
{
    let v: u64 = if t == MAX_U64 {
        0
    } else {
        t.saturating_sub(*last) + 1
    };
    *last = t;
    push_var_int(out, v);
}

/// Reads the timestamp whose varint starts at `pos`, after `*last`, and makes
/// it the last timestamp received.
pub fn decode_timestamp_in(buf: &[u8], pos: usize, last: &mut u64) -> (r: Result<(u64, usize), Error>)
    requires
        pos <= buf@.len(),
    ensures
        match r {
            Ok((t, p)) => exists|v: u64|
                decode_varint(buf@.subrange(pos as int, buf@.len() as int)) == Some(
                    (v, (p - pos) as nat),
                ) && t == timestamp_in(v, *old(last)) && *final(last) == t && pos < p <= buf@.len(),
            Err(e) => e == Error::PrematureEndOfVarInt && decode_varint(
                buf@.subrange(pos as int, buf@.len() as int),
            ) is None && *final(last) == *old(last),
        },
{
    let (v, p) = decode_var_int(buf, pos)?;
    let t: u64 = if v == 0 {
        MAX_U64
    } else {
        (v - 1).saturating_add(*last)
    };
    *last = t;
    proof {
        assert(decode_varint(buf@.subrange(pos as int, buf@.len() as int)) == Some(
            (v, (p - pos) as nat),
        ) && t == timestamp_in(v, *old(last)));
    }
    Ok((t, p))
}

/// The bytes of bound `b` sent after timestamp `last`: its timestamp, the
/// length of its id prefix, and the prefix.
pub open spec fn bound_bytes(b: Bound, last: u64) -> Seq<u8> {
    varint(timestamp_out(b.item.timestamp, last) as nat) + varint(b.id_len as nat) + b.prefix()
}

/// Reads a bound at the start of `s` after timestamp `last`: its timestamp,
/// its id prefix and the number of bytes it takes.
pub open spec fn parse_bound(s: Seq<u8>, last: u64) -> Result<(u64, Seq<u8>, nat), Error> {
    match decode_varint(s) {
        None => Err(Error::PrematureEndOfVarInt),
        Some((v, k1)) => match decode_varint(s.skip(k1 as int)) {
            None => Err(Error::PrematureEndOfVarInt),
            Some((n, k2)) => if s.len() - k1 - k2 < n {
                Err(Error::ParseEndsPrematurely)
            } else if n > ID_CAPACITY {
                Err(Error::IdTooBig)
            } else {
                Ok((timestamp_in(v, last), s.subrange((k1 + k2) as int, k1 + k2 + n), (k1 + k2 + n) as nat))
            },
        },
    }
}

/// Appends bound `b` after timestamp `*last`, which becomes `b`'s.
pub fn push_bound(out: &mut Vec<u8>, b: &Bound, last: &mut u64)
    requires
        b.wf(),
    ensures
        final(out)@ == old(out)@ + bound_bytes(*b, *old(last)),
        *final(last) == b.item.timestamp,
{
    let ghost start = out@;
    push_timestamp_out(out, b.item.timestamp, last);
    push_var_int(out, b.id_len as u64);
    crate::types::push_id_prefix(out, &b.item.id, b.id_len);
    assert(out@ =~= start + bound_bytes(*b, *old(last)));
}

/// Copies `n` bytes at `pos`; `ParseEndsPrematurely` where fewer are left.
pub fn get_bytes(buf: &[u8], pos: usize, n: u64) -> (r: Result<(Vec<u8>, usize), Error>)
    requires
        pos <= buf@.len(),
    ensures
        match r {
            Ok((v, p)) => buf@.len() - pos >= n && p == pos + n && v@ == buf@.subrange(
                pos as int,
                p as int,
            ),
            Err(e) => e == Error::ParseEndsPrematurely && buf@.len() - pos < n,
        },
{
    if ((buf.len() - pos) as u64) < n {
        return Err(Error::ParseEndsPrematurely);
    }
    let end: usize = pos + n as usize;
    let mut v: Vec<u8> = Vec::new();
    let mut i: usize = pos;
    while i < end
        invariant
            pos <= i <= end <= buf@.len(),
            v@ == buf@.subrange(pos as int, i as int),
        decreases end - i,
    {
        v.push(buf[i]);
        i = i + 1;
        assert(v@ =~= buf@.subrange(pos as int, i as int));
    }
    Ok((v, end))
}

/// Reads the bound at `pos` after timestamp `*last`, which becomes the
/// bound's timestamp; the position after it comes back too.
pub fn decode_bound(buf: &[u8], pos: usize, last: &mut u64) -> (r: Result<(Bound, usize), Error>)
    requires
        pos <= buf@.len(),
    ensures
        match r {
            Ok((b, p)) => b.wf() && pos < p <= buf@.len() && parse_bound(buf@.skip(pos as int), *old(last))
                == Ok::<(u64, Seq<u8>, nat), Error>((b.item.timestamp, b.prefix(), (p - pos) as nat))
                && *final(last) == b.item.timestamp,
            Err(e) => parse_bound(buf@.skip(pos as int), *old(last)) == Err::<
                (u64, Seq<u8>, nat),
                Error,
            >(e),
        },
{
    let ghost s = buf@.skip(pos as int);
    assert(s =~= buf@.subrange(pos as int, buf@.len() as int));
    let (t, p1) = match decode_timestamp_in(buf, pos, last) {
        Ok(x) => x,
        Err(e) => return Err(e),
    };
    let ghost k1 = (p1 - pos) as nat;
    assert(s.skip(k1 as int) =~= buf@.subrange(p1 as int, buf@.len() as int));
    let ghost v = choose|v: u64|
        decode_varint(buf@.subrange(pos as int, buf@.len() as int)) == Some((v, k1)) && t
            == timestamp_in(v, *old(last));
    assert(decode_varint(s) == Some((v, k1)));
    let (n, p2) = match decode_var_int(buf, p1) {
        Ok(x) => x,
        Err(e) => return Err(e),
    };
    let (id, p3) = match get_bytes(buf, p2, n) {
        Ok(x) => x,
        Err(e) => return Err(e),
    };
    assert(id@.len() == n);
    assert(s.subrange(p2 - pos, p3 - pos) =~= id@);
    match Bound::with_timestamp_and_id(t, id.as_slice()) {
        Ok(b) => Ok((b, p3)),
        Err(e) => Err(e),
    }
}

} // verus!
