use vstd::prelude::*;

verus! {

use crate::{key_le, sorted_events, ts_all_fit, fits_width, Error, TimestampWidth};
use crate::state::{key_le_exec, AggregateWindowFunnelState};

/// Powers of 256: the value bound of a little-endian byte string.
pub open spec fn pow256(k: nat) -> nat
    decreases k,
{
    if k == 0 {
        1
    } else {
        256 * pow256((k - 1) as nat)
    }
}

/// Powers of 128: the value bound of a variable-length integer prefix.
pub open spec fn pow128(k: nat) -> nat
    decreases k,
{
    if k == 0 {
        1
    } else {
        128 * pow128((k - 1) as nat)
    }
}

/// How many bytes the wire encoding spends on one timestamp of this width.
pub open spec fn ts_bytes(w: TimestampWidth) -> nat {
    match w {
        TimestampWidth::W8 => 1,
        TimestampWidth::W16 => 2,
        TimestampWidth::W32 => 4,
        TimestampWidth::W64 => 8,
    }
}

pub fn ts_bytes_exec(w: TimestampWidth) -> (r: usize)
    ensures
        r as nat == ts_bytes(w),
        1 <= r <= 8,
{
    match w {
        TimestampWidth::W8 => 1,
        TimestampWidth::W16 => 2,
        TimestampWidth::W32 => 4,
        TimestampWidth::W64 => 8,
    }
}

/// A value fits its width exactly when it is below the byte-string bound.
pub proof fn lemma_fits_width_pow256(w: TimestampWidth, t: u64)
    ensures
        fits_width(w, t) <==> (t as nat) < pow256(ts_bytes(w)),
{
    assert(pow256(0) == 1);
    assert(pow256(1) == 256);
    assert(pow256(2) == 0x1_0000);
    assert(pow256(3) == 0x100_0000);
    assert(pow256(4) == 0x1_0000_0000);
    assert(pow256(5) == 0x100_0000_0000);
    assert(pow256(6) == 0x1_0000_0000_0000);
    assert(pow256(7) == 0x100_0000_0000_0000);
    assert(pow256(8) == 0x1_0000_0000_0000_0000);
}

/// The little-endian byte string of `t`, `k` bytes long (low byte first).
pub open spec fn le_bytes(t: nat, k: nat) -> Seq<u8>
    decreases k,
{
    if k == 0 {
        Seq::empty()
    } else {
        seq![(t % 256) as u8] + le_bytes(t / 256, (k - 1) as nat)
    }
}

/// The value of a little-endian byte string.
pub open spec fn le_val(s: Seq<u8>) -> nat
    decreases s.len(),
{
    if s.len() == 0 {
        0
    } else {
        s[0] as nat + 256 * le_val(s.drop_first())
    }
}

pub proof fn lemma_le_bytes_len(t: nat, k: nat)
    ensures
        le_bytes(t, k).len() == k,
    decreases k,
{
    if k > 0 {
        lemma_le_bytes_len(t / 256, (k - 1) as nat);
    }
}

/// Appending one byte raises the value by that byte times the current bound.
pub proof fn lemma_le_val_snoc(s: Seq<u8>, b: u8)
    ensures
        le_val(s + seq![b]) == le_val(s) + pow256(s.len()) * b,
    decreases s.len(),
{
    assert(pow256(0) == 1);
    if s.len() == 0 {
        assert(s + seq![b] =~= seq![b]);
        assert(le_val(seq![b]) == b as nat + 256 * le_val(seq![b].drop_first()));
        assert(seq![b].drop_first() =~= Seq::<u8>::empty());
    } else {
        assert((s + seq![b]).drop_first() =~= s.drop_first() + seq![b]);
        lemma_le_val_snoc(s.drop_first(), b);
        assert((s + seq![b])[0] == s[0]);
        assert(le_val(s + seq![b]) == s[0] as nat + 256 * (le_val(s.drop_first()) + pow256(
            (s.len() - 1) as nat,
        ) * b));
        assert(256 * (le_val(s.drop_first()) + pow256((s.len() - 1) as nat) * b) == 256 * le_val(
            s.drop_first(),
        ) + 256 * pow256((s.len() - 1) as nat) * b) by (nonlinear_arith);
        assert(pow256(s.len()) == 256 * pow256((s.len() - 1) as nat));
    }
}

/// Decoding the little-endian bytes of an in-range value gives it back.
pub proof fn lemma_le_roundtrip(t: nat, k: nat)
    requires
        t < pow256(k),
    ensures
        le_val(le_bytes(t, k)) == t,
    decreases k,
{
    if k == 0 {
    } else {
        assert(t / 256 < pow256((k - 1) as nat)) by (nonlinear_arith)
            requires
                t < 256 * pow256((k - 1) as nat),
        ;
        lemma_le_roundtrip(t / 256, (k - 1) as nat);
        assert(le_bytes(t, k).drop_first() =~= le_bytes(t / 256, (k - 1) as nat));
        assert(le_bytes(t, k)[0] == (t % 256) as u8);
        assert(le_val(le_bytes(t, k)) == t % 256 + 256 * (t / 256));
    }
}

/// The variable-length encoding of an unsigned integer: seven bits per byte,
/// low group first, the high bit of a byte marking a continuation. A `u64`
/// value occupies at most ten bytes.
pub open spec fn uvarint_enc(n: nat) -> Seq<u8>
    decreases n,
{
    if n < 128 {
        seq![n as u8]
    } else {
        seq![((n % 128) + 128) as u8] + uvarint_enc(n / 128)
    }
}

/// The decoder for the variable-length encoding; `fuel` caps the number of
/// bytes a single integer may occupy.
pub open spec fn uvarint_dec(s: Seq<u8>, fuel: nat) -> Option<(nat, nat)>
    decreases fuel,
{
    if fuel == 0 || s.len() == 0 {
        None
    } else if s[0] < 128 {
        Some((s[0] as nat, 1))
    } else {
        match uvarint_dec(s.drop_first(), (fuel - 1) as nat) {
            None => None,
            Some(p) => Some((((s[0] as int - 128) + 128 * (p.0 as int)) as nat, p.1 + 1)),
        }
    }
}

/// An encoded value below `pow128(k)` occupies at most `k` bytes.
pub proof fn lemma_uvarint_enc_len(n: nat, k: nat)
    requires
        k >= 1,
        n < pow128(k),
    ensures
        1 <= uvarint_enc(n).len() <= k,
    decreases k,
{
    if n < 128 {
    } else {
        assert(k >= 2) by {
            assert(pow128(0) == 1);
            assert(pow128(1) == 128);
        }
        assert(n / 128 < pow128((k - 1) as nat)) by (nonlinear_arith)
            requires
                n < 128 * pow128((k - 1) as nat),
        ;
        lemma_uvarint_enc_len(n / 128, (k - 1) as nat);
    }
}

/// Decoding an encoded value followed by anything gives the value back, with
/// the encoding's length consumed.
pub proof fn lemma_uvarint_roundtrip(n: nat, rest: Seq<u8>, fuel: nat)
    requires
        fuel >= uvarint_enc(n).len(),
    ensures
        uvarint_dec(uvarint_enc(n) + rest, fuel) == Some((n, uvarint_enc(n).len() as nat)),
    decreases n,
{
    let s = uvarint_enc(n) + rest;
    if n < 128 {
        assert(s[0] == n as u8);
    } else {
        assert(s[0] == ((n % 128) + 128) as u8);
        assert(s[0] >= 128);
        assert(s.drop_first() =~= uvarint_enc(n / 128) + rest);
        lemma_uvarint_roundtrip(n / 128, rest, (fuel - 1) as nat);
        assert(uvarint_dec(s, fuel) == Some::<(nat, nat)>(
            (((s[0] as int - 128) + 128 * (n / 128)) as nat, uvarint_enc(n / 128).len() + 1),
        ));
        assert((n % 128) + 128 * (n / 128) == n);
    }
}

/// The wire bytes of one event: the timestamp in the configured width, low
/// byte first, then the stage as one byte.
pub open spec fn enc_event(e: (u64, u8), w: TimestampWidth) -> Seq<u8> {
    le_bytes(e.0 as nat, ts_bytes(w)) + seq![e.1]
}

/// The wire bytes of an event sequence, in order.
pub open spec fn enc_events(s: Seq<(u64, u8)>, w: TimestampWidth) -> Seq<u8>
    decreases s.len(),
{
    if s.len() == 0 {
        Seq::empty()
    } else {
        enc_events(s.drop_last(), w) + enc_event(s.last(), w)
    }
}

/// The wire bytes of a whole state: the sorted flag as one byte, the event
/// count as a variable-length integer, then the events.
pub open spec fn enc_state(ev: Seq<(u64, u8)>, sorted: bool, w: TimestampWidth) -> Seq<u8> {
    seq![if sorted { 1u8 } else { 0u8 }] + uvarint_enc(ev.len()) + enc_events(ev, w)
}

/// Decoding one event from the front of a byte string.
pub open spec fn dec_event(s: Seq<u8>, w: TimestampWidth) -> Option<((u64, u8), nat)> {
    if s.len() < ts_bytes(w) + 1 {
        None
    } else {
        Some(
            (
                (le_val(s.take(ts_bytes(w) as int)) as u64, s[ts_bytes(w) as int]),
                ts_bytes(w) + 1,
            ),
        )
    }
}

/// Decoding `count` events from the front of a byte string.
pub open spec fn dec_events(s: Seq<u8>, w: TimestampWidth, count: nat) -> Option<
    (Seq<(u64, u8)>, nat),
>
    decreases count,
{
    if count == 0 {
        Some((Seq::empty(), 0))
    } else {
        match dec_event(s, w) {
            None => None,
            Some(e) => match dec_events(s.skip(e.1 as int), w, (count - 1) as nat) {
                None => None,
                Some(rest) => Some((seq![e.0] + rest.0, e.1 + rest.1)),
            },
        }
    }
}

/// Decoding a whole state: `None` on a truncated or inconsistent byte string.
pub open spec fn dec_state(s: Seq<u8>, w: TimestampWidth) -> Option<(Seq<(u64, u8)>, bool, nat)> {
    if s.len() == 0 || s[0] > 1 {
        None
    } else {
        match uvarint_dec(s.skip(1), 10) {
            None => None,
            Some(c) => if c.0 >= 0x1_0000_0000_0000_0000 {
                None
            } else {
                match dec_events(s.skip(1 + c.1 as int), w, c.0) {
                    None => None,
                    Some(evs) => Some((evs.0, s[0] == 1, 1 + c.1 + evs.1)),
                }
            },
        }
    }
}

/// Event encodings decompose at the front as well.
pub proof fn lemma_enc_events_first(s: Seq<(u64, u8)>, w: TimestampWidth)
    requires
        s.len() > 0,
    ensures
        enc_events(s, w) == enc_event(s[0], w) + enc_events(s.drop_first(), w),
    decreases s.len(),
{
    if s.len() == 1 {
        assert(s.drop_last() =~= Seq::<(u64, u8)>::empty());
        assert(s.drop_first() =~= Seq::<(u64, u8)>::empty());
        assert(s.last() == s[0]);
        assert(enc_events(s, w) =~= enc_event(s[0], w) + enc_events(s.drop_first(), w));
    } else {
        lemma_enc_events_first(s.drop_last(), w);
        assert(s.drop_last().drop_first() =~= s.drop_first().drop_last());
        assert(s.drop_last()[0] == s[0]);
        assert(s.drop_first().last() == s.last());
        assert(enc_events(s, w) == enc_events(s.drop_last(), w) + enc_event(s.last(), w));
        assert(enc_events(s.drop_first(), w) == enc_events(s.drop_first().drop_last(), w)
            + enc_event(s.last(), w));
        assert(enc_events(s, w) =~= enc_event(s[0], w) + enc_events(s.drop_first(), w));
    }
}

/// Decoding encoded events followed by anything gives the events back.
pub proof fn lemma_events_roundtrip(ev: Seq<(u64, u8)>, w: TimestampWidth, rest: Seq<u8>)
    requires
        ts_all_fit(ev, w),
    ensures
        dec_events(enc_events(ev, w) + rest, w, ev.len()) == Some(
            (ev, enc_events(ev, w).len() as nat),
        ),
    decreases ev.len(),
{
    if ev.len() == 0 {
        assert(dec_events(enc_events(ev, w) + rest, w, 0) == Some::<(Seq<(u64, u8)>, nat)>(
            (Seq::empty(), 0),
        ));
        assert(ev =~= Seq::<(u64, u8)>::empty());
    } else {
        let e = ev[0];
        let tail = ev.drop_first();
        lemma_enc_events_first(ev, w);
        let s = enc_events(ev, w) + rest;
        let ee = enc_event(e, w);
        assert(s =~= ee + (enc_events(tail, w) + rest));
        lemma_le_bytes_len(e.0 as nat, ts_bytes(w));
        assert(ee.len() == ts_bytes(w) + 1);
        assert(s.len() >= ts_bytes(w) + 1);
        assert(s.take(ts_bytes(w) as int) =~= le_bytes(e.0 as nat, ts_bytes(w)));
        lemma_fits_width_pow256(w, e.0);
        assert(fits_width(w, e.0));
        lemma_le_roundtrip(e.0 as nat, ts_bytes(w));
        assert(s[ts_bytes(w) as int] == e.1);
        assert(dec_event(s, w) == Some::<((u64, u8), nat)>((e, ts_bytes(w) + 1)));
        assert(s.skip((ts_bytes(w) + 1) as int) =~= enc_events(tail, w) + rest);
        assert(ts_all_fit(tail, w)) by {
            assert(forall|i: int|
                0 <= i < tail.len() ==> tail[i] == ev[i + 1] && fits_width(
                    w,
                    (#[trigger] tail[i]).0,
                ));
        }
        lemma_events_roundtrip(tail, w, rest);
        assert(seq![e] + tail =~= ev);
    }
}

/// Round trip: the decoder accepts exactly the encoder's bytes and reproduces
/// the event sequence and the recorded sorted flag, the empty state included.
pub proof fn lemma_state_roundtrip(ev: Seq<(u64, u8)>, sorted: bool, w: TimestampWidth)
    requires
        ts_all_fit(ev, w),
        ev.len() < 0x1_0000_0000_0000_0000,
    ensures
        dec_state(enc_state(ev, sorted, w), w) == Some(
            (ev, sorted, enc_state(ev, sorted, w).len() as nat),
        ),
{
    let s = enc_state(ev, sorted, w);
    let flag_byte = if sorted {
        1u8
    } else {
        0u8
    };
    assert(s[0] == flag_byte);
    assert(s.skip(1) =~= uvarint_enc(ev.len()) + enc_events(ev, w));
    assert(pow128(10) == 0x40_0000_0000_0000_0000) by {
        assert(pow128(0) == 1);
        assert(pow128(1) == 128);
        assert(pow128(2) == 0x4000);
        assert(pow128(3) == 0x20_0000);
        assert(pow128(4) == 0x1000_0000);
        assert(pow128(5) == 0x8_0000_0000);
        assert(pow128(6) == 0x400_0000_0000);
        assert(pow128(7) == 0x2_0000_0000_0000);
        assert(pow128(8) == 0x100_0000_0000_0000);
        assert(pow128(9) == 0x8000_0000_0000_0000);
    }
    lemma_uvarint_enc_len(ev.len(), 10);
    lemma_uvarint_roundtrip(ev.len(), enc_events(ev, w), 10);
    assert(uvarint_dec(s.skip(1), 10) == Some::<(nat, nat)>(
        (ev.len(), uvarint_enc(ev.len()).len() as nat),
    ));
    let u = uvarint_enc(ev.len()).len();
    assert(s.skip(1 + u as int) =~= enc_events(ev, w) + Seq::<u8>::empty());
    lemma_events_roundtrip(ev, w, Seq::empty());
    assert(enc_events(ev, w) + Seq::<u8>::empty() =~= enc_events(ev, w));
    assert((s[0] == 1) == sorted);
    assert(s.len() == 1 + u + enc_events(ev, w).len());
}

/// The declared byte sink the hosting framework hands to `serialize`.
#[verifier::external_type_specification]
#[verifier::external_body]
pub struct ExBytesMut(bytes::BytesMut);

/// The bytes a sink holds, in order.
pub uninterp spec fn buf_bytes(b: bytes::BytesMut) -> Seq<u8>;

/// Relies on bytes::BytesMut::extend_from_slice: it appends exactly the given
/// bytes to the buffer.
pub assume_specification[ bytes::BytesMut::extend_from_slice ](
    b: &mut bytes::BytesMut,
    extend: &[u8],
)
    ensures
        buf_bytes(*final(b)) == buf_bytes(*old(b)) + extend@,
;

/// Appends the variable-length encoding of `n`.
fn write_uvarint(out: &mut Vec<u8>, n0: u64)
    ensures
        final(out)@ == old(out)@ + uvarint_enc(n0 as nat),
{
    let mut n = n0;
    while n >= 128
        invariant
            out@ + uvarint_enc(n as nat) == old(out)@ + uvarint_enc(n0 as nat),
        decreases n,
    {
        let ghost o0 = out@;
        let b = ((n % 128) + 128) as u8;
        proof {
            assert(uvarint_enc(n as nat) == seq![b] + uvarint_enc((n as nat) / 128));
        }
        out.push(b);
        proof {
            assert(out@ + uvarint_enc((n as nat) / 128) =~= o0 + uvarint_enc(n as nat));
        }
        n = n / 128;
    }
    let ghost o0 = out@;
    out.push(n as u8);
    proof {
        assert(uvarint_enc(n as nat) == seq![n as u8]);
        assert(out@ =~= o0 + uvarint_enc(n as nat));
    }
}

/// Appends the `k`-byte little-endian encoding of `t`.
fn write_le(out: &mut Vec<u8>, t0: u64, k0: usize)
    ensures
        final(out)@ == old(out)@ + le_bytes(t0 as nat, k0 as nat),
{
    let mut t = t0;
    let mut k = k0;
    while k > 0
        invariant
            out@ + le_bytes(t as nat, k as nat) == old(out)@ + le_bytes(t0 as nat, k0 as nat),
        decreases k,
    {
        let ghost o0 = out@;
        let b = (t % 256) as u8;
        proof {
            assert(le_bytes(t as nat, k as nat) == seq![b] + le_bytes((t as nat) / 256, (k
                - 1) as nat));
        }
        out.push(b);
        proof {
            assert(out@ + le_bytes((t as nat) / 256, (k - 1) as nat) =~= o0 + le_bytes(
                t as nat,
                k as nat,
            ));
        }
        t = t / 256;
        k = k - 1;
    }
    proof {
        assert(le_bytes(t as nat, 0) =~= Seq::<u8>::empty());
        assert(out@ =~= out@ + le_bytes(t as nat, 0));
    }
}

/// Reads one variable-length integer starting at `pos`; fails on a truncated
/// buffer, an over-long prefix, or a value that does not fit in a `u64`.
fn read_uvarint(data: &[u8], pos: usize) -> (r: Result<(u64, usize), Error>)
    requires
        pos <= data@.len(),
    ensures
        (match uvarint_dec(data@.skip(pos as int), 10) {
            Some(p) => {
                if p.0 < 0x1_0000_0000_0000_0000 {
                    r matches Ok(v) && v.0 as nat == p.0 && v.1 as nat == p.1
                } else {
                    r == Err::<(u64, usize), Error>(Error::MalformedState)
                }
            },
            None => r == Err::<(u64, usize), Error>(Error::MalformedState),
        }),
        (r matches Ok(v) ==> 1 <= v.1 <= 10 && pos + v.1 <= data@.len()),
{
    let ghost s0 = data@.skip(pos as int);
    let mut i: usize = 0;
    let mut acc: u128 = 0;
    let mut mult: u128 = 1;
    loop
        invariant
            pos <= data@.len(),
            pos + i <= data@.len(),
            s0 == data@.skip(pos as int),
            i <= 10,
            mult as nat == pow128(i as nat),
            (acc as nat) < pow128(i as nat),
            (match uvarint_dec(data@.skip(pos + i as int), (10 - i) as nat) {
                Some(p) => uvarint_dec(s0, 10) == Some::<(nat, nat)>(
                    (acc as nat + (mult as nat) * p.0, i as nat + p.1),
                ),
                None => uvarint_dec(s0, 10) is None,
            }),
        decreases 10 - i,
    {
        proof {
            assert(pow128(0) == 1);
            assert(pow128(1) == 128);
            assert(pow128(2) == 0x4000);
            assert(pow128(3) == 0x20_0000);
            assert(pow128(4) == 0x1000_0000);
            assert(pow128(5) == 0x8_0000_0000);
            assert(pow128(6) == 0x400_0000_0000);
            assert(pow128(7) == 0x2_0000_0000_0000);
            assert(pow128(8) == 0x100_0000_0000_0000);
            assert(pow128(9) == 0x8000_0000_0000_0000);
            assert(pow128(10) == 0x40_0000_0000_0000_0000);
        }
        if i >= 10 {
            return Err(Error::MalformedState);
        }
        proof {
            lemma_pow128_monotone(i as nat, 9);
            assert((mult as nat) <= pow128(9));
        }
        if data.len() - pos <= i {
            proof {
                assert(data@.skip(pos + i as int).len() == 0);
            }
            return Err(Error::MalformedState);
        }
        let b = data[pos + i];
        let ghost si = data@.skip(pos + i as int);
        proof {
            assert(si.len() > 0);
            assert(si[0] == b);
        }
        if b < 128 {
            proof {
                assert((mult as nat) * (b as nat) <= 0x8000_0000_0000_0000 * 127)
                    by (nonlinear_arith)
                    requires
                        (mult as nat) <= 0x8000_0000_0000_0000,
                        b < 128,
                ;
            }
            let v = acc + mult * (b as u128);
            proof {
                assert(uvarint_dec(si, (10 - i) as nat) == Some::<(nat, nat)>((b as nat, 1)));
                assert((mult as nat) * (b as nat) <= pow128(9) * 127) by (nonlinear_arith)
                    requires
                        (mult as nat) <= pow128(9),
                        b < 128,
                ;
                assert(pow128(9) * 127 < 0x1_0000_0000_0000_0000_0000_0000_0000_0000);
                assert(acc as nat + (mult as nat) * (b as nat) == v as nat);
            }
            if v > 0xFFFF_FFFF_FFFF_FFFF {
                return Err(Error::MalformedState);
            }
            return Ok((v as u64, i + 1));
        }
        let d = (b - 128) as u128;
        proof {
            let fuel = (10 - i) as nat;
            assert(uvarint_dec(si, fuel) matches Some(p) ==> p == (
                ((si[0] as int - 128) + 128 * (uvarint_dec(si.drop_first(), (fuel - 1) as nat)
                    ->Some_0.0 as int)) as nat,
                uvarint_dec(si.drop_first(), (fuel - 1) as nat)->Some_0.1 + 1,
            ));
            assert(si.drop_first() =~= data@.skip(pos + (i + 1) as int));
            // the value decomposes through the next digit
            let rest = uvarint_dec(data@.skip(pos + (i + 1) as int), (10 - (i + 1)) as nat);
            if rest is Some {
                let p = rest->Some_0;
                assert(uvarint_dec(si, fuel) == Some::<(nat, nat)>(
                    ((d as nat) + 128 * p.0, p.1 + 1),
                ));
                assert(acc as nat + (mult as nat) * ((d as nat) + 128 * p.0) == (acc as nat + (
                mult as nat) * (d as nat)) + ((mult as nat) * 128) * p.0) by (nonlinear_arith);
            } else {
                assert(uvarint_dec(si, fuel) is None);
            }
            assert((acc as nat) + (mult as nat) * (d as nat) < pow128((i + 1) as nat))
                by (nonlinear_arith)
                requires
                    (acc as nat) < pow128(i as nat),
                    mult as nat == pow128(i as nat),
                    d < 128,
                    pow128((i + 1) as nat) == 128 * pow128(i as nat),
            ;
            assert((mult as nat) <= pow128(9));
        }
        acc = acc + mult * d;
        mult = mult * 128;
        i = i + 1;
    }
}

/// Adjacent order of every neighbouring pair gives the full pairwise order.
proof fn lemma_adjacent_sorted(s: Seq<(u64, u8)>)
    requires
        forall|i: int| 0 <= i < s.len() - 1 ==> key_le(#[trigger] s[i], s[i + 1]),
    ensures
        sorted_events(s),
{
    assert forall|i: int, j: int| 0 <= i < j < s.len() implies key_le(s[i], s[j]) by {
        lemma_key_le_chain(s, i, j);
    }
}

proof fn lemma_key_le_chain(s: Seq<(u64, u8)>, i: int, j: int)
    requires
        forall|k: int| 0 <= k < s.len() - 1 ==> key_le(#[trigger] s[k], s[k + 1]),
        0 <= i < j < s.len(),
    ensures
        key_le(s[i], s[j]),
    decreases j - i,
{
    if i + 1 < j {
        lemma_key_le_chain(s, i + 1, j);
        assert(key_le(s[i], s[i + 1]));
    } else {
        assert(key_le(s[i], s[i + 1]));
    }
}

impl AggregateWindowFunnelState {
    /// Writes the wire encoding of this state into the framework's byte sink:
    /// the sorted flag, the event count, then each event.
    pub fn serialize(&self, writer: &mut bytes::BytesMut, width: TimestampWidth) -> (r: Result<
        (),
        Error,
    >)
        requires
            self.well_formed(),
            ts_all_fit(self.events_list@, width),
        ensures
            r is Ok,
            buf_bytes(*final(writer)) == buf_bytes(*old(writer)) + enc_state(
                self.events_list@,
                self.sorted,
                width,
            ),
    {
        let mut out: Vec<u8> = Vec::new();
        let flag_byte: u8 = if self.sorted {
            1
        } else {
            0
        };
        out.push(flag_byte);
        write_uvarint(&mut out, self.events_list.len() as u64);
        let ghost hdr = seq![flag_byte] + uvarint_enc(self.events_list@.len());
        proof {
            assert(out@ =~= hdr);
        }
        let tsb = ts_bytes_exec(width);
        let ev = &self.events_list;
        let count = ev.len();
        let mut k: usize = 0;
        while k < count
            invariant
                k <= count,
                count == ev@.len(),
                ev@ == self.events_list@,
                tsb as nat == ts_bytes(width),
                tsb <= 8,
                ts_all_fit(self.events_list@, width),
                out@ == hdr + enc_events(ev@.take(k as int), width),
            decreases count - k,
        {
            let ghost o0 = out@;
            let e = ev[k];
            write_le(&mut out, e.0, tsb);
            out.push(e.1);
            proof {
                assert(out@ =~= o0 + enc_event(e, width));
                assert(ev@.take(k + 1).drop_last() =~= ev@.take(k as int));
                assert(ev@.take(k + 1).last() == e);
                assert(enc_events(ev@.take(k + 1), width) == enc_events(ev@.take(k as int), width)
                    + enc_event(e, width));
                assert(out@ =~= hdr + enc_events(ev@.take(k + 1), width));
            }
            k = k + 1;
        }
        proof {
            assert(ev@.take(count as int) =~= ev@);
            assert(out@ =~= enc_state(self.events_list@, self.sorted, width));
        }
        writer.extend_from_slice(out.as_slice());
        Ok(())
    }

    /// Reads one state from the front of `data`, returning how many bytes were
    /// consumed. Fails, leaving the state untouched, on a truncated or
    /// inconsistent byte string — including a sorted flag set on events that
    /// are not in order, which downstream resolution would otherwise trust.
    #[verifier::loop_isolation(false)]
    #[verifier::rlimit(100)]
    pub fn deserialize(&mut self, data: &[u8], width: TimestampWidth) -> (r: Result<usize, Error>)
        requires
            old(self).well_formed(),
        ensures
            final(self).well_formed(),
            (match dec_state(data@, width) {
                Some(d) => {
                    if !d.1 || sorted_events(d.0) {
                        &&& r matches Ok(u) && u as nat == d.2
                        &&& final(self).events_list@ == d.0
                        &&& final(self).sorted == d.1
                        &&& ts_all_fit(final(self).events_list@, width)
                    } else {
                        r == Err::<usize, Error>(Error::MalformedState)
                    }
                },
                None => r == Err::<usize, Error>(Error::MalformedState),
            }),
            r is Err ==> *final(self) == *old(self),
    {
        let n = data.len();
        if n == 0 {
            return Err(Error::MalformedState);
        }
        let flag_byte = data[0];
        if flag_byte > 1 {
            return Err(Error::MalformedState);
        }
        let flag = flag_byte == 1;
        let (count, used) = match read_uvarint(data, 1) {
            Ok(p) => p,
            Err(e) => {
                return Err(e);
            },
        };
        proof {
            let ud = uvarint_dec(data@.skip(1), 10);
            assert(ud is Some);
            assert(ud->Some_0.0 == count as nat);
            assert(ud->Some_0.1 == used as nat);
        }
        let mut pos: usize = 1 + used;
        let ghost pos0 = pos;
        let tsb = ts_bytes_exec(width);
        let mut events: Vec<(u64, u8)> = Vec::new();
        let mut k: u64 = 0;
        while k < count
            invariant
                n == data@.len(),
                pos0 <= pos <= n,
                k <= count,
                tsb as nat == ts_bytes(width),
                1 <= tsb <= 8,
                events@.len() == k,
                ts_all_fit(events@, width),
                (match dec_events(data@.skip(pos as int), width, (count - k) as nat) {
                    Some(d) => dec_events(data@.skip(pos0 as int), width, count as nat)
                        == Some::<(Seq<(u64, u8)>, nat)>(
                        (events@ + d.0, (pos - pos0) as nat + d.1),
                    ),
                    None => dec_events(data@.skip(pos0 as int), width, count as nat) is None,
                }),
            decreases count - k,
        {
            let ghost scur = data@.skip(pos as int);
            if n - pos < tsb + 1 {
                proof {
                    assert(scur.len() < ts_bytes(width) + 1);
                    assert(dec_event(scur, width) is None);
                    assert(dec_events(scur, width, (count - k) as nat) is None);
                    assert(dec_events(data@.skip(pos0 as int), width, count as nat) is None);
                    assert(dec_state(data@, width) is None);
                }
                return Err(Error::MalformedState);
            }
            let mut t_acc: u128 = 0;
            let mut b_i: usize = 0;
            while b_i < tsb
                invariant
                    n == data@.len(),
                    pos + tsb + 1 <= n,
                    b_i <= tsb,
                    tsb as nat == ts_bytes(width),
                    tsb <= 8,
                    t_acc as nat == le_val(data@.subrange(pos as int, pos + b_i as int)),
                    (t_acc as nat) < pow256(b_i as nat),
                decreases tsb - b_i,
            {
                let ghost prefix = data@.subrange(pos as int, pos + b_i as int);
                let b = data[pos + b_i];
                proof {
                    assert(pow256(0) == 1);
                    lemma_le_val_snoc(prefix, b);
                    assert(data@.subrange(pos as int, pos + (b_i + 1) as int) =~= prefix + seq![b]);
                    assert((t_acc as nat) + pow256(b_i as nat) * (b as nat) < pow256(
                        (b_i + 1) as nat,
                    )) by (nonlinear_arith)
                        requires
                            (t_acc as nat) < pow256(b_i as nat),
                            b < 256,
                            pow256((b_i + 1) as nat) == 256 * pow256(b_i as nat),
                    ;
                    lemma_pow256_table();
                    lemma_pow256_monotone(b_i as nat, 8);
                    assert(pow256(b_i as nat) <= pow256(8));
                }
                let m = pow256_exec(b_i);
                t_acc = t_acc + m * (b as u128);
                b_i = b_i + 1;
            }
            proof {
                lemma_pow256_table();
                lemma_pow256_monotone(tsb as nat, 8);
            }
            let t = t_acc as u64;
            let stage = data[pos + tsb];
            let ghost e = ((t, stage), (tsb + 1) as nat);
            proof {
                assert(scur.take(tsb as int) =~= data@.subrange(pos as int, pos + tsb as int));
                assert(scur[tsb as int] == stage);
                assert(dec_event(scur, width) == Some::<((u64, u8), nat)>(
                    ((t, stage), ts_bytes(width) + 1),
                ));
                lemma_fits_width_pow256(width, t);
                assert(fits_width(width, t));
            }
            let ghost prev_events = events@;
            events.push((t, stage));
            pos = pos + tsb + 1;
            k = k + 1;
            proof {
                assert(data@.skip((pos - tsb - 1) + (tsb + 1) as int) =~= data@.skip(pos as int));
                assert(scur.skip(tsb + 1 as int) =~= data@.skip(pos as int));
                assert(events@ =~= prev_events.push((t, stage)));
                assert forall|q: int| 0 <= q < events@.len() implies fits_width(
                    width,
                    (#[trigger] events@[q]).0,
                ) by {
                    if q < prev_events.len() {
                        assert(fits_width(width, prev_events[q].0));
                    }
                }
                if dec_events(data@.skip(pos as int), width, (count - k) as nat) is Some {
                    let d = dec_events(data@.skip(pos as int), width, (count - k) as nat)
                        ->Some_0;
                    assert(dec_events(scur, width, (count - (k - 1)) as nat)
                        == Some::<(Seq<(u64, u8)>, nat)>(
                        (seq![(t, stage)] + d.0, (tsb + 1) as nat + d.1),
                    ));
                    assert(prev_events + (seq![(t, stage)] + d.0) =~= events@ + d.0);
                } else {
                    assert(dec_events(scur, width, (count - (k - 1)) as nat) is None);
                }
            }
        }
        proof {
            assert(dec_events(data@.skip(pos as int), width, 0) == Some::<(Seq<(u64, u8)>, nat)>(
                (Seq::empty(), 0),
            ));
            assert(events@ + Seq::<(u64, u8)>::empty() =~= events@);
            assert(dec_events(data@.skip(pos0 as int), width, count as nat)
                == Some::<(Seq<(u64, u8)>, nat)>((events@, (pos - pos0) as nat)));
            assert(dec_state(data@, width) == Some::<(Seq<(u64, u8)>, bool, nat)>(
                (events@, flag, pos as nat),
            ));
        }
        if flag {
            let m = events.len();
            let mut q: usize = 1;
            while q < m
                invariant
                    m == events@.len(),
                    1 <= q || m == 0,
                    q <= m || (q == 1 && m == 0),
                    forall|p: int| 0 <= p < q - 1 ==> key_le(#[trigger] events@[p], events@[p + 1]),
                decreases m - q,
            {
                if !key_le_exec(events[q - 1], events[q]) {
                    proof {
                        assert(!sorted_events(events@)) by {
                            assert(!key_le(events@[q - 1], events@[q as int]));
                        }
                    }
                    return Err(Error::MalformedState);
                }
                q = q + 1;
            }
            proof {
                lemma_adjacent_sorted(events@);
            }
        }
        self.events_list = events;
        self.sorted = flag;
        Ok(pos)
    }
}

/// Powers of 128 are monotone in the exponent.
proof fn lemma_pow128_monotone(a: nat, b: nat)
    requires
        a <= b,
    ensures
        pow128(a) <= pow128(b),
    decreases b,
{
    if a < b {
        lemma_pow128_monotone(a, (b - 1) as nat);
        lemma_pow128_pos((b - 1) as nat);
        assert(pow128(b) == 128 * pow128((b - 1) as nat));
        assert(128 * pow128((b - 1) as nat) >= pow128((b - 1) as nat)) by (nonlinear_arith)
            requires
                pow128((b - 1) as nat) >= 1,
        ;
    }
}

proof fn lemma_pow128_pos(k: nat)
    ensures
        pow128(k) >= 1,
    decreases k,
{
    if k > 0 {
        lemma_pow128_pos((k - 1) as nat);
    }
}

/// The first powers of 256, spelled out.
proof fn lemma_pow256_table()
    ensures
        pow256(0) == 1,
        pow256(1) == 0x100,
        pow256(2) == 0x1_0000,
        pow256(3) == 0x100_0000,
        pow256(4) == 0x1_0000_0000,
        pow256(5) == 0x100_0000_0000,
        pow256(6) == 0x1_0000_0000_0000,
        pow256(7) == 0x100_0000_0000_0000,
        pow256(8) == 0x1_0000_0000_0000_0000,
{
    assert(pow256(0) == 1);
    assert(pow256(1) == 0x100);
    assert(pow256(2) == 0x1_0000);
    assert(pow256(3) == 0x100_0000);
    assert(pow256(4) == 0x1_0000_0000);
    assert(pow256(5) == 0x100_0000_0000);
    assert(pow256(6) == 0x1_0000_0000_0000);
    assert(pow256(7) == 0x100_0000_0000_0000);
    assert(pow256(8) == 0x1_0000_0000_0000_0000);
}

/// Powers of 256 are monotone in the exponent.
proof fn lemma_pow256_monotone(a: nat, b: nat)
    requires
        a <= b,
    ensures
        pow256(a) <= pow256(b),
    decreases b,
{
    if a < b {
        lemma_pow256_monotone(a, (b - 1) as nat);
        lemma_pow256_pos((b - 1) as nat);
        assert(pow256(b) == 256 * pow256((b - 1) as nat));
        assert(256 * pow256((b - 1) as nat) >= pow256((b - 1) as nat)) by (nonlinear_arith)
            requires
                pow256((b - 1) as nat) >= 1,
        ;
    }
}

proof fn lemma_pow256_pos(k: nat)
    ensures
        pow256(k) >= 1,
    decreases k,
{
    if k > 0 {
        lemma_pow256_pos((k - 1) as nat);
    }
}

/// The first eight powers of 256, as a table.
fn pow256_exec(k: usize) -> (r: u128)
    requires
        k <= 7,
    ensures
        r as nat == pow256(k as nat),
{
    proof {
        assert(pow256(0) == 1);
        assert(pow256(1) == 0x100);
        assert(pow256(2) == 0x1_0000);
        assert(pow256(3) == 0x100_0000);
        assert(pow256(4) == 0x1_0000_0000);
        assert(pow256(5) == 0x100_0000_0000);
        assert(pow256(6) == 0x1_0000_0000_0000);
        assert(pow256(7) == 0x100_0000_0000_0000);
    }
    if k == 0 {
        1
    } else if k == 1 {
        0x100
    } else if k == 2 {
        0x1_0000
    } else if k == 3 {
        0x100_0000
    } else if k == 4 {
        0x1_0000_0000
    } else if k == 5 {
        0x100_0000_0000
    } else if k == 6 {
        0x1_0000_0000_0000
    } else {
        0x100_0000_0000_0000
    }
}

} // verus!
