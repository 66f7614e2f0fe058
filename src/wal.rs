use vstd::prelude::*;
use vstd::arithmetic::div_mod::{lemma_div_denominator, lemma_mod_breakdown};

verus! {

/// The number that little-endian bytes denote.
pub open spec fn le_value(b: Seq<u8>) -> nat
    decreases b.len(),
{
    if b.len() == 0 {
        0
    } else {
        b[0] as nat + 256 * le_value(b.drop_first())
    }
}

/// The `k` low little-endian bytes of `n`.
pub open spec fn le_bytes(n: nat, k: nat) -> Seq<u8> {
    Seq::new(k, |i: int| ((n / pow256(i as nat)) % 256) as u8)
}

/// The eight little-endian bytes of `n`.
pub open spec fn le8(n: nat) -> Seq<u8> {
    le_bytes(n, 8)
}

pub open spec fn pow256(i: nat) -> nat
    decreases i,
{
    if i == 0 { 1 } else { 256 * pow256((i - 1) as nat) }
}

/// The frames at the start of a log: each is an eight-byte little-endian
/// length and that many bytes of payload. The flag says whether the log
/// ends cleanly (`false`: a truncated frame ends it).
pub open spec fn frames_spec(buf: Seq<u8>) -> (Seq<Seq<u8>>, bool)
    decreases buf.len(),
{
    if buf.len() == 0 {
        (Seq::empty(), true)
    } else if buf.len() < 8 {
        (Seq::empty(), false)
    } else {
        let n = le_value(buf.subrange(0, 8)) as int;
        if 8 + n > buf.len() {
            (Seq::empty(), false)
        } else {
            let rest = frames_spec(buf.subrange(8 + n, buf.len() as int));
            (seq![buf.subrange(8, 8 + n)] + rest.0, rest.1)
        }
    }
}

proof fn lemma_le_value_bound(b: Seq<u8>)
    ensures
        le_value(b) < pow256(b.len()),
    decreases b.len(),
{
    if b.len() > 0 {
        lemma_le_value_bound(b.drop_first());
        assert(b[0] as nat + 256 * le_value(b.drop_first()) < 256 * pow256((b.len() - 1) as nat)) by (nonlinear_arith)
            requires
                b[0] < 256,
                le_value(b.drop_first()) < pow256((b.len() - 1) as nat),
        ;
    }
}

proof fn lemma_pow256_8()
    ensures
        pow256(8) == 18446744073709551616,
{
    reveal_with_fuel(pow256, 9);
}

/// Reads eight little-endian bytes at `at`.
fn read_le8(buf: &Vec<u8>, at: usize) -> (r: u64)
    requires
        at + 8 <= buf@.len(),
    ensures
        r as nat == le_value(buf@.subrange(at as int, at + 8)),
{
    let ghost b = buf@.subrange(at as int, at + 8);
    let total = buf.len();
    let mut v: u64 = 0;
    let mut k: usize = 8;
    proof {
        assert(b.subrange(8, 8) =~= Seq::<u8>::empty());
    }
    while k > 0
        invariant
            k <= 8,
            at + 8 <= buf@.len(),
            total == buf@.len(),
            b == buf@.subrange(at as int, at + 8),
            v as nat == le_value(b.subrange(k as int, 8)),
        decreases k,
    {
        let ghost t = b.subrange(k - 1, 8);
        assert(t.drop_first() =~= b.subrange(k as int, 8));
        assert(t[0] == buf@[at + k - 1]);
        proof {
            lemma_le_value_bound(b.subrange(k as int, 8));
            lemma_pow256_mono((8 - k) as nat, 7);
            reveal_with_fuel(pow256, 8);
        }
        assert(pow256(7) == 72057594037927936) by {
            reveal_with_fuel(pow256, 8);
        }
        let byte = buf[at + k - 1];
        assert(256 * (v as int) + byte < 18446744073709551616) by (nonlinear_arith)
            requires
                (v as int) < 72057594037927936,
                byte < 256;
        v = v * 256 + byte as u64;
        k = k - 1;
    }
    assert(b.subrange(0, 8) =~= b);
    v
}

proof fn lemma_pow256_mono(a: nat, b: nat)
    requires
        a <= b,
    ensures
        pow256(a) <= pow256(b),
    decreases b,
{
    if a < b {
        lemma_pow256_mono(a, (b - 1) as nat);
    }
}

/// Splits a log into its frames, as `frames_spec` states.
pub fn split_frames(buf: &Vec<u8>) -> (r: (Vec<Vec<u8>>, bool))
    ensures
        r.0@.map_values(|f: Vec<u8>| f@) == frames_spec(buf@).0,
        r.1 == frames_spec(buf@).1,
{
    let n = buf.len();
    let mut out: Vec<Vec<u8>> = Vec::new();
    let mut at: usize = 0;
    assert(buf@.subrange(0, n as int) =~= buf@);
    while at < n
        invariant
            at <= n,
            n == buf@.len(),
            frames_spec(buf@).0 == out@.map_values(|f: Vec<u8>| f@) + frames_spec(buf@.subrange(at as int, n as int)).0,
            frames_spec(buf@).1 == frames_spec(buf@.subrange(at as int, n as int)).1,
        decreases n - at,
    {
        let ghost tail = buf@.subrange(at as int, n as int);
        if n - at < 8 {
            assert(frames_spec(tail).0 =~= Seq::<Seq<u8>>::empty());
            assert(out@.map_values(|f: Vec<u8>| f@) + Seq::<Seq<u8>>::empty() =~= out@.map_values(|f: Vec<u8>| f@));
            return (out, false);
        }
        let len = read_le8(buf, at);
        assert(tail.subrange(0, 8) =~= buf@.subrange(at as int, at + 8));
        if len > (n - at - 8) as u64 {
            assert(out@.map_values(|f: Vec<u8>| f@) + Seq::<Seq<u8>>::empty() =~= out@.map_values(|f: Vec<u8>| f@));
            return (out, false);
        }
        let end = at + 8 + len as usize;
        let mut frame: Vec<u8> = Vec::new();
        let mut j: usize = at + 8;
        while j < end
            invariant
                at + 8 <= j <= end <= n,
                n == buf@.len(),
                frame@ == buf@.subrange(at + 8, j as int),
            decreases end - j,
        {
            frame.push(buf[j]);
            assert(frame@ =~= buf@.subrange(at + 8, j + 1));
            j = j + 1;
        }
        let ghost fv = frame@;
        assert(tail.subrange(8, 8 + len as int) =~= fv);
        assert(tail.subrange(8 + len as int, tail.len() as int) =~= buf@.subrange(end as int, n as int));
        let ghost prev = out@.map_values(|f: Vec<u8>| f@);
        out.push(frame);
        assert(out@.map_values(|f: Vec<u8>| f@) =~= prev.push(fv));
        assert(frames_spec(tail).0 == seq![fv] + frames_spec(buf@.subrange(end as int, n as int)).0);
        assert(prev + frames_spec(tail).0 =~= prev.push(fv) + frames_spec(buf@.subrange(end as int, n as int)).0);
        at = end;
    }
    assert(buf@.subrange(at as int, n as int) =~= Seq::<u8>::empty());
    assert(out@.map_values(|f: Vec<u8>| f@) + Seq::<Seq<u8>>::empty() =~= out@.map_values(|f: Vec<u8>| f@));
    (out, true)
}


proof fn lemma_pow256_pos(i: nat)
    ensures
        pow256(i) > 0,
    decreases i,
{
    if i > 0 {
        lemma_pow256_pos((i - 1) as nat);
    }
}

/// Reading back the `k` low bytes of `n` gives `n` modulo `256^k`.
proof fn lemma_le_bytes_value(n: nat, k: nat)
    ensures
        le_value(le_bytes(n, k)) == n % pow256(k),
    decreases k,
{
    if k == 0 {
        assert(le_bytes(n, k) =~= Seq::<u8>::empty());
    } else {
        lemma_le_bytes_value(n / 256, (k - 1) as nat);
        assert forall|i: int| 0 <= i < k - 1 implies #[trigger] le_bytes(n, k).drop_first()[i] == le_bytes(n / 256, (k - 1) as nat)[i] by {
            lemma_pow256_pos(i as nat);
            lemma_div_denominator(n as int, 256, pow256(i as nat) as int);
            assert(pow256((i + 1) as nat) == 256 * pow256(i as nat));
        }
        assert(le_bytes(n, k).drop_first() =~= le_bytes(n / 256, (k - 1) as nat));
        assert(pow256(0) == 1);
        assert(n / 1 == n);
        assert(le_bytes(n, k)[0] == (n % 256) as u8);
        lemma_pow256_pos((k - 1) as nat);
        lemma_mod_breakdown(n as int, 256, pow256((k - 1) as nat) as int);
    }
}

/// A frame's encoding: the payload's length in eight little-endian bytes,
/// then the payload.
pub open spec fn frame_spec(p: Seq<u8>) -> Seq<u8> {
    le8(p.len()) + p
}

/// Frames the payload for the log, as `frame_spec` states.
pub fn encode_frame(payload: &Vec<u8>) -> (r: Vec<u8>)
    ensures
        r@ == frame_spec(payload@),
{
    let n: u64 = payload.len() as u64;
    let ghost nn = payload@.len();
    let mut out: Vec<u8> = Vec::new();
    let mut cur: u64 = n;
    let mut i: usize = 0;
    assert(pow256(0) == 1);
    assert(nn / 1 == nn);
    while i < 8
        invariant
            i <= 8,
            nn == n as nat,
            cur as nat == nn / pow256(i as nat),
            out@ =~= le_bytes(nn, i as nat),
        decreases 8 - i,
    {
        proof {
            lemma_pow256_pos(i as nat);
            lemma_div_denominator(nn as int, pow256(i as nat) as int, 256);
            assert(pow256((i + 1) as nat) == 256 * pow256(i as nat));
            assert(pow256(i as nat) * 256 == 256 * pow256(i as nat)) by (nonlinear_arith);
        }
        out.push((cur % 256) as u8);
        cur = cur / 256;
        assert(out@ =~= le_bytes(nn, (i + 1) as nat));
        i = i + 1;
    }
    let mut j: usize = 0;
    let ghost head = out@;
    while j < payload.len()
        invariant
            j <= payload@.len(),
            out@ == head + payload@.subrange(0, j as int),
        decreases payload.len() - j,
    {
        out.push(payload[j]);
        assert(out@ =~= head + payload@.subrange(0, j + 1));
        j = j + 1;
    }
    assert(payload@.subrange(0, j as int) =~= payload@);
    out
}

/// A payload framed on its own reads back as exactly that one frame, and
/// the log ends cleanly.
pub proof fn lemma_frame_round_trip(p: Seq<u8>)
    requires
        p.len() < 18446744073709551616,
    ensures
        frames_spec(frame_spec(p)) == (seq![p], true),
{
    let b = frame_spec(p);
    lemma_le_bytes_value(p.len(), 8);
    lemma_pow256_8();
    assert(b.subrange(0, 8) =~= le8(p.len()));
    assert(le_value(b.subrange(0, 8)) == p.len());
    assert(b.subrange(8, 8 + p.len() as int) =~= p);
    assert(b.subrange(8 + p.len() as int, b.len() as int) =~= Seq::<u8>::empty());
    assert(frames_spec(Seq::<u8>::empty()) == (Seq::<Seq<u8>>::empty(), true));
    assert(seq![p] + Seq::<Seq<u8>>::empty() =~= seq![p]);
}

/// Frames laid end to end read back in order: a log that ends cleanly and
/// gains one more frame reads as before with that frame added.
pub proof fn lemma_frames_append(log: Seq<u8>, p: Seq<u8>)
    requires
        frames_spec(log).1,
        p.len() < 18446744073709551616,
    ensures
        frames_spec(log + frame_spec(p)) == (frames_spec(log).0.push(p), true),
    decreases log.len(),
{
    let b = log + frame_spec(p);
    if log.len() == 0 {
        assert(b =~= frame_spec(p));
        lemma_frame_round_trip(p);
        assert(frames_spec(log).0 =~= Seq::<Seq<u8>>::empty());
        assert(Seq::<Seq<u8>>::empty().push(p) =~= seq![p]);
    } else {
        let n = le_value(log.subrange(0, 8)) as int;
        assert(b.subrange(0, 8) =~= log.subrange(0, 8));
        let rest = log.subrange(8 + n, log.len() as int);
        assert(b.subrange(8, 8 + n) =~= log.subrange(8, 8 + n));
        assert(b.subrange(8 + n, b.len() as int) =~= rest + frame_spec(p));
        lemma_frames_append(rest, p);
        assert(seq![log.subrange(8, 8 + n)] + frames_spec(rest).0.push(p) =~= (seq![log.subrange(8, 8 + n)] + frames_spec(rest).0).push(p));
    }
}

} // verus!
