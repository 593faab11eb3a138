use vstd::arithmetic::div_mod::{
    lemma_add_mod_noop, lemma_add_mod_noop_right, lemma_mod_add_multiples_vanish,
    lemma_mod_twice, lemma_mul_mod_noop_left, lemma_sub_mod_noop,
};
use vstd::prelude::*;

verus! {

// Both rolling checksums keep two accumulators over the current window `w`:
// a first accumulator that adds every byte (plus a per-algorithm constant
// seed), and a second accumulator that adds the first one after every byte.
// Unrolled, the second accumulator is a position-weighted sum: the byte at
// offset `i` of `w` is counted `w.len() - i` times. The spec functions below
// are those two sums as unbounded integers; the lemmas give the algebra that
// a constant-time window slide relies on.

/// Sum of all bytes of `s`.
pub open spec fn sum_bytes(s: Seq<u8>) -> int
    decreases s.len(),
{
    if s.len() == 0 {
        0
    } else {
        sum_bytes(s.drop_last()) + s.last()
    }
}

/// Position-weighted sum of `s`: the byte at offset `i` counts `s.len() - i`
/// times.
pub open spec fn wsum(s: Seq<u8>) -> int
    decreases s.len(),
{
    if s.len() == 0 {
        0
    } else {
        wsum(s.drop_last()) + sum_bytes(s)
    }
}

pub proof fn lemma_sum_bytes_push(s: Seq<u8>, x: u8)
    ensures
        sum_bytes(s.push(x)) == sum_bytes(s) + x,
{
    assert(s.push(x).drop_last() =~= s);
    assert(s.push(x).last() == x);
}

pub proof fn lemma_wsum_push(s: Seq<u8>, x: u8)
    ensures
        wsum(s.push(x)) == wsum(s) + sum_bytes(s) + x,
{
    assert(s.push(x).drop_last() =~= s);
    lemma_sum_bytes_push(s, x);
}

/// Splitting the first byte off a non-empty sequence.
pub proof fn lemma_sum_bytes_tail(s: Seq<u8>)
    requires
        s.len() >= 1,
    ensures
        sum_bytes(s) == s[0] + sum_bytes(s.subrange(1, s.len() as int)),
    decreases s.len(),
{
    if s.len() == 1 {
        assert(s.subrange(1, 1) =~= Seq::<u8>::empty());
        assert(s.drop_last() =~= Seq::<u8>::empty());
    } else {
        let n = s.len() as int;
        lemma_sum_bytes_tail(s.drop_last());
        assert(s.subrange(1, n).drop_last() =~= s.drop_last().subrange(1, n - 1));
        assert(s.subrange(1, n).last() == s.last());
    }
}

/// Splitting the first byte off the weighted sum: it was counted `s.len()`
/// times.
pub proof fn lemma_wsum_tail(s: Seq<u8>)
    requires
        s.len() >= 1,
    ensures
        wsum(s) == s.len() * s[0] + wsum(s.subrange(1, s.len() as int)),
    decreases s.len(),
{
    let n = s.len() as int;
    if s.len() == 1 {
        assert(s.subrange(1, 1) =~= Seq::<u8>::empty());
        assert(s.drop_last() =~= Seq::<u8>::empty());
        assert(sum_bytes(Seq::<u8>::empty()) == 0);
        assert(wsum(Seq::<u8>::empty()) == 0);
        assert(sum_bytes(s) == sum_bytes(s.drop_last()) + s.last());
        assert(wsum(s) == wsum(s.drop_last()) + sum_bytes(s));
        assert(s.last() == s[0]);
        assert(1 * s[0] == s[0]) by (nonlinear_arith);
    } else {
        let dl = s.drop_last();
        let t = s.subrange(1, n);
        lemma_wsum_tail(dl);
        lemma_sum_bytes_tail(s);
        assert(t.drop_last() =~= dl.subrange(1, n - 1));
        assert(t.last() == s.last());
        assert(dl[0] == s[0]);
        assert(sum_bytes(t) == sum_bytes(s) - s[0]);
        assert(wsum(t) == wsum(t.drop_last()) + sum_bytes(t));
        assert(wsum(s) == wsum(dl) + sum_bytes(s));
        assert(wsum(dl) == (n - 1) * s[0] + wsum(dl.subrange(1, n - 1)));
        assert((n - 1) * s[0] + s[0] == n * s[0]) by (nonlinear_arith);
    }
}

/// Sliding the window by one byte: how both sums change when the first byte
/// `w[0]` leaves and `x` enters.
pub proof fn lemma_slide_sums(w: Seq<u8>, x: u8)
    requires
        w.len() >= 1,
    ensures
        sum_bytes(w.subrange(1, w.len() as int).push(x)) == sum_bytes(w) - w[0] + x,
        wsum(w.subrange(1, w.len() as int).push(x)) == wsum(w) + sum_bytes(w) + x - (w.len() + 1)
            * w[0],
{
    let n = w.len() as int;
    let t = w.subrange(1, n);
    lemma_sum_bytes_tail(w);
    lemma_wsum_tail(w);
    lemma_sum_bytes_push(t, x);
    lemma_wsum_push(t, x);
    assert(n * w[0] + w[0] == (n + 1) * w[0]) by (nonlinear_arith);
}

/// The modular algebra of one window slide, shared by both checksums.
///
/// `c0` is the algorithm's seed for the first accumulator (1 for Adler-32,
/// 0 for Fletcher-32), `s` and `ws` the plain and weighted byte sums of the
/// old window, `n` its length, `x` the entering byte and `w0` the leaving
/// one. Starting from accumulators congruent to `c0 + s` and `c0 * n + ws`,
/// the four unsigned-safe mod-`m` steps below land on the accumulators of
/// the new window, whose sums are `s - w0 + x` and `ws + s + x - (n+1)*w0`.
pub proof fn lemma_slide_mod(m: int, c0: int, s: int, ws: int, n: int, x: int, w0: int)
    requires
        0 < m,
        0 <= c0 < m,
        0 <= w0,
        n >= 0,
    ensures
        ({
            let a0 = (c0 + s) % m;
            let b0 = (c0 * n + ws) % m;
            let a_mid = (a0 + x) % m;
            let b_mid = (b0 + a_mid + m - c0) % m;
            let a_fin = (a_mid + m - w0 % m) % m;
            let b_fin = (b_mid + m - (((n + 1) % m) * w0) % m) % m;
            a_fin == (c0 + (s - w0 + x)) % m && b_fin == (c0 * n + (ws + s + x - (n + 1) * w0)) % m
        }),
{
    let a0 = (c0 + s) % m;
    let b0 = (c0 * n + ws) % m;
    let a_mid = (a0 + x) % m;
    let b_mid = (b0 + a_mid + m - c0) % m;
    let a_fin = (a_mid + m - w0 % m) % m;
    let b_fin = (b_mid + m - (((n + 1) % m) * w0) % m) % m;

    assert(c0 % m == c0) by {
        vstd::arithmetic::div_mod::lemma_small_mod(c0 as nat, m as nat);
    }

    // a_mid == (c0 + s + x) % m
    lemma_add_mod_noop_right(x, c0 + s, m);
    assert(a_mid == (c0 + s + x) % m);

    // a_fin == (c0 + s + x - w0) % m
    lemma_mod_add_multiples_vanish(a_mid - w0 % m, m);
    assert(a_fin == (a_mid - w0 % m) % m);
    lemma_sub_mod_noop(c0 + s + x, w0, m);
    assert(a_fin == (c0 + s + x - w0) % m);

    // b_mid == (c0 * n + ws + c0 + s + x - c0) % m == (c0 * n + ws + s + x) % m
    lemma_add_mod_noop(c0 * n + ws, c0 + s + x, m);
    assert((b0 + a_mid) % m == (c0 * n + ws + c0 + s + x) % m);
    lemma_mod_add_multiples_vanish(b0 + a_mid - c0, m);
    assert(b_mid == (b0 + a_mid - c0) % m);
    lemma_sub_mod_noop(b0 + a_mid, c0, m);
    lemma_sub_mod_noop(c0 * n + ws + c0 + s + x, c0, m);
    assert((b0 + a_mid - c0) % m == ((b0 + a_mid) % m - c0) % m);
    assert((c0 * n + ws + c0 + s + x - c0) % m == ((c0 * n + ws + c0 + s + x) % m - c0) % m);
    assert(b_mid == (c0 * n + ws + s + x) % m);

    // b_fin == (c0 * n + ws + s + x - (n + 1) * w0) % m
    lemma_mul_mod_noop_left(n + 1, w0, m);
    assert((((n + 1) % m) * w0) % m == ((n + 1) * w0) % m);
    lemma_mod_add_multiples_vanish(b_mid - (((n + 1) % m) * w0) % m, m);
    assert(b_fin == (b_mid - ((n + 1) * w0) % m) % m);
    lemma_sub_mod_noop(c0 * n + ws + s + x, (n + 1) * w0, m);
    lemma_mod_twice(c0 * n + ws + s + x, m);
    assert((b_mid - ((n + 1) * w0) % m) % m == (c0 * n + ws + s + x - (n + 1) * w0) % m);
}

/// Feeding one more byte into the accumulators, as `init` does per byte.
pub proof fn lemma_accumulate_mod(m: int, c0: int, s: Seq<u8>, x: u8)
    requires
        0 < m,
        0 <= c0,
    ensures
        ((c0 + sum_bytes(s)) % m + x) % m == (c0 + sum_bytes(s.push(x))) % m,
        ((c0 * s.len() + wsum(s)) % m + (c0 + sum_bytes(s.push(x))) % m) % m == (c0 * (s.len() + 1)
            + wsum(s.push(x))) % m,
{
    lemma_sum_bytes_push(s, x);
    lemma_wsum_push(s, x);
    lemma_add_mod_noop_right(x as int, c0 + sum_bytes(s), m);
    assert(((c0 + sum_bytes(s)) % m + x) % m == (c0 + sum_bytes(s) + x) % m);
    lemma_add_mod_noop(c0 * s.len() + wsum(s), c0 + sum_bytes(s) + x, m);
    assert(c0 * s.len() + c0 == c0 * (s.len() + 1)) by (nonlinear_arith);
}

} // verus!
