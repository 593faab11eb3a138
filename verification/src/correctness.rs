use crate::algorithm::{weak_hash_of, Algorithm};
use crate::delta::{delta_model, Delta};
use crate::error::DiffError;
use crate::patch::{apply_model, index_present, indices_unique, lookup_bytes};
use crate::sign::{chunk_of, num_chunks, sig_model, sig_model_upto, SigView};
use crate::utils::blake2s_of;
use vstd::arithmetic::div_mod::{lemma_fundamental_div_mod, lemma_mod_bound};
use vstd::arithmetic::mul::lemma_mul_inequality;
use vstd::prelude::*;

verus! {

// The laws of the pipeline, stated over the same spec functions that the
// executable functions' contracts use: `sig_model` (what `gen_sigs`
// builds), `delta_model` (what `gen_delta` emits) and `apply_model` (what
// `apply_delta` reconstructs).

/// Every length-`c` window of `n` and every signed chunk of `o` that share
/// a BLAKE2s digest are byte-equal. The encoder accepts a match on digest
/// equality alone, so reconstruction is exact only on inputs where the
/// digest separates the chunks involved; a BLAKE2s collision between
/// different chunks is the one class of inputs left out.
pub open spec fn strong_separates(o: Seq<u8>, n: Seq<u8>, c: int) -> bool {
    forall|i: int, j: int|
        #![trigger n.subrange(i, i + c), chunk_of(o, c, j)]
        0 <= i && i + c <= n.len() && 0 <= j < num_chunks(o, c) && blake2s_of(
            n.subrange(i, i + c),
        ) == blake2s_of(chunk_of(o, c, j)) ==> n.subrange(i, i + c) == chunk_of(o, c, j)
}

/// Distinct chunks of `o` keep distinct weak hashes: no chunk is dropped
/// while signing `o`.
pub open spec fn no_weak_collisions(o: Seq<u8>, c: int, algo: Algorithm) -> bool {
    forall|j1: int, j2: int|
        #![trigger chunk_of(o, c, j1), chunk_of(o, c, j2)]
        0 <= j1 < num_chunks(o, c) && 0 <= j2 < num_chunks(o, c) && weak_hash_of(
            algo,
            chunk_of(o, c, j1),
        ) == weak_hash_of(algo, chunk_of(o, c, j2)) ==> chunk_of(o, c, j1) == chunk_of(o, c, j2)
}

/// No length-`c` window of `n` equals any signed chunk of `o`.
pub open spec fn no_common_chunks(o: Seq<u8>, n: Seq<u8>, c: int) -> bool {
    forall|i: int, j: int|
        #![trigger n.subrange(i, i + c), chunk_of(o, c, j)]
        0 <= i && i + c <= n.len() && 0 <= j < num_chunks(o, c) ==> n.subrange(i, i + c)
            != chunk_of(o, c, j)
}

/// What holds of every entry of the signature table built from the first
/// `k` chunks of `data`: its bytes are the chunk at its own ordinal, its
/// key is that chunk's weak hash, its checksum that chunk's digest.
pub open spec fn entry_ok(
    data: Seq<u8>,
    c: int,
    algo: Algorithm,
    k: int,
    w: u32,
    e: SigView,
) -> bool {
    &&& 0 <= e.index < k
    &&& e.bytes == chunk_of(data, c, e.index as int)
    &&& e.bytes.len() == c
    &&& w == weak_hash_of(algo, e.bytes)
    &&& e.checksum == blake2s_of(e.bytes)
}

/// Every entry of a partial signature table describes the chunk at its own
/// ordinal, and no two entries share an ordinal.
pub proof fn lemma_sig_model_upto_wf(data: Seq<u8>, c: int, algo: Algorithm, k: int)
    requires
        c >= 1,
        0 <= k <= u32::MAX,
        k * c <= data.len(),
    ensures
        forall|w: u32|
            #[trigger] sig_model_upto(data, c, algo, k).contains_key(w) ==> entry_ok(
                data,
                c,
                algo,
                k,
                w,
                sig_model_upto(data, c, algo, k)[w],
            ),
        indices_unique(sig_model_upto(data, c, algo, k)),
    decreases k,
{
    if k > 0 {
        let prev = sig_model_upto(data, c, algo, k - 1);
        let m = sig_model_upto(data, c, algo, k);
        assert((k - 1) * c <= k * c) by {
            lemma_mul_inequality(k - 1, k, c);
        }
        lemma_sig_model_upto_wf(data, c, algo, k - 1);
        let chunk = chunk_of(data, c, k - 1);
        let w = weak_hash_of(algo, chunk);
        assert((k - 1) * c + c == k * c) by (nonlinear_arith);
        assert(chunk.len() == c);
        if !prev.contains_key(w) {
            let e = SigView { index: (k - 1) as u32, checksum: blake2s_of(chunk), bytes: chunk };
            assert(m == prev.insert(w, e));
            assert(entry_ok(data, c, algo, k, w, e));
            assert forall|w2: u32| #[trigger] m.contains_key(w2) implies entry_ok(
                data,
                c,
                algo,
                k,
                w2,
                m[w2],
            ) by {
                if w2 != w {
                    assert(prev.contains_key(w2));
                }
            }
        }
    }
}

/// The full signature table of `data` is well formed.
pub proof fn lemma_sig_model_wf(data: Seq<u8>, c: int, algo: Algorithm)
    requires
        c >= 1,
        num_chunks(data, c) <= u32::MAX,
    ensures
        forall|w: u32|
            #[trigger] sig_model(data, c, algo).contains_key(w) ==> entry_ok(
                data,
                c,
                algo,
                num_chunks(data, c),
                w,
                sig_model(data, c, algo)[w],
            ),
        indices_unique(sig_model(data, c, algo)),
{
    lemma_fundamental_div_mod(data.len() as int, c);
    lemma_mod_bound(data.len() as int, c);
    lemma_sig_model_upto_wf(data, c, algo, num_chunks(data, c));
}

/// Once a chunk's weak hash is keyed it stays keyed.
proof fn lemma_sig_model_upto_monotonic(data: Seq<u8>, c: int, algo: Algorithm, k1: int, k2: int)
    requires
        0 <= k1 <= k2,
    ensures
        forall|w: u32|
            #[trigger] sig_model_upto(data, c, algo, k1).contains_key(w) ==> sig_model_upto(
                data,
                c,
                algo,
                k2,
            ).contains_key(w),
    decreases k2 - k1,
{
    if k1 < k2 {
        lemma_sig_model_upto_monotonic(data, c, algo, k1, k2 - 1);
    }
}

/// The weak hash of every one of the first `k` chunks is a key of the
/// partial table.
pub proof fn lemma_sig_model_covers(data: Seq<u8>, c: int, algo: Algorithm, k: int, j: int)
    requires
        0 <= j < k,
    ensures
        sig_model_upto(data, c, algo, k).contains_key(weak_hash_of(algo, chunk_of(data, c, j))),
    decreases k,
{
    let w = weak_hash_of(algo, chunk_of(data, c, j));
    if j == k - 1 {
        assert(sig_model_upto(data, c, algo, k).contains_key(w));
    } else {
        lemma_sig_model_covers(data, c, algo, k - 1, j);
        lemma_sig_model_upto_monotonic(data, c, algo, k - 1, k);
    }
}

/// Applying a run of literal tokens reproduces exactly the bytes they
/// carry.
proof fn lemma_apply_literals(n: Seq<u8>, i: int, t: Map<u32, SigView>)
    requires
        0 <= i <= n.len(),
    ensures
        apply_model(Seq::new((n.len() - i) as nat, |j: int| Delta::B(n[i + j])), t) == Ok::<
            Seq<u8>,
            DiffError,
        >(n.subrange(i, n.len() as int)),
    decreases n.len() - i,
{
    let toks = Seq::new((n.len() - i) as nat, |j: int| Delta::B(n[i + j]));
    if i == n.len() {
        assert(toks.len() == 0);
        assert(n.subrange(i, n.len() as int) =~= Seq::<u8>::empty());
    } else {
        lemma_apply_literals(n, i + 1, t);
        let rest = Seq::new((n.len() - i - 1) as nat, |j: int| Delta::B(n[i + 1 + j]));
        assert(toks.subrange(1, toks.len() as int) =~= rest);
        assert(toks[0] == Delta::B(n[i]));
        assert(seq![n[i]] + n.subrange(i + 1, n.len() as int) =~= n.subrange(i, n.len() as int));
    }
}

/// Replaying the delta stream for `n` from position `i` on, against the
/// signature table of `o`, reconstructs exactly `n[i..]`.
proof fn lemma_round_trip_from(o: Seq<u8>, n: Seq<u8>, c: int, algo: Algorithm, i: int)
    requires
        c >= 1,
        num_chunks(o, c) <= u32::MAX,
        0 <= i <= n.len(),
        strong_separates(o, n, c),
    ensures
        apply_model(delta_model(n, c, algo, sig_model(o, c, algo), i), sig_model(o, c, algo))
            == Ok::<Seq<u8>, DiffError>(n.subrange(i, n.len() as int)),
    decreases n.len() - i,
{
    let t = sig_model(o, c, algo);
    let toks = delta_model(n, c, algo, t, i);
    lemma_sig_model_wf(o, c, algo);
    if i >= n.len() {
        assert(toks.len() == 0);
        assert(n.subrange(i, n.len() as int) =~= Seq::<u8>::empty());
    } else if i + c > n.len() {
        lemma_apply_literals(n, i, t);
    } else {
        let window = n.subrange(i, i + c);
        let w = weak_hash_of(algo, window);
        if t.contains_key(w) && t[w].checksum == blake2s_of(window) {
            let e = t[w];
            assert(entry_ok(o, c, algo, num_chunks(o, c), w, e));
            // Equal digests and a well-formed entry force equal bytes.
            assert(blake2s_of(window) == blake2s_of(chunk_of(o, c, e.index as int)));
            assert(window == e.bytes);
            lemma_round_trip_from(o, n, c, algo, i + c);
            let rest = delta_model(n, c, algo, t, i + c);
            assert(toks == seq![Delta::I(e.index)] + rest);
            assert(toks[0] == Delta::I(e.index));
            assert(toks.subrange(1, toks.len() as int) =~= rest);
            assert(index_present(t, e.index));
            assert(lookup_bytes(t, e.index) == e.bytes) by {
                let w2 = choose|w2: u32| #[trigger] t.contains_key(w2) && t[w2].index == e.index;
                assert(t.contains_key(w2) && t[w2].index == e.index);
                assert(w2 == w);
            }
            assert(e.bytes + n.subrange(i + c, n.len() as int) =~= n.subrange(i, n.len() as int));
        } else {
            lemma_round_trip_from(o, n, c, algo, i + 1);
            let rest = delta_model(n, c, algo, t, i + 1);
            assert(toks[0] == Delta::B(n[i]));
            assert(toks.subrange(1, toks.len() as int) =~= rest);
            assert(seq![n[i]] + n.subrange(i + 1, n.len() as int) =~= n.subrange(
                i,
                n.len() as int,
            ));
        }
    }
}

/// Round-trip identity: for any old buffer `o`, new buffer `n`, chunk size
/// `c >= 2` and either algorithm, replaying the delta of `n` against the
/// signature table of `o` reconstructs `n` exactly — also in the presence
/// of weak-hash collisions, as long as the strong digest separates the
/// windows of `n` from the signed chunks of `o`.
pub proof fn lemma_round_trip(o: Seq<u8>, n: Seq<u8>, c: int, algo: Algorithm)
    requires
        c >= 2,
        num_chunks(o, c) <= u32::MAX,
        strong_separates(o, n, c),
    ensures
        apply_model(delta_model(n, c, algo, sig_model(o, c, algo), 0), sig_model(o, c, algo))
            == Ok::<Seq<u8>, DiffError>(n),
{
    lemma_round_trip_from(o, n, c, algo, 0);
    assert(n.subrange(0, n.len() as int) =~= n);
}

/// Self-delta helper: from chunk boundary `j` on, the delta of `o` against
/// its own signature table is one match per remaining whole chunk followed
/// by the literal tail.
proof fn lemma_self_delta_from(o: Seq<u8>, c: int, algo: Algorithm, j: int)
    requires
        c >= 1,
        num_chunks(o, c) <= u32::MAX,
        0 <= j <= num_chunks(o, c),
        no_weak_collisions(o, c, algo),
    ensures
        ({
            let t = sig_model(o, c, algo);
            let d = delta_model(o, c, algo, t, j * c);
            &&& d.len() == (num_chunks(o, c) - j) + o.len() as int % c
            &&& forall|p: int| 0 <= p < num_chunks(o, c) - j ==> (#[trigger] d[p]) is I
            &&& forall|p: int|
                num_chunks(o, c) - j <= p < d.len() ==> (#[trigger] d[p]) == Delta::B(
                    o[num_chunks(o, c) * c + (p - (num_chunks(o, c) - j))],
                )
            &&& apply_model(d, t) == Ok::<Seq<u8>, DiffError>(o.subrange(j * c, o.len() as int))
        }),
    decreases num_chunks(o, c) - j,
{
    let t = sig_model(o, c, algo);
    let nc = num_chunks(o, c);
    let i = j * c;
    let d = delta_model(o, c, algo, t, i);
    lemma_fundamental_div_mod(o.len() as int, c);
    lemma_mod_bound(o.len() as int, c);
    lemma_sig_model_wf(o, c, algo);
    assert(j * c <= nc * c) by {
        lemma_mul_inequality(j, nc, c);
    }
    if j == nc {
        if i == o.len() {
            assert(d.len() == 0);
            assert(o.len() as int % c == 0);
            assert(o.subrange(i, o.len() as int) =~= Seq::<u8>::empty());
        } else {
            assert(i + c > o.len());
            lemma_apply_literals(o, i, t);
            assert(d.len() == o.len() - i == o.len() as int % c);
        }
    } else {
        assert((j + 1) * c == j * c + c) by (nonlinear_arith);
        assert((j + 1) * c <= nc * c) by {
            lemma_mul_inequality(j + 1, nc, c);
        }
        assert(i + c <= o.len());
        let window = o.subrange(i, i + c);
        assert(window == chunk_of(o, c, j));
        let w = weak_hash_of(algo, window);
        lemma_sig_model_covers(o, c, algo, nc, j);
        assert(t.contains_key(w));
        let e = t[w];
        assert(entry_ok(o, c, algo, nc, w, e));
        // The keyed entry is a chunk with the same weak hash; with no weak
        // collisions among the chunks of `o` its bytes equal this chunk's.
        assert(chunk_of(o, c, e.index as int) == e.bytes);
        assert(weak_hash_of(algo, chunk_of(o, c, e.index as int)) == weak_hash_of(
            algo,
            chunk_of(o, c, j),
        ));
        assert(e.bytes == chunk_of(o, c, j));
        assert(e.checksum == blake2s_of(window));
        lemma_self_delta_from(o, c, algo, j + 1);
        let rest = delta_model(o, c, algo, t, i + c);
        assert(d == seq![Delta::I(e.index)] + rest);
        assert(d[0] == Delta::I(e.index));
        assert(d.subrange(1, d.len() as int) =~= rest);
        assert(forall|p: int| 1 <= p < d.len() ==> d[p] == rest[p - 1]);
        assert(index_present(t, e.index));
        assert(lookup_bytes(t, e.index) == e.bytes) by {
            let w2 = choose|w2: u32| #[trigger] t.contains_key(w2) && t[w2].index == e.index;
            assert(t.contains_key(w2) && t[w2].index == e.index);
            assert(w2 == w);
        }
        assert(e.bytes + o.subrange(i + c, o.len() as int) =~= o.subrange(i, o.len() as int));
    }
}

/// Self-delta: signing `o` and diffing `o` against that table yields one
/// match token per whole chunk — `len(o) / c` of them — followed by the
/// `len(o) % c` tail bytes as literals, and replaying it reconstructs `o`
/// exactly. Holds whenever no two distinct chunks of `o` share a weak
/// hash; a dropped chunk would be sent literally instead.
pub proof fn lemma_self_delta(o: Seq<u8>, c: int, algo: Algorithm)
    requires
        c >= 1,
        num_chunks(o, c) <= u32::MAX,
        no_weak_collisions(o, c, algo),
    ensures
        ({
            let t = sig_model(o, c, algo);
            let d = delta_model(o, c, algo, t, 0);
            &&& d.len() == num_chunks(o, c) + o.len() as int % c
            &&& forall|p: int| 0 <= p < num_chunks(o, c) ==> (#[trigger] d[p]) is I
            &&& forall|p: int|
                num_chunks(o, c) <= p < d.len() ==> (#[trigger] d[p]) == Delta::B(
                    o[num_chunks(o, c) * c + (p - num_chunks(o, c))],
                )
            &&& apply_model(d, t) == Ok::<Seq<u8>, DiffError>(o)
        }),
{
    lemma_self_delta_from(o, c, algo, 0);
    assert(0 * c == 0) by (nonlinear_arith);
    assert(o.subrange(0, o.len() as int) =~= o);
}

/// Total-mismatch helper: from position `i` on, the delta is one literal
/// per byte.
proof fn lemma_total_mismatch_from(o: Seq<u8>, n: Seq<u8>, c: int, algo: Algorithm, i: int)
    requires
        c >= 1,
        num_chunks(o, c) <= u32::MAX,
        0 <= i <= n.len(),
        strong_separates(o, n, c),
        no_common_chunks(o, n, c),
    ensures
        ({
            let d = delta_model(n, c, algo, sig_model(o, c, algo), i);
            &&& d.len() == n.len() - i
            &&& forall|p: int| 0 <= p < d.len() ==> (#[trigger] d[p]) == Delta::B(n[i + p])
        }),
    decreases n.len() - i,
{
    let t = sig_model(o, c, algo);
    let d = delta_model(n, c, algo, t, i);
    lemma_sig_model_wf(o, c, algo);
    if i >= n.len() {
    } else if i + c > n.len() {
    } else {
        let window = n.subrange(i, i + c);
        let w = weak_hash_of(algo, window);
        if t.contains_key(w) && t[w].checksum == blake2s_of(window) {
            let e = t[w];
            assert(entry_ok(o, c, algo, num_chunks(o, c), w, e));
            assert(blake2s_of(window) == blake2s_of(chunk_of(o, c, e.index as int)));
            // Equal digests force equal bytes, but no window equals a chunk.
            assert(window == chunk_of(o, c, e.index as int));
            assert(false);
        }
        lemma_total_mismatch_from(o, n, c, algo, i + 1);
        let rest = delta_model(n, c, algo, t, i + 1);
        assert(d == seq![Delta::B(n[i])] + rest);
        assert(forall|p: int| 1 <= p < d.len() ==> d[p] == rest[p - 1]);
    }
}

/// Literal-only on total mismatch: when no length-`c` window of `n` equals
/// any signed chunk of `o` (and the strong digest separates them), the
/// delta of `n` against `o`'s table is exactly one literal token per byte
/// of `n`.
pub proof fn lemma_total_mismatch(o: Seq<u8>, n: Seq<u8>, c: int, algo: Algorithm)
    requires
        c >= 1,
        num_chunks(o, c) <= u32::MAX,
        strong_separates(o, n, c),
        no_common_chunks(o, n, c),
    ensures
        ({
            let d = delta_model(n, c, algo, sig_model(o, c, algo), 0);
            &&& d.len() == n.len()
            &&& forall|p: int| 0 <= p < d.len() ==> (#[trigger] d[p]) == Delta::B(n[p])
        }),
{
    lemma_total_mismatch_from(o, n, c, algo, 0);
}

} // verus!
