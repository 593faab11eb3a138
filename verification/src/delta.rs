use crate::algorithm::{weak_hash_of, Algorithm, WeakHasher};
use crate::error::DiffError;
use crate::sign::{table_view, SigView, Signature};
use crate::utils::{blake2s_of, bytes_eq, get_blake2};
use std::collections::HashMap;
use vstd::pervasive::unreached;
use vstd::prelude::*;
use vstd::slice::{slice_subrange, slice_to_vec};

verus! {

broadcast use vstd::std_specs::hash::group_hash_axioms;

/// One token of a delta stream: the index of a signed chunk, or one raw
/// byte.
#[derive(Debug, PartialEq, Eq, Structural)]
pub enum Delta {
    I(u32),
    B(u8),
}

/// One scan position of a buffer: its offset, the weak hash of the window
/// starting there, and the window bytes themselves.
#[derive(Debug)]
pub struct HashBlock {
    pub index: u32,
    pub weak_hash: u32,
    pub bytes: Vec<u8>,
}

/// The delta stream that the encoder emits for `n` from scan position `i`
/// on, against table `t`: literals once fewer than `c` bytes remain; at a
/// weak-hash hit whose stored checksum matches the window's, one `I` token
/// and a jump of `c`; otherwise one `B` token and a step of 1.
pub open spec fn delta_model(
    n: Seq<u8>,
    c: int,
    algo: Algorithm,
    t: Map<u32, SigView>,
    i: int,
) -> Seq<Delta>
    decreases n.len() - i,
    when 0 <= i && 1 <= c
{
    if i >= n.len() {
        Seq::empty()
    } else if i + c > n.len() {
        Seq::new((n.len() - i) as nat, |j: int| Delta::B(n[i + j]))
    } else {
        let window = n.subrange(i, i + c);
        let w = weak_hash_of(algo, window);
        if t.contains_key(w) && t[w].checksum == blake2s_of(window) {
            seq![Delta::I(t[w].index)] + delta_model(n, c, algo, t, i + c)
        } else {
            seq![Delta::B(n[i])] + delta_model(n, c, algo, t, i + 1)
        }
    }
}

/// Initialize the rolling hasher on the first `chunk_size` bytes of
/// `buffer`, then slide it one byte at a time to the end. Block `i` of the
/// result carries exactly the weak hash and the window that a fresh hasher
/// would compute over `buffer[i .. i + chunk_size]`.
pub fn calculate_rolling_hashes(
    chunk_size: usize,
    algorithm: Algorithm,
    buffer: &Vec<u8>,
) -> (r: Result<Vec<HashBlock>, DiffError>)
    requires
        1 <= chunk_size <= buffer@.len(),
        buffer@.len() - chunk_size <= u32::MAX,
    ensures
        r is Ok,
        r->Ok_0@.len() == buffer@.len() - chunk_size + 1,
        forall|i: int|
            0 <= i < r->Ok_0@.len() ==> {
                let hb = #[trigger] r->Ok_0@[i];
                &&& hb.index == i
                &&& hb.weak_hash == weak_hash_of(algorithm, buffer@.subrange(i, i + chunk_size))
                &&& hb.bytes@ == buffer@.subrange(i, i + chunk_size)
            },
{
    let n: usize = buffer.len();
    let mut hasher = WeakHasher::new(algorithm);
    let first_chunk = slice_subrange(buffer.as_slice(), 0, chunk_size);
    let weak = hasher.chunk_hash(first_chunk);
    let mut index: u32 = 0;
    let mut list: Vec<HashBlock> = Vec::new();
    list.push(HashBlock { index, weak_hash: weak, bytes: slice_to_vec(first_chunk) });

    let mut pos: usize = chunk_size;
    while pos < n
        invariant
            1 <= chunk_size <= n,
            n == buffer@.len(),
            n - chunk_size <= u32::MAX,
            chunk_size <= pos <= n,
            index == pos - chunk_size,
            hasher.wf(),
            hasher.algo() == algorithm,
            hasher.window() == buffer@.subrange(index as int, pos as int),
            list@.len() == index + 1,
            forall|i: int|
                0 <= i < list@.len() ==> {
                    let hb = #[trigger] list@[i];
                    &&& hb.index == i
                    &&& hb.weak_hash == weak_hash_of(
                        algorithm,
                        buffer@.subrange(i, i + chunk_size),
                    )
                    &&& hb.bytes@ == buffer@.subrange(i, i + chunk_size)
                },
        decreases n - pos,
    {
        let byte: u8 = buffer[pos];
        index = index + 1;
        let weak = hasher.rolling_hash(byte);
        proof {
            assert(buffer@.subrange(index - 1, pos as int).subrange(
                1,
                chunk_size as int,
            ).push(byte) =~= buffer@.subrange(index as int, pos + 1));
        }
        let window = hasher.window_vec();
        list.push(HashBlock { index, weak_hash: weak, bytes: window });
        pos = pos + 1;
    }

    Ok(list)
}

/// Scan `buffer` against `signatures` and emit its delta stream: `I(index)`
/// where a window's weak hash is keyed and the stored checksum equals the
/// window's own, `B(byte)` everywhere else, with the final partial window
/// always sent as literals.
pub fn gen_delta(
    buffer: &Vec<u8>,
    chunk_size: usize,
    algorithm: Algorithm,
    signatures: &HashMap<u32, Signature>,
) -> (r: Result<Vec<Delta>, DiffError>)
    requires
        chunk_size >= 1,
        buffer@.len() >= chunk_size ==> buffer@.len() - chunk_size <= u32::MAX,
    ensures
        r is Ok,
        r->Ok_0@ == delta_model(
            buffer@,
            chunk_size as int,
            algorithm,
            table_view(signatures@),
            0,
        ),
{
    let ghost c = chunk_size as int;
    let ghost t = table_view(signatures@);
    let n: usize = buffer.len();
    let mut delta: Vec<Delta> = Vec::new();

    if n < chunk_size {
        // Shorter than one chunk: no window exists, every byte is a literal.
        let mut j: usize = 0;
        while j < n
            invariant
                j <= n,
                n == buffer@.len(),
                n < chunk_size,
                delta@ =~= Seq::new(j as nat, |p: int| Delta::B(buffer@[p])),
            decreases n - j,
        {
            delta.push(Delta::B(buffer[j]));
            proof {
                assert(delta@ =~= Seq::new((j + 1) as nat, |p: int| Delta::B(buffer@[p])));
            }
            j = j + 1;
        }
        proof {
            if n > 0 {
                assert(delta@ =~= delta_model(buffer@, c, algorithm, t, 0));
            }
        }
        return Ok(delta);
    }

    let hashes = match calculate_rolling_hashes(chunk_size, algorithm, buffer) {
        Ok(h) => h,
        Err(_) => unreached(),
    };

    let mut index: usize = 0;
    while index < n
        invariant
            1 <= chunk_size <= n,
            n == buffer@.len(),
            c == chunk_size as int,
            t == table_view(signatures@),
            index <= n,
            hashes@.len() == n - chunk_size + 1,
            forall|i: int|
                0 <= i < hashes@.len() ==> {
                    let hb = #[trigger] hashes@[i];
                    &&& hb.weak_hash == weak_hash_of(
                        algorithm,
                        buffer@.subrange(i, i + chunk_size),
                    )
                    &&& hb.bytes@ == buffer@.subrange(i, i + chunk_size)
                },
            delta_model(buffer@, c, algorithm, t, 0) == delta@ + delta_model(
                buffer@,
                c,
                algorithm,
                t,
                index as int,
            ),
        decreases n - index,
    {
        if index > n - chunk_size {
            // Fewer than `chunk_size` bytes remain: the signer ignored such
            // a tail, so no match exists and the rest goes out as literals.
            let ghost start = index as int;
            let ghost dpre = delta@;
            let mut j: usize = index;
            proof {
                assert(delta@ =~= dpre + Seq::new(0, |p: int| Delta::B(buffer@[start + p])));
            }
            while j < n
                invariant
                    start <= j <= n,
                    n == buffer@.len(),
                    delta@ =~= dpre + Seq::new((j - start) as nat, |p: int| Delta::B(buffer@[start + p])),
                decreases n - j,
            {
                delta.push(Delta::B(buffer[j]));
                proof {
                    assert(delta@ =~= dpre + Seq::new(
                        (j + 1 - start) as nat,
                        |p: int| Delta::B(buffer@[start + p]),
                    ));
                }
                j = j + 1;
            }
            proof {
                let m0 = delta_model(buffer@, c, algorithm, t, 0);
                let tail = delta_model(buffer@, c, algorithm, t, start);
                assert(tail =~= Seq::new((n - start) as nat, |p: int| Delta::B(buffer@[start + p])));
                assert(delta@ =~= m0);
                assert(delta_model(buffer@, c, algorithm, t, n as int) =~= Seq::<Delta>::empty());
                assert(delta@ + Seq::<Delta>::empty() =~= delta@);
            }
            index = n;
            continue;
        }

        let curr_hash: u32 = hashes[index].weak_hash;
        let ghost window = buffer@.subrange(index as int, index + c);
        let ghost w_tok = delta_model(buffer@, c, algorithm, t, index as int);

        if signatures.contains_key(&curr_hash) {
            match signatures.get(&curr_hash) {
                Some(sign) => {
                    let this_checksum = match get_blake2(
                        slice_to_vec(hashes[index].bytes.as_slice()),
                    ) {
                        Ok(digest) => digest,
                        Err(_) => unreached(),
                    };
                    if bytes_eq(sign.checksum.as_slice(), this_checksum.as_slice()) {
                        let ghost dpre = delta@;
                        proof {
                            assert(t.contains_key(curr_hash) && t[curr_hash] == sign@);
                            assert(w_tok == seq![Delta::I(sign@.index)] + delta_model(
                                buffer@,
                                c,
                                algorithm,
                                t,
                                index + c,
                            ));
                        }
                        delta.push(Delta::I(sign.index));
                        proof {
                            let rest = delta_model(buffer@, c, algorithm, t, index + c);
                            assert((dpre + (seq![Delta::I(sign@.index)] + rest)) =~= (dpre.push(
                                Delta::I(sign@.index),
                            ) + rest));
                            assert(delta_model(buffer@, c, algorithm, t, 0) == delta@ + rest);
                        }
                        index = index + chunk_size;
                        continue;
                    }
                    proof {
                        assert(t.contains_key(curr_hash) && t[curr_hash] == sign@);
                        assert(t[curr_hash].checksum != blake2s_of(window));
                    }
                },
                None => unreached(),
            }
        } else {
            proof {
                assert(!t.contains_key(curr_hash));
            }
        }

        // No usable match at this offset: one literal, slide by one byte.
        let ghost dpre = delta@;
        proof {
            assert(w_tok == seq![Delta::B(buffer@[index as int])] + delta_model(
                buffer@,
                c,
                algorithm,
                t,
                index + 1,
            ));
        }
        delta.push(Delta::B(buffer[index]));
        proof {
            let rest = delta_model(buffer@, c, algorithm, t, index + 1);
            assert((dpre + (seq![Delta::B(buffer@[index as int])] + rest)) =~= (dpre.push(
                Delta::B(buffer@[index as int]),
            ) + rest));
            assert(delta_model(buffer@, c, algorithm, t, 0) == delta@ + rest);
        }
        index = index + 1;
    }

    proof {
        assert(delta_model(buffer@, c, algorithm, t, index as int) =~= Seq::<Delta>::empty());
        assert(delta@ + Seq::<Delta>::empty() =~= delta@);
    }
    Ok(delta)
}

} // verus!
