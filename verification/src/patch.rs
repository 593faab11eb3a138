use crate::delta::Delta;
use crate::error::DiffError;
use crate::sign::{table_view, SigView, Signature};
use std::collections::HashMap;
use vstd::prelude::*;
use vstd::slice::slice_to_vec;
use vstd::std_specs::iter::IteratorSpec;

verus! {

broadcast use vstd::std_specs::hash::group_hash_axioms;

/// Whether some entry of `t` carries ordinal `i`.
pub open spec fn index_present(t: Map<u32, SigView>, i: u32) -> bool {
    exists|w: u32| #[trigger] t.contains_key(w) && t[w].index == i
}

/// The chunk bytes of an entry of `t` carrying ordinal `i`. Meaningful when
/// `indices_unique(t)` holds, as it does of every generated table.
pub open spec fn lookup_bytes(t: Map<u32, SigView>, i: u32) -> Seq<u8> {
    let w = choose|w: u32| #[trigger] t.contains_key(w) && t[w].index == i;
    t[w].bytes
}

/// No two entries of `t` share an ordinal.
pub open spec fn indices_unique(t: Map<u32, SigView>) -> bool {
    forall|w1: u32, w2: u32|
        #[trigger] t.contains_key(w1) && #[trigger] t.contains_key(w2) && t[w1].index
            == t[w2].index ==> w1 == w2
}

/// The reconstruction that `tokens` describe against table `t`: literal
/// bytes are copied, `I(i)` appends the chunk stored under ordinal `i`, and
/// the first ordinal that no entry carries is the error.
pub open spec fn apply_model(tokens: Seq<Delta>, t: Map<u32, SigView>) -> Result<
    Seq<u8>,
    DiffError,
>
    decreases tokens.len(),
{
    if tokens.len() == 0 {
        Ok(Seq::empty())
    } else {
        let rest = tokens.subrange(1, tokens.len() as int);
        match tokens[0] {
            Delta::B(b) => match apply_model(rest, t) {
                Ok(s) => Ok(seq![b] + s),
                Err(e) => Err(e),
            },
            Delta::I(i) => if !index_present(t, i) {
                Err(DiffError::UnknownIndex(i))
            } else {
                match apply_model(rest, t) {
                    Ok(s) => Ok(lookup_bytes(t, i) + s),
                    Err(e) => Err(e),
                }
            },
        }
    }
}

/// A copy of the chunk bytes of some entry whose ordinal is `i`, or `None`
/// when no entry carries `i`.
pub fn get_data(i: u32, signatures: &HashMap<u32, Signature>) -> (r: Option<Vec<u8>>)
    ensures
        match r {
            Some(bytes) => exists|w: u32|
                #[trigger] signatures@.contains_key(w) && signatures@[w].index == i
                    && bytes@ == signatures@[w].bytes@,
            None => forall|w: u32|
                #[trigger] signatures@.contains_key(w) ==> signatures@[w].index != i,
        },
{
    for kv in it: signatures.iter()
        invariant
            it.seq() == vstd::std_specs::hash::spec_hash_map_iter(signatures).remaining(),
            forall|j: int| 0 <= j < it.index() ==> (#[trigger] it.seq()[j]).1.index != i,
    {
        let (_key, val) = kv;
        if val.index == i {
            proof {
                let v = vstd::std_specs::hash::spec_hash_map_iter(signatures).remaining();
                assert(kv == v[it.index()]);
                assert(signatures@.contains_key(*v[it.index()].0));
                assert(signatures@[*v[it.index()].0] == *v[it.index()].1);
            }
            return Some(slice_to_vec(val.bytes.as_slice()));
        }
    }
    proof {
        let v = vstd::std_specs::hash::spec_hash_map_iter(signatures).remaining();
        assert forall|w: u32| #[trigger] signatures@.contains_key(w) implies signatures@[w].index
            != i by {
            assert(v.contains((&w, &signatures@[w])));
            let j = choose|j: int| 0 <= j < v.len() && v[j] == (&w, &signatures@[w]);
            assert(v[j].1.index != i);
        }
    }
    None
}

/// Replay `delta` against `signatures` and return the reconstructed bytes.
/// Fails with `UnknownIndex` exactly when a token refers to an ordinal that
/// no entry carries; when the table's ordinals are unique — as generated
/// tables' are — the result is exactly the modelled reconstruction.
pub fn apply_delta(delta: &Vec<Delta>, signatures: &HashMap<u32, Signature>) -> (r: Result<
    Vec<u8>,
    DiffError,
>)
    ensures
        ({
            let model = apply_model(delta@, table_view(signatures@));
            &&& r is Ok <==> model is Ok
            &&& (r is Err ==> r->Err_0 == model->Err_0)
            &&& (indices_unique(table_view(signatures@)) && r is Ok ==> r->Ok_0@ == model->Ok_0)
        }),
{
    let ghost t = table_view(signatures@);
    let n: usize = delta.len();
    let mut output: Vec<u8> = Vec::new();
    let mut j: usize = 0;

    proof {
        assert(delta@.subrange(0, n as int) =~= delta@);
    }
    while j < n
        invariant
            j <= n,
            n == delta@.len(),
            t == table_view(signatures@),
            ({
                let m_full = apply_model(delta@, t);
                let m_rem = apply_model(delta@.subrange(j as int, n as int), t);
                &&& (m_full is Ok <==> m_rem is Ok)
                &&& (m_rem is Err ==> m_full->Err_0 == m_rem->Err_0)
                &&& (indices_unique(t) && m_full is Ok ==> m_full->Ok_0 == output@ + m_rem->Ok_0)
            }),
        decreases n - j,
    {
        let ghost rem = delta@.subrange(j as int, n as int);
        proof {
            assert(rem.len() == n - j >= 1);
            assert(rem[0] == delta@[j as int]);
            assert(rem.subrange(1, rem.len() as int) =~= delta@.subrange(j + 1, n as int));
        }
        let token = &delta[j];
        match token {
            Delta::B(b) => {
                let ghost opre = output@;
                output.push(*b);
                proof {
                    if indices_unique(t) && apply_model(rem, t) is Ok {
                        let s = apply_model(rem.subrange(1, rem.len() as int), t)->Ok_0;
                        assert((opre + (seq![rem[0]->B_0] + s)) =~= (opre.push(rem[0]->B_0) + s));
                    }
                }
            },
            Delta::I(idx) => {
                match get_data(*idx, signatures) {
                    Some(mut data) => {
                        proof {
                            let w = choose|w: u32|
                                #[trigger] signatures@.contains_key(w) && signatures@[w].index
                                    == *idx && data@ == signatures@[w].bytes@;
                            assert(t.contains_key(w) && t[w].index == *idx);
                            assert(index_present(t, *idx));
                            if indices_unique(t) {
                                let w2 = choose|w2: u32|
                                    #[trigger] t.contains_key(w2) && t[w2].index == *idx;
                                assert(t.contains_key(w2) && t[w2].index == *idx);
                                assert(w2 == w);
                                assert(data@ == lookup_bytes(t, *idx));
                            }
                        }
                        let ghost opre = output@;
                        output.append(&mut data);
                        proof {
                            if indices_unique(t) && apply_model(rem, t) is Ok {
                                let s = apply_model(rem.subrange(1, rem.len() as int), t)->Ok_0;
                                assert((opre + (lookup_bytes(t, *idx) + s)) =~= ((opre
                                    + lookup_bytes(t, *idx)) + s));
                            }
                        }
                    },
                    None => {
                        proof {
                            assert(!index_present(t, *idx)) by {
                                if index_present(t, *idx) {
                                    let w = choose|w: u32|
                                        #[trigger] t.contains_key(w) && t[w].index == *idx;
                                    assert(signatures@.contains_key(w));
                                    assert(signatures@[w].index == *idx);
                                }
                            }
                            assert(apply_model(rem, t) == Err::<Seq<u8>, DiffError>(
                                DiffError::UnknownIndex(*idx),
                            ));
                        }
                        return Err(DiffError::UnknownIndex(*idx));
                    },
                }
            },
        }
        j = j + 1;
    }

    proof {
        assert(delta@.subrange(n as int, n as int) =~= Seq::<Delta>::empty());
        let m_full = apply_model(delta@, t);
        if indices_unique(t) && m_full is Ok {
            assert(output@ + Seq::<u8>::empty() =~= output@);
        }
    }
    Ok(output)
}

} // verus!
