use crate::algorithm::{weak_hash, weak_hash_of, Algorithm};
use crate::error::DiffError;
use crate::utils::{blake2s_of, bytes_eq, get_blake2};
use std::collections::HashMap;
use vstd::arithmetic::div_mod::{
    lemma_div_is_ordered, lemma_div_multiples_vanish, lemma_fundamental_div_mod_converse_div,
};
use vstd::pervasive::unreached;
use vstd::prelude::*;
use vstd::slice::{slice_subrange, slice_to_vec};

verus! {

broadcast use vstd::std_specs::hash::group_hash_axioms;

/// One signed chunk of the old buffer: its ordinal in the chunk partition,
/// its strong checksum, and the chunk bytes themselves.
#[derive(Clone, Debug)]
pub struct Signature {
    pub index: u32,
    pub checksum: Vec<u8>,
    pub bytes: Vec<u8>,
}

/// The mathematical content of a `Signature`.
pub struct SigView {
    pub index: u32,
    pub checksum: Seq<u8>,
    pub bytes: Seq<u8>,
}

impl View for Signature {
    type V = SigView;

    open spec fn view(&self) -> SigView {
        SigView { index: self.index, checksum: self.checksum@, bytes: self.bytes@ }
    }
}

/// A signature table as a map of mathematical entries.
pub open spec fn table_view(m: Map<u32, Signature>) -> Map<u32, SigView> {
    m.map_values(|s: Signature| s@)
}

/// Number of whole chunks of size `c` in `data`.
pub open spec fn num_chunks(data: Seq<u8>, c: int) -> int {
    data.len() as int / c
}

/// Chunk `j` of `data`: the bytes at `j*c .. j*c + c`.
pub open spec fn chunk_of(data: Seq<u8>, c: int, j: int) -> Seq<u8> {
    data.subrange(j * c, j * c + c)
}

/// The signature table after the first `k` chunks of `data`. A chunk whose
/// weak hash is already a key leaves the table unchanged, whether it is a
/// duplicate or a colliding chunk: the first-seen entry wins. The ordinal
/// counter advances for every chunk, so dropped chunks leave index gaps.
pub open spec fn sig_model_upto(data: Seq<u8>, c: int, algo: Algorithm, k: int) -> Map<
    u32,
    SigView,
>
    decreases k,
{
    if k <= 0 {
        Map::empty()
    } else {
        let prev = sig_model_upto(data, c, algo, k - 1);
        let chunk = chunk_of(data, c, k - 1);
        let w = weak_hash_of(algo, chunk);
        if prev.contains_key(w) {
            prev
        } else {
            prev.insert(
                w,
                SigView { index: (k - 1) as u32, checksum: blake2s_of(chunk), bytes: chunk },
            )
        }
    }
}

/// The signature table of `data` under chunk size `c` and algorithm `algo`.
pub open spec fn sig_model(data: Seq<u8>, c: int, algo: Algorithm) -> Map<u32, SigView> {
    sig_model_upto(data, c, algo, num_chunks(data, c))
}

/// Weak-hash collisions among the first `k` chunks: chunks whose weak hash
/// is already keyed, by an entry with different bytes.
pub open spec fn collisions_upto(data: Seq<u8>, c: int, algo: Algorithm, k: int) -> int
    decreases k,
{
    if k <= 0 {
        0
    } else {
        let prev = sig_model_upto(data, c, algo, k - 1);
        let chunk = chunk_of(data, c, k - 1);
        let w = weak_hash_of(algo, chunk);
        collisions_upto(data, c, algo, k - 1) + if prev.contains_key(w) && prev[w].bytes != chunk {
            1int
        } else {
            0int
        }
    }
}

/// The number of weak-hash collisions met while signing `data`.
pub open spec fn sig_collisions(data: Seq<u8>, c: int, algo: Algorithm) -> int {
    collisions_upto(data, c, algo, num_chunks(data, c))
}

proof fn lemma_table_view_insert(m: Map<u32, Signature>, k: u32, v: Signature)
    ensures
        table_view(m.insert(k, v)) == table_view(m).insert(k, v@),
{
    assert(table_view(m.insert(k, v)) =~= table_view(m).insert(k, v@));
}

impl Signature {
    /// Sign one `chunk`: key it by its weak hash under `algorithm`, with the
    /// given ordinal `index` and its BLAKE2s checksum. If the weak hash is
    /// already keyed, the table is left unchanged; the result is `Ok(true)`
    /// exactly when the stored bytes differ (a weak-hash collision).
    pub fn add_next_sign(
        algorithm: Algorithm,
        index: u32,
        chunk: &[u8],
        signatures: &mut HashMap<u32, Signature>,
    ) -> (r: Result<bool, DiffError>)
        ensures
            ({
                let w = weak_hash_of(algorithm, chunk@);
                let old_t = table_view(old(signatures)@);
                let new_t = table_view(final(signatures)@);
                &&& if !old_t.contains_key(w) {
                    &&& new_t == old_t.insert(
                        w,
                        SigView { index, checksum: blake2s_of(chunk@), bytes: chunk@ },
                    )
                    &&& r == Ok::<bool, DiffError>(false)
                } else {
                    &&& new_t == old_t
                    &&& r == Ok::<bool, DiffError>(old_t[w].bytes != chunk@)
                }
            }),
    {
        let weak = weak_hash(algorithm, chunk);

        let checksum = match get_blake2(slice_to_vec(chunk)) {
            Ok(digest) => digest,
            Err(_) => unreached(),
        };
        let bytes = slice_to_vec(chunk);

        if signatures.contains_key(&weak) {
            // The hash is already keyed; confirm whether it is the same
            // chunk or a collision. Either way the first entry stays.
            match signatures.get(&weak) {
                Some(sign) => {
                    if !bytes_eq(bytes.as_slice(), sign.bytes.as_slice()) {
                        return Ok(true);
                    } else {
                        return Ok(false);
                    }
                },
                None => unreached(),
            }
        }

        let signature = Signature { index, checksum, bytes };

        signatures.insert(weak, signature);
        proof {
            lemma_table_view_insert(old(signatures)@, weak, signature);
        }

        Ok(false)
    }

    /// Walk `data` in strides of `chunk_size` and sign every whole chunk;
    /// trailing bytes shorter than a chunk are ignored. Returns the table
    /// keyed by weak hash and the number of weak-hash collisions, which are
    /// reported rather than fatal.
    pub fn gen_sigs(data: &Vec<u8>, chunk_size: usize, algorithm: Algorithm) -> (r: Result<
        (HashMap<u32, Signature>, u32),
        DiffError,
    >)
        requires
            chunk_size >= 1,
            data@.len() as int / (chunk_size as int) <= u32::MAX,
        ensures
            r is Ok,
            table_view(r->Ok_0.0@) == sig_model(data@, chunk_size as int, algorithm),
            r->Ok_0.1 == sig_collisions(data@, chunk_size as int, algorithm),
    {
        let n: usize = data.len();
        let mut signatures: HashMap<u32, Signature> = HashMap::new();
        let mut signature_index: u32 = 0;
        let mut collisions: u32 = 0;
        let mut index: usize = 0;

        proof {
            assert(table_view(signatures@) =~= sig_model_upto(
                data@,
                chunk_size as int,
                algorithm,
                0,
            ));
        }

        while n - index >= chunk_size
            invariant
                1 <= chunk_size,
                n == data@.len(),
                index <= n,
                index == signature_index * chunk_size,
                signature_index <= num_chunks(data@, chunk_size as int) <= u32::MAX,
                collisions <= signature_index,
                table_view(signatures@) == sig_model_upto(
                    data@,
                    chunk_size as int,
                    algorithm,
                    signature_index as int,
                ),
                collisions == collisions_upto(
                    data@,
                    chunk_size as int,
                    algorithm,
                    signature_index as int,
                ),
            decreases n - index,
        {
            let ghost c = chunk_size as int;
            let ghost k = signature_index as int;
            let chunk = slice_subrange(data.as_slice(), index, index + chunk_size);
            proof {
                assert(chunk@ == chunk_of(data@, c, k));
                assert(c * (k + 1) == k * c + c) by (nonlinear_arith);
                lemma_div_is_ordered(c * (k + 1), n as int, c);
                lemma_div_multiples_vanish(k + 1, c);
                assert(k + 1 <= num_chunks(data@, c));
            }
            let result = match Signature::add_next_sign(
                algorithm,
                signature_index,
                chunk,
                &mut signatures,
            ) {
                Ok(collided) => collided,
                Err(_) => unreached(),
            };
            if result {
                collisions = collisions + 1;
            }
            signature_index = signature_index + 1;
            index = index + chunk_size;
        }

        proof {
            let c = chunk_size as int;
            let k = signature_index as int;
            lemma_fundamental_div_mod_converse_div(n as int, c, k, n - k * c);
            assert(k == num_chunks(data@, c));
        }

        Ok((signatures, collisions))
    }
}

} // verus!
