use crate::adler_32::{adler_hash, Adler32};
use crate::fletcher_32::{fletcher_hash, Fletcher32};
use vstd::pervasive::unreached;
use vstd::prelude::*;

verus! {

/// Which rolling checksum family computes the weak hashes. Signer, differ
/// and patcher must agree on the choice for a given exchange.
#[derive(Clone, Copy, Debug, PartialEq, Eq, Structural)]
pub enum Algorithm {
    Adler,
    Fletcher,
}

/// The weak hash of window `s` under the chosen algorithm.
pub open spec fn weak_hash_of(algo: Algorithm, s: Seq<u8>) -> u32 {
    match algo {
        Algorithm::Adler => adler_hash(s),
        Algorithm::Fletcher => fletcher_hash(s),
    }
}

/// A rolling hasher of either family, dispatched inline.
pub enum WeakHasher {
    Adler(Adler32),
    Fletcher(Fletcher32),
}

impl WeakHasher {
    /// The accumulators match the current window.
    pub closed spec fn wf(&self) -> bool {
        match self {
            WeakHasher::Adler(h) => h.wf(),
            WeakHasher::Fletcher(h) => h.wf(),
        }
    }

    pub closed spec fn window(&self) -> Seq<u8> {
        match self {
            WeakHasher::Adler(h) => h.window(),
            WeakHasher::Fletcher(h) => h.window(),
        }
    }

    pub closed spec fn algo(&self) -> Algorithm {
        match self {
            WeakHasher::Adler(_) => Algorithm::Adler,
            WeakHasher::Fletcher(_) => Algorithm::Fletcher,
        }
    }

    pub fn new(algo: Algorithm) -> (r: Self)
        ensures
            r.wf(),
            r.algo() == algo,
            r.window() == Seq::<u8>::empty(),
    {
        match algo {
            Algorithm::Adler => WeakHasher::Adler(Adler32::new()),
            Algorithm::Fletcher => WeakHasher::Fletcher(Fletcher32::new()),
        }
    }

    /// Reset to `chunk` as the window and return its weak hash.
    pub fn chunk_hash(&mut self, chunk: &[u8]) -> (r: u32)
        ensures
            final(self).wf(),
            final(self).algo() == old(self).algo(),
            final(self).window() == chunk@,
            r == weak_hash_of(old(self).algo(), chunk@),
    {
        match self {
            WeakHasher::Adler(h) => match h.get_chunk_hash(chunk) {
                Ok(w) => w,
                Err(_) => unreached(),
            },
            WeakHasher::Fletcher(h) => match h.get_chunk_hash(chunk) {
                Ok(w) => w,
                Err(_) => unreached(),
            },
        }
    }

    /// Slide the window one byte forward and return the new weak hash.
    pub fn rolling_hash(&mut self, new_byte: u8) -> (r: u32)
        requires
            old(self).wf(),
            old(self).window().len() >= 1,
        ensures
            final(self).wf(),
            final(self).algo() == old(self).algo(),
            final(self).window() == old(self).window().subrange(
                1,
                old(self).window().len() as int,
            ).push(new_byte),
            r == weak_hash_of(old(self).algo(), final(self).window()),
    {
        match self {
            WeakHasher::Adler(h) => match h.get_rolling_hash(&new_byte) {
                Ok(w) => w,
                Err(_) => unreached(),
            },
            WeakHasher::Fletcher(h) => match h.get_rolling_hash(&new_byte) {
                Ok(w) => w,
                Err(_) => unreached(),
            },
        }
    }

    /// A copy of the bytes the window currently covers.
    pub fn window_vec(&self) -> (r: Vec<u8>)
        ensures
            r@ == self.window(),
    {
        match self {
            WeakHasher::Adler(h) => match h.get_current_window() {
                Ok(w) => vstd::slice::slice_to_vec(w.as_slice()),
                Err(_) => unreached(),
            },
            WeakHasher::Fletcher(h) => match h.get_current_window() {
                Ok(w) => vstd::slice::slice_to_vec(w.as_slice()),
                Err(_) => unreached(),
            },
        }
    }
}

/// The weak hash of `chunk` under `algo`, computed by a fresh hasher.
pub fn weak_hash(algo: Algorithm, chunk: &[u8]) -> (r: u32)
    ensures
        r == weak_hash_of(algo, chunk@),
{
    match algo {
        Algorithm::Adler => {
            let mut hasher = Adler32::new();
            match hasher.get_chunk_hash(chunk) {
                Ok(w) => w,
                Err(_) => unreached(),
            }
        },
        Algorithm::Fletcher => {
            let mut hasher = Fletcher32::new();
            match hasher.get_chunk_hash(chunk) {
                Ok(w) => w,
                Err(_) => unreached(),
            }
        },
    }
}

} // verus!
