use crate::error::DiffError;
use crate::rolling::{
    lemma_accumulate_mod, lemma_slide_mod, lemma_slide_sums, sum_bytes, wsum,
};
use vstd::arithmetic::div_mod::{
    lemma_add_mod_noop_right, lemma_mod_add_multiples_vanish, lemma_mod_bound,
};
use vstd::prelude::*;
use vstd::slice::slice_to_vec;

verus! {

pub const MOD: u32 = 65535;

/// First Fletcher-32 accumulator over window `s`: the byte sum mod 65535.
/// This is the byte-wise variant: bytes feed the accumulators one at a time.
pub open spec fn fletcher_a(s: Seq<u8>) -> int {
    sum_bytes(s) % (MOD as int)
}

/// Second Fletcher-32 accumulator over window `s`: the running first
/// accumulator summed after every byte, which unrolls to the
/// position-weighted byte sum, mod 65535.
pub open spec fn fletcher_b(s: Seq<u8>) -> int {
    wsum(s) % (MOD as int)
}

/// The Fletcher-32 value of window `s`: second accumulator in the high 16
/// bits, first in the low 16.
pub open spec fn fletcher_hash(s: Seq<u8>) -> u32 {
    (fletcher_b(s) * 0x10000 + fletcher_a(s)) as u32
}

/// Rolling Fletcher-32 state: two accumulators and the window they cover.
pub struct Fletcher32 {
    a: u32,
    b: u32,
    current_window: Vec<u8>,
}

impl Fletcher32 {
    /// The accumulators match the current window.
    pub closed spec fn wf(&self) -> bool {
        &&& self.a == fletcher_a(self.current_window@)
        &&& self.b == fletcher_b(self.current_window@)
    }

    pub closed spec fn window(&self) -> Seq<u8> {
        self.current_window@
    }

    pub fn new() -> (r: Self)
        ensures
            r.wf(),
            r.window() == Seq::<u8>::empty(),
    {
        let r = Fletcher32 { a: 0, b: 0, current_window: Vec::new() };
        proof {
            assert(sum_bytes(r.current_window@) == 0);
            assert(wsum(r.current_window@) == 0);
        }
        r
    }

    /// Reset the accumulators, consume every byte of `chunk`, adopt `chunk`
    /// as the current window, and return its hash.
    pub fn get_chunk_hash(&mut self, chunk: &[u8]) -> (r: Result<u32, DiffError>)
        ensures
            final(self).wf(),
            final(self).window() == chunk@,
            r == Ok::<u32, DiffError>(fletcher_hash(chunk@)),
    {
        self.a = 0;
        self.b = 0;
        let n: usize = chunk.len();
        let mut i: usize = 0;
        proof {
            assert(chunk@.take(0) =~= Seq::<u8>::empty());
            assert(sum_bytes(chunk@.take(0)) == 0);
            assert(wsum(chunk@.take(0)) == 0);
        }
        while i < n
            invariant
                i <= n,
                n == chunk@.len(),
                self.a == fletcher_a(chunk@.take(i as int)),
                self.b == fletcher_b(chunk@.take(i as int)),
            decreases n - i,
        {
            let byte: u8 = chunk[i];
            proof {
                lemma_mod_bound(sum_bytes(chunk@.take(i as int)), MOD as int);
                lemma_mod_bound(wsum(chunk@.take(i as int)), MOD as int);
            }
            self.a = (self.a + byte as u32) % MOD;
            self.b = (self.b + self.a) % MOD;
            proof {
                let t = chunk@.take(i as int);
                lemma_accumulate_mod(MOD as int, 0, t, byte);
                assert(0 * t.len() == 0);
                assert(0 * (t.len() + 1) == 0);
                assert(t.push(byte) =~= chunk@.take(i + 1));
            }
            i = i + 1;
        }
        proof {
            assert(chunk@.take(n as int) =~= chunk@);
        }
        self.current_window = slice_to_vec(chunk);
        match self.get_current_hash() {
            Ok(hash) => Ok(hash),
            Err(e) => Err(e),
        }
    }

    /// Slide the window by one byte in constant time: append `new_byte`, drop
    /// the oldest byte, and return the hash of the new window. The modular
    /// subtractions add the modulus first, so no intermediate value ever goes
    /// negative.
    pub fn get_rolling_hash(&mut self, new_byte: &u8) -> (r: Result<u32, DiffError>)
        requires
            old(self).wf(),
            old(self).window().len() >= 1,
        ensures
            final(self).wf(),
            final(self).window() == old(self).window().subrange(
                1,
                old(self).window().len() as int,
            ).push(*new_byte),
            r == Ok::<u32, DiffError>(fletcher_hash(final(self).window())),
    {
        let ghost w = self.current_window@;
        let x: u8 = *new_byte;
        let n: usize = self.current_window.len();
        let w0: u8 = self.current_window[0];
        let m64: u64 = MOD as u64;
        proof {
            lemma_mod_bound(sum_bytes(w), MOD as int);
            lemma_mod_bound(wsum(w), MOD as int);
        }
        let a0: u64 = self.a as u64;
        let b0: u64 = self.b as u64;
        // Add the entering byte.
        let a_mid: u64 = (a0 + x as u64) % m64;
        let b_mid: u64 = (b0 + a_mid) % m64;
        // Remove the leaving byte; it was counted once in `a` and, through
        // `a`, `n + 1` times in `b` (including the step that just added `x`).
        let nm: u64 = ((n % (MOD as usize)) as u64 + 1) % m64;
        proof {
            lemma_mod_bound((n % (MOD as usize)) as int + 1, MOD as int);
            assert(nm < MOD as u64);
            vstd::arithmetic::mul::lemma_mul_upper_bound(nm as int, 65534, w0 as int, 255);
        }
        let a_fin: u64 = (a_mid + m64 - (w0 as u64) % m64) % m64;
        let b_fin: u64 = (b_mid + m64 - (nm * (w0 as u64)) % m64) % m64;
        proof {
            let m = MOD as int;
            lemma_mod_bound(a_fin as int, m);
            lemma_mod_bound(b_fin as int, m);
        }
        self.a = a_fin as u32;
        self.b = b_fin as u32;
        self.current_window.push(x);
        self.current_window.remove(0);
        proof {
            let m = MOD as int;
            let nI = w.len() as int;
            let wp = w.subrange(1, nI).push(x);
            lemma_slide_sums(w, x);
            lemma_add_mod_noop_right(1, nI, m);
            assert(nm == (nI + 1) % m);
            lemma_mod_add_multiples_vanish(b0 as int + a_mid as int, m);
            assert(b_mid as int == (b0 as int + a_mid as int + m as int - 0) % m);
            lemma_slide_mod(m, 0, sum_bytes(w), wsum(w), nI, x as int, w0 as int);
            assert(0 * nI == 0);
            assert(a_fin == sum_bytes(wp) % m);
            assert(b_fin == wsum(wp) % m);
            assert(wp.len() == nI);
            assert(w.push(x).remove(0) =~= wp);
            assert(self.current_window@ == wp);
        }
        match self.get_current_hash() {
            Ok(hash) => Ok(hash),
            Err(e) => Err(e),
        }
    }

    /// The hash of the current window, without mutating the state.
    pub fn get_current_hash(&self) -> (r: Result<u32, DiffError>)
        requires
            self.wf(),
        ensures
            r == Ok::<u32, DiffError>(fletcher_hash(self.window())),
    {
        proof {
            lemma_mod_bound(sum_bytes(self.current_window@), MOD as int);
            lemma_mod_bound(wsum(self.current_window@), MOD as int);
        }
        let hash: u32 = (self.b << 16u32) | self.a;
        proof {
            let a = self.a;
            let b = self.b;
            assert((b << 16u32) | a == b * 0x10000 + a) by (bit_vector)
                requires
                    a < 0x10000u32,
                    b < 0x10000u32,
            ;
        }
        Ok(hash)
    }

    /// The bytes the accumulators currently cover.
    pub fn get_current_window(&self) -> (r: Result<&Vec<u8>, DiffError>)
        ensures
            r is Ok,
            r->Ok_0@ == self.window(),
    {
        Ok(&self.current_window)
    }
}

} // verus!
