//! The Adler-32 sum required by the zlib wrapper.
//!
//! Two running sums: `a`, seeded 1, and `b`, seeded 0, each reduced modulo
//! 65521 after every byte; within one byte `b` is folded with the already
//! updated `a`.  The emitted value is `b` in the high half and `a` in the low
//! half.

use vstd::prelude::*;

verus! {

/// The largest prime below 2^16, the Adler-32 modulus.
pub const MOD_ADLER: u32 = 65521;

/// The pair of sums after folding a byte sequence, starting from `(a, b)`.
pub open spec fn adler_fold(a: int, b: int, s: Seq<u8>) -> (int, int)
    decreases s.len(),
{
    if s.len() == 0 {
        (a, b)
    } else {
        let a2 = (a + s[0]) % 65521;
        let b2 = (a2 + b) % 65521;
        adler_fold(a2, b2, s.skip(1))
    }
}

/// The Adler-32 check value of a byte sequence.
pub open spec fn spec_adler32(s: Seq<u8>) -> u32 {
    (adler_fold(1, 0, s).1 * 0x10000 + adler_fold(1, 0, s).0) as u32
}

/// Folding one more byte at the end applies one reduction step.
pub proof fn lemma_adler_fold_push(a: int, b: int, s: Seq<u8>, x: u8)
    ensures
        adler_fold(a, b, s.push(x)) == {
            let p = adler_fold(a, b, s);
            let a2 = (p.0 + x) % 65521;
            ((a2, (a2 + p.1) % 65521))
        },
    decreases s.len(),
{
    if s.len() == 0 {
        assert(s.push(x)[0] == x);
        assert(s.push(x).skip(1) =~= Seq::<u8>::empty());
        let a2 = (a + x) % 65521;
        let b2 = (a2 + b) % 65521;
        assert(adler_fold(a2, b2, Seq::<u8>::empty()) == ((a2, b2)));
    } else {
        assert(s.push(x)[0] == s[0]);
        assert(s.push(x).skip(1) =~= s.skip(1).push(x));
        let a2 = (a + s[0]) % 65521;
        let b2 = (a2 + b) % 65521;
        lemma_adler_fold_push(a2, b2, s.skip(1), x);
    }
}

/// A fold over a concatenation is the fold of the second part started from
/// the fold of the first.
pub proof fn lemma_adler_fold_concat(a: int, b: int, s: Seq<u8>, t: Seq<u8>)
    ensures
        adler_fold(a, b, s + t) == adler_fold(adler_fold(a, b, s).0, adler_fold(a, b, s).1, t),
    decreases s.len(),
{
    if s.len() == 0 {
        assert(s + t =~= t);
    } else {
        assert((s + t)[0] == s[0]);
        assert((s + t).skip(1) =~= s.skip(1) + t);
        let a2 = (a + s[0]) % 65521;
        let b2 = (a2 + b) % 65521;
        lemma_adler_fold_concat(a2, b2, s.skip(1), t);
    }
}

/// Starting from in-range sums, the folded sums stay in range.
pub proof fn lemma_adler_fold_in_range(a: int, b: int, s: Seq<u8>)
    requires
        0 <= a < 65521,
        0 <= b < 65521,
    ensures
        0 <= adler_fold(a, b, s).0 < 65521,
        0 <= adler_fold(a, b, s).1 < 65521,
    decreases s.len(),
{
    if s.len() == 0 {
    } else {
        let a2 = (a + s[0]) % 65521;
        let b2 = (a2 + b) % 65521;
        lemma_adler_fold_in_range(a2, b2, s.skip(1));
    }
}

/// Adler-32 engine: the two running sums.
pub struct Adler32 {
    a: u32,
    b: u32,
}

impl Adler32 {
    /// Both sums are reduced modulo 65521.
    pub closed spec fn wf(&self) -> bool {
        &&& self.a < 65521
        &&& self.b < 65521
    }

    /// The pair of running sums.
    pub closed spec fn sums(&self) -> (int, int) {
        (self.a as int, self.b as int)
    }

    /// A fresh engine with seeded sums.
    pub fn new() -> (c: Adler32)
        ensures
            c.wf(),
            c.sums() == (1int, 0int),
    {
        Adler32 { a: 1, b: 0 }
    }

    /// Reseeds the sums for an independent computation.
    pub fn start(&mut self)
        ensures
            final(self).wf(),
            final(self).sums() == (1int, 0int),
    {
        self.a = 1;
        self.b = 0;
    }

    /// Folds the bytes of `buf`, in order, into the sums.
    pub fn update(&mut self, buf: &[u8])
        requires
            old(self).wf(),
        ensures
            final(self).wf(),
            final(self).sums() == adler_fold(old(self).sums().0, old(self).sums().1, buf@),
    {
        let ghost a0 = self.a as int;
        let ghost b0 = self.b as int;
        let mut k: usize = 0;
        while k < buf.len()
            invariant
                self.wf(),
                k <= buf@.len(),
                self.sums() == adler_fold(a0, b0, buf@.take(k as int)),
            decreases buf@.len() - k,
        {
            let x = buf[k];
            self.a = (self.a + x as u32) % MOD_ADLER;
            self.b = (self.a + self.b) % MOD_ADLER;
            proof {
                lemma_adler_fold_push(a0, b0, buf@.take(k as int), x);
                assert(buf@.take(k + 1) =~= buf@.take(k as int).push(buf@[k as int]));
            }
            k += 1;
        }
        assert(buf@.take(buf@.len() as int) =~= buf@);
    }

    /// The check value for the bytes folded so far: `b` in the high half,
    /// `a` in the low half.  Leaves the state as it is.
    pub fn finalize(&self) -> (r: u32)
        requires
            self.wf(),
        ensures
            r == self.sums().1 * 0x10000 + self.sums().0,
    {
        let r = (self.b << 16u32) | self.a;
        proof {
            let a = self.a;
            let b = self.b;
            assert(a < 65521 && b < 65521 ==> ((b << 16u32) | a) == b * 0x10000 + a)
                by (bit_vector);
        }
        r
    }

    /// One-shot check value of `buf`: start, update, finalize.
    pub fn crc(&mut self, buf: &[u8]) -> (r: u32)
        ensures
            final(self).wf(),
            r == spec_adler32(buf@),
    {
        self.start();
        self.update(buf);
        proof {
            lemma_adler_fold_in_range(1, 0, buf@);
        }
        self.finalize()
    }
}

} // verus!
