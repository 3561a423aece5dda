//! The ISO-HDLC CRC-32 used by every PNG chunk.
//!
//! The engine keeps a 256-entry lookup table, built once by `new`, and a
//! running accumulator.  A computation is `start`, any number of `update`
//! calls, then `finalize`; `crc` is the one-shot composition.  The spec
//! functions below state the table entries and the byte-by-byte fold exactly,
//! so the check value of a byte sequence is pinned down bit for bit.

use vstd::prelude::*;

verus! {

/// The reflected CRC-32 polynomial.
pub const CRC32_POLY: u32 = 0xedb88320;

/// One shift round of the table construction: shift right, folding in the
/// polynomial when the low bit was set.
pub open spec fn crc_shift(v: u32) -> u32 {
    if v & 1 != 0 {
        CRC32_POLY ^ (v >> 1)
    } else {
        v >> 1
    }
}

/// `n` shift rounds applied to `v`.
pub open spec fn crc_shift_n(v: u32, n: nat) -> u32
    decreases n,
{
    if n == 0 {
        v
    } else {
        crc_shift(crc_shift_n(v, (n - 1) as nat))
    }
}

/// Entry `i` of the lookup table: `i` taken through eight shift rounds.
pub open spec fn crc_table_entry(i: u32) -> u32 {
    crc_shift_n(i, 8)
}

/// Folding one byte into the accumulator.
pub open spec fn crc_step(v: u32, b: u8) -> u32 {
    crc_table_entry((v ^ b as u32) & 0xff) ^ (v >> 8)
}

/// Folding a byte sequence into the accumulator, in input order.
pub open spec fn crc_fold(v: u32, s: Seq<u8>) -> u32
    decreases s.len(),
{
    if s.len() == 0 {
        v
    } else {
        crc_fold(crc_step(v, s[0]), s.skip(1))
    }
}

/// The CRC-32 check value of a byte sequence: fold from the all-ones seed,
/// then invert.
pub open spec fn spec_crc32(s: Seq<u8>) -> u32 {
    crc_fold(0xffffffffu32, s) ^ 0xffffffffu32
}

/// Folding one more byte at the end goes through `crc_step`.
pub proof fn lemma_crc_fold_push(v: u32, s: Seq<u8>, b: u8)
    ensures
        crc_fold(v, s.push(b)) == crc_step(crc_fold(v, s), b),
    decreases s.len(),
{
    if s.len() == 0 {
        assert(s.push(b)[0] == b);
        assert(s.push(b).skip(1) =~= Seq::<u8>::empty());
        assert(crc_fold(crc_step(v, b), Seq::<u8>::empty()) == crc_step(v, b));
    } else {
        assert(s.push(b)[0] == s[0]);
        assert(s.push(b).skip(1) =~= s.skip(1).push(b));
        lemma_crc_fold_push(crc_step(v, s[0]), s.skip(1), b);
    }
}

/// A fold over a concatenation is the fold of the second part started from
/// the fold of the first.
pub proof fn lemma_crc_fold_concat(v: u32, s: Seq<u8>, t: Seq<u8>)
    ensures
        crc_fold(v, s + t) == crc_fold(crc_fold(v, s), t),
    decreases s.len(),
{
    if s.len() == 0 {
        assert(s + t =~= t);
    } else {
        assert((s + t)[0] == s[0]);
        assert((s + t).skip(1) =~= s.skip(1) + t);
        lemma_crc_fold_concat(crc_step(v, s[0]), s.skip(1), t);
    }
}

/// CRC-32 engine: the fixed lookup table and the running accumulator.
pub struct Crc32 {
    table: Vec<u32>,
    value: u32,
}

impl Crc32 {
    /// The table holds its 256 specified entries.
    pub closed spec fn wf(&self) -> bool {
        &&& self.table@.len() == 256
        &&& forall|k: int| 0 <= k < 256 ==> self.table@[k] == crc_table_entry(k as u32)
    }

    /// The running accumulator.
    pub closed spec fn acc(&self) -> u32 {
        self.value
    }

    /// Builds the lookup table and seeds the accumulator.
    pub fn new() -> (c: Crc32)
        ensures
            c.wf(),
            c.acc() == 0xffffffffu32,
    {
        let mut table: Vec<u32> = Vec::new();
        let mut i: usize = 0;
        while i < 256
            invariant
                i <= 256,
                table@.len() == i,
                forall|k: int| 0 <= k < i ==> table@[k] == crc_table_entry(k as u32),
            decreases 256 - i,
        {
            let mut v: u32 = i as u32;
            let mut j: usize = 0;
            while j < 8
                invariant
                    i < 256,
                    j <= 8,
                    v == crc_shift_n(i as u32, j as nat),
                decreases 8 - j,
            {
                v = if v & 1 != 0 {
                    CRC32_POLY ^ (v >> 1)
                } else {
                    v >> 1
                };
                j += 1;
            }
            table.push(v);
            i += 1;
        }
        Crc32 { table, value: 0xffffffff }
    }

    /// Reseeds the accumulator for an independent computation.
    pub fn start(&mut self)
        requires
            old(self).wf(),
        ensures
            final(self).wf(),
            final(self).acc() == 0xffffffffu32,
    {
        self.value = 0xffffffff;
    }

    /// Folds the bytes of `buf`, in order, into the accumulator.
    pub fn update(&mut self, buf: &[u8])
        requires
            old(self).wf(),
        ensures
            final(self).wf(),
            final(self).acc() == crc_fold(old(self).acc(), buf@),
    {
        let ghost v0 = self.value;
        let mut k: usize = 0;
        while k < buf.len()
            invariant
                self.wf(),
                k <= buf@.len(),
                self.acc() == crc_fold(v0, buf@.take(k as int)),
            decreases buf@.len() - k,
        {
            let b = buf[k];
            let x = (self.value ^ (b as u32)) & 0xff;
            proof {
                let sv = self.value;
                assert((sv ^ (b as u32)) & 0xff < 256) by (bit_vector);
            }
            self.value = self.table[x as usize] ^ (self.value >> 8);
            proof {
                lemma_crc_fold_push(v0, buf@.take(k as int), b);
                assert(buf@.take(k + 1) =~= buf@.take(k as int).push(buf@[k as int]));
            }
            k += 1;
        }
        assert(buf@.take(buf@.len() as int) =~= buf@);
    }

    /// The check value for the bytes folded so far; leaves the state as it is.
    pub fn finalize(&mut self) -> (r: u32)
        ensures
            *final(self) == *old(self),
            r == old(self).acc() ^ 0xffffffffu32,
    {
        self.value ^ 0xffffffff
    }

    /// One-shot check value of `buf`: start, update, finalize.
    pub fn crc(&mut self, buf: &[u8]) -> (r: u32)
        requires
            old(self).wf(),
        ensures
            final(self).wf(),
            r == spec_crc32(buf@),
    {
        self.start();
        self.update(buf);
        self.finalize()
    }
}

} // verus!
