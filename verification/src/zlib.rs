//! A zlib stream made only of DEFLATE "stored" blocks.
//!
//! `compress` wraps a byte buffer into a stream any standards-compliant
//! zlib/DEFLATE decoder can read, without compressing anything: a fixed
//! 2-byte header, the input cut into stored blocks of at most `CHUNK_SIZE`
//! bytes (an empty input still yields one empty block), and the big-endian
//! Adler-32 of the raw input as trailer.  Each stored block is a final-block
//! flag, the block length little-endian, the length's one's complement, then
//! the raw bytes.

use crate::adler32::Adler32;
use crate::adler32::adler_fold;
use crate::adler32::lemma_adler_fold_concat;
use crate::adler32::lemma_adler_fold_in_range;
use crate::adler32::spec_adler32;
use crate::bytes::push_u32_be;
use crate::bytes::spec_u32_to_be;
use vstd::prelude::*;
use vstd::slice::slice_subrange;
use vstd::arithmetic::div_mod::lemma_basic_div;
use vstd::arithmetic::div_mod::lemma_div_by_self;
use vstd::arithmetic::div_mod::lemma_div_plus_one;
use vstd::arithmetic::div_mod::lemma_mod_add_multiples_vanish;
use vstd::arithmetic::div_mod::lemma_mod_self_0;
use vstd::arithmetic::div_mod::lemma_small_mod;

verus! {

/// Largest stored-block payload the encoder emits, kept with headroom under
/// the 16-bit length field's maximum of 65535.
pub const CHUNK_SIZE: usize = 65530;

/// One stored block: final-block flag, payload length little-endian, the
/// one's complement of the length bytes, then the payload itself.
pub open spec fn spec_block(fin: u8, chunk: Seq<u8>) -> Seq<u8> {
    seq![
        fin,
        (chunk.len() % 256) as u8,
        ((chunk.len() / 256) % 256) as u8,
        (0xff - (chunk.len() % 256)) as u8,
        (0xff - ((chunk.len() / 256) % 256)) as u8,
    ] + chunk
}

/// The stored blocks covering `data`: full-size non-final blocks, then one
/// final block with whatever is left (possibly empty).
pub open spec fn spec_blocks(data: Seq<u8>) -> Seq<u8>
    decreases data.len(),
{
    if data.len() <= 65530 {
        spec_block(1, data)
    } else {
        spec_block(0, data.take(65530)) + spec_blocks(data.skip(65530))
    }
}

/// How many stored blocks cover `n` bytes: one per full `CHUNK_SIZE`, plus
/// one when a remainder is left over, with an empty input still taking one.
pub open spec fn spec_num_chunks(n: int) -> int {
    n / 65530 + if n % 65530 != 0 || n == 0 {
        1int
    } else {
        0int
    }
}

/// The whole zlib-wrapped stream for `data`.
pub open spec fn spec_compress(data: Seq<u8>) -> Seq<u8> {
    seq![0x78u8, 0x01u8] + spec_blocks(data) + spec_u32_to_be(spec_adler32(data))
}

/// The stored blocks take five framing bytes per block beside the data.
pub proof fn lemma_blocks_len(data: Seq<u8>)
    ensures
        spec_blocks(data).len() == 5 * spec_num_chunks(data.len() as int) + data.len(),
    decreases data.len(),
{
    let n = data.len() as int;
    if data.len() <= 65530 {
        if n == 0 {
            lemma_basic_div(0, 65530);
            lemma_small_mod(0, 65530);
        } else if n < 65530 {
            lemma_basic_div(n, 65530);
            lemma_small_mod(data.len(), 65530);
        } else {
            lemma_div_by_self(65530);
            lemma_mod_self_0(65530);
        }
    } else {
        lemma_blocks_len(data.skip(65530));
        assert(data.skip(65530).len() == n - 65530);
        lemma_div_plus_one(n - 65530, 65530);
        lemma_mod_add_multiples_vanish(n - 65530, 65530);
        assert(n % 65530 == (n - 65530) % 65530);
    }
}

/// The closed-form length of the compressed stream.
pub proof fn lemma_compress_len(data: Seq<u8>)
    ensures
        spec_compress(data).len() == 2 + 5 * spec_num_chunks(data.len() as int) + data.len()
            + 4,
{
    lemma_blocks_len(data);
}

/// What a standards-compliant DEFLATE reader recovers from a sequence of
/// stored blocks: the concatenated payloads, and the bytes that follow the
/// final block.  Each block must carry a valid final-block flag and a length
/// field whose one's complement matches, or the stream is rejected.
pub open spec fn spec_inflate_blocks(s: Seq<u8>) -> Option<(Seq<u8>, Seq<u8>)>
    decreases s.len(),
{
    if s.len() < 5 {
        None
    } else {
        let fin = s[0];
        let n = s[1] as int + 256 * (s[2] as int);
        if !(fin == 0 || fin == 1) {
            None
        } else if s[3] as int != 0xff - (s[1] as int) || s[4] as int != 0xff - (s[2] as int) {
            None
        } else if s.len() < 5 + n {
            None
        } else if fin == 1 {
            Some((s.subrange(5, 5 + n), s.skip(5 + n)))
        } else {
            match spec_inflate_blocks(s.skip(5 + n)) {
                Option::Some(pr) => Some((s.subrange(5, 5 + n) + pr.0, pr.1)),
                Option::None => None,
            }
        }
    }
}

/// What a standards-compliant zlib reader recovers from a stream: the header
/// is checked, the stored blocks are read, and the Adler-32 trailer is
/// compared against the payload.
pub open spec fn spec_inflate(s: Seq<u8>) -> Option<Seq<u8>> {
    if s.len() < 2 || s[0] != 0x78 || s[1] != 0x01 {
        None
    } else {
        match spec_inflate_blocks(s.skip(2)) {
            Option::Some(pr) => {
                if pr.1.len() == 4 && crate::bytes::spec_be_val(pr.1) == spec_adler32(pr.0) {
                    Some(pr.0)
                } else {
                    None
                }
            },
            Option::None => None,
        }
    }
}

/// A 16-bit value is its low byte plus 256 times its high byte.
proof fn lemma_len_bytes(n: int)
    requires
        0 <= n < 65536,
    ensures
        n % 256 + 256 * ((n / 256) % 256) == n,
        0 <= n % 256 < 256,
        0 <= (n / 256) % 256 < 256,
{
    vstd::arithmetic::div_mod::lemma_fundamental_div_mod(n, 256);
    vstd::arithmetic::div_mod::lemma_div_is_ordered(n, 65535, 256);
    lemma_basic_div(n / 256, 256);
    lemma_small_mod((n / 256) as nat, 256);
}

/// Reading the stored blocks of `data` back yields `data` exactly, and
/// leaves whatever followed them untouched.
pub proof fn lemma_blocks_round_trip(data: Seq<u8>, rest: Seq<u8>)
    ensures
        spec_inflate_blocks(spec_blocks(data) + rest) == Some((data, rest)),
    decreases data.len(),
{
    let s = spec_blocks(data) + rest;
    if data.len() <= 65530 {
        let n = data.len() as int;
        lemma_len_bytes(n);
        assert(s[1] as int + 256 * (s[2] as int) == n);
        assert(s.subrange(5, 5 + n) =~= data);
        assert(s.skip(5 + n) =~= rest);
    } else {
        let chunk = data.take(65530);
        let blocks_rest = spec_blocks(data.skip(65530));
        assert(spec_blocks(data) == spec_block(0, chunk) + blocks_rest);
        assert(s =~= (spec_block(0, chunk) + blocks_rest) + rest);
        lemma_len_bytes(65530);
        assert(s[1] as int + 256 * (s[2] as int) == 65530);
        lemma_blocks_len(data.skip(65530));
        assert(s.len() >= 5 + 65530);
        assert(s.subrange(5, 5 + 65530int) =~= chunk);
        assert(s.skip(5 + 65530int) =~= blocks_rest + rest);
        lemma_blocks_round_trip(data.skip(65530), rest);
        assert(chunk + data.skip(65530) =~= data);
    }
}

/// The round-trip law: inflating the compressed stream of any byte sequence
/// yields exactly that sequence, the empty one included.
pub proof fn lemma_compress_round_trip(data: Seq<u8>)
    ensures
        spec_inflate(spec_compress(data)) == Some(data),
{
    let s = spec_compress(data);
    let trailer = spec_u32_to_be(spec_adler32(data));
    assert(s[0] == 0x78 && s[1] == 0x01);
    assert(s.skip(2) =~= spec_blocks(data) + trailer);
    lemma_blocks_round_trip(data, trailer);
    crate::bytes::lemma_be_round_trip(spec_adler32(data));
}

/// Wraps `data` into a zlib stream of stored blocks; nothing is compressed.
pub fn compress(data: &[u8]) -> (r: Vec<u8>)
    ensures
        r@ == spec_compress(data@),
        r@.len() == 2 + 5 * spec_num_chunks(data@.len() as int) + data@.len() + 4,
{
    let len = data.len();
    let mut out: Vec<u8> = Vec::new();
    out.push(0x78);
    out.push(0x01);
    assert(out@ =~= seq![0x78u8, 0x01u8]);
    let mut adler = Adler32::new();
    let mut pos: usize = 0;
    assert(data@.skip(0) =~= data@);
    assert(data@.take(0) =~= Seq::<u8>::empty());
    loop
        invariant_except_break
            adler.wf(),
            len == data@.len(),
            pos <= len,
            adler.sums() == adler_fold(1, 0, data@.take(pos as int)),
            out@ + spec_blocks(data@.skip(pos as int)) == seq![0x78u8, 0x01u8] + spec_blocks(
                data@,
            ),
        ensures
            adler.wf(),
            adler.sums() == adler_fold(1, 0, data@),
            out@ == seq![0x78u8, 0x01u8] + spec_blocks(data@),
        decreases len - pos,
    {
        let ghost out0 = out@;
        let ghost tail = data@.skip(pos as int);
        let rem = len - pos;
        let chunk_len: usize = if rem < CHUNK_SIZE {
            rem
        } else {
            CHUNK_SIZE
        };
        let pos_next = pos + chunk_len;
        let is_last = pos_next == len;
        let chunk = slice_subrange(data, pos, pos_next);
        let fin: u8 = if is_last {
            1
        } else {
            0
        };
        let lo: u8 = (chunk_len % 256) as u8;
        let hi: u8 = ((chunk_len / 256) % 256) as u8;
        out.push(fin);
        out.push(lo);
        out.push(hi);
        out.push(0xff - lo);
        out.push(0xff - hi);
        let ghost framed = out@;
        assert(framed =~= out0 + seq![fin, lo, hi, (0xff - lo) as u8, (0xff - hi) as u8]);
        let mut q: usize = 0;
        while q < chunk.len()
            invariant
                q <= chunk@.len(),
                out@ == framed + chunk@.take(q as int),
            decreases chunk@.len() - q,
        {
            let b = chunk[q];
            out.push(b);
            assert(out@ =~= framed + chunk@.take(q + 1));
            q += 1;
        }
        assert(chunk@.take(chunk@.len() as int) =~= chunk@);
        adler.update(chunk);
        proof {
            lemma_adler_fold_concat(1, 0, data@.take(pos as int), chunk@);
            assert(data@.take(pos as int) + chunk@ =~= data@.take(pos_next as int));
            assert(out@ =~= out0 + spec_block(fin, chunk@));
        }
        if is_last {
            proof {
                assert(tail =~= chunk@);
                assert(spec_blocks(tail) == spec_block(1, chunk@));
                assert(data@.take(len as int) =~= data@);
            }
            break;
        }
        proof {
            assert(tail.len() > 65530);
            assert(spec_blocks(tail) == spec_block(0, tail.take(65530)) + spec_blocks(
                tail.skip(65530),
            ));
            assert(tail.take(65530) =~= chunk@);
            assert(tail.skip(65530) =~= data@.skip(pos_next as int));
            assert(out0 + (spec_block(0, chunk@) + spec_blocks(data@.skip(pos_next as int)))
                =~= (out0 + spec_block(0, chunk@)) + spec_blocks(data@.skip(pos_next as int)));
        }
        pos = pos_next;
    }
    proof {
        lemma_adler_fold_in_range(1, 0, data@);
    }
    let ad = adler.finalize();
    assert(ad == spec_adler32(data@));
    push_u32_be(&mut out, ad);
    proof {
        lemma_blocks_len(data@);
        assert(out@ =~= spec_compress(data@));
    }
    out
}

} // verus!
