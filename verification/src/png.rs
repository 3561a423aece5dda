//! Serializing an RGBA8 pixel buffer as an uncompressed PNG file.
//!
//! `encode` emits the fixed signature, then the IHDR, IDAT and IEND chunks.
//! Each chunk is the big-endian length of its data, the four-byte tag, the
//! data, and the CRC-32 of tag and data.  The IDAT payload is the scanline
//! stream wrapped by `zlib::compress`; the scanline stream prefixes every
//! row with a zero filter byte and walks the rows of the input buffer from
//! the last to the first, so the emitted image is the input flipped
//! vertically.

use crate::bytes::lemma_be_round_trip;
use crate::bytes::push_u32_be;
use crate::bytes::spec_be_val;
use crate::bytes::spec_u32_to_be;
use crate::crc32::Crc32;
use crate::crc32::lemma_crc_fold_concat;
use crate::crc32::spec_crc32;
use crate::zlib::compress;
use crate::zlib::spec_compress;
use crate::zlib::spec_num_chunks;
use vstd::prelude::*;

verus! {

/// The eight fixed bytes every PNG file starts with.
pub open spec fn spec_png_signature() -> Seq<u8> {
    seq![0x89u8, 0x50u8, 0x4eu8, 0x47u8, 0x0du8, 0x0au8, 0x1au8, 0x0au8]
}

/// The IHDR chunk tag.
pub open spec fn spec_ihdr_tag() -> Seq<u8> {
    seq![0x49u8, 0x48u8, 0x44u8, 0x52u8]
}

/// The IDAT chunk tag.
pub open spec fn spec_idat_tag() -> Seq<u8> {
    seq![0x49u8, 0x44u8, 0x41u8, 0x54u8]
}

/// The IEND chunk tag.
pub open spec fn spec_iend_tag() -> Seq<u8> {
    seq![0x49u8, 0x45u8, 0x4eu8, 0x44u8]
}

/// One serialized chunk: big-endian data length, tag, data, and the CRC-32
/// of tag and data, big-endian.
pub open spec fn spec_chunk(tag: Seq<u8>, data: Seq<u8>) -> Seq<u8> {
    spec_u32_to_be(data.len() as u32) + tag + data + spec_u32_to_be(spec_crc32(tag + data))
}

/// The 13 data bytes of the IHDR chunk: width and height big-endian, bit
/// depth 8, color type 6 (truecolor with alpha), then compression, filter
/// and interlace method, each 0.
pub open spec fn spec_ihdr_data(width: u32, height: u32) -> Seq<u8> {
    spec_u32_to_be(width) + spec_u32_to_be(height) + seq![8u8, 6u8, 0u8, 0u8, 0u8]
}

/// The scanline stream of the bottom `rows` rows of the pixel buffer, walked
/// from the last row to the first, each row prefixed with filter byte 0.
pub open spec fn spec_scanlines(pixels: Seq<u8>, width: int, rows: int) -> Seq<u8>
    decreases rows,
{
    if rows <= 0 {
        Seq::empty()
    } else {
        seq![0u8] + pixels.subrange(4 * width * (rows - 1), 4 * width * rows)
            + spec_scanlines(pixels, width, rows - 1)
    }
}

/// The byte length of the scanline stream of a whole image.
pub open spec fn spec_scanline_len(width: u32, height: u32) -> int {
    (height as int) * (1 + 4 * (width as int))
}

/// The byte length of the IDAT payload for a whole image.
pub open spec fn spec_idat_len(width: u32, height: u32) -> int {
    2 + 5 * spec_num_chunks(spec_scanline_len(width, height)) + spec_scanline_len(width, height)
        + 4
}

/// The whole PNG file for a pixel buffer: signature, IHDR, IDAT, IEND.
pub open spec fn spec_png_bytes(pixels: Seq<u8>, width: u32, height: u32) -> Seq<u8> {
    spec_png_signature() + spec_chunk(spec_ihdr_tag(), spec_ihdr_data(width, height))
        + spec_chunk(
        spec_idat_tag(),
        spec_compress(spec_scanlines(pixels, width as int, height as int)),
    ) + spec_chunk(spec_iend_tag(), Seq::<u8>::empty())
}

/// The scanline stream is one filter byte plus `4 * width` pixel bytes per
/// row.
pub proof fn lemma_scanlines_len(pixels: Seq<u8>, width: int, rows: int)
    requires
        width >= 0,
        rows >= 0,
        pixels.len() >= 4 * width * rows,
    ensures
        spec_scanlines(pixels, width, rows).len() == rows * (1 + 4 * width),
    decreases rows,
{
    if rows <= 0 {
        assert(rows * (1 + 4 * width) == 0) by (nonlinear_arith)
            requires
                rows == 0,
        ;
    } else {
        assert(4 * width * (rows - 1) >= 0) by (nonlinear_arith)
            requires
                width >= 0,
                rows >= 1,
        ;
        assert(4 * width * (rows - 1) <= 4 * width * rows) by (nonlinear_arith)
            requires
                width >= 0,
                rows >= 1,
        ;
        lemma_scanlines_len(pixels, width, rows - 1);
        assert(4 * width * rows == 4 * width * (rows - 1) + 4 * width) by (nonlinear_arith);
        assert(rows * (1 + 4 * width) == (rows - 1) * (1 + 4 * width) + (1 + 4 * width))
            by (nonlinear_arith);
        assert(pixels.subrange(4 * width * (rows - 1), 4 * width * rows).len() == 4 * width);
    }
}

/// The chunk list a reader recovers from the bytes after the signature.
/// Each chunk's data length is read back from its length field, the CRC-32
/// is recomputed over tag and data and compared against the stored one, and
/// the tag/data pairs are returned in file order.  `None` when a length
/// overruns the stream or a CRC does not match.
pub open spec fn spec_parse_chunks(s: Seq<u8>) -> Option<Seq<(Seq<u8>, Seq<u8>)>>
    decreases s.len(),
{
    if s.len() == 0 {
        Some(Seq::empty())
    } else if s.len() < 12 {
        None
    } else {
        let n = spec_be_val(s.subrange(0, 4));
        if s.len() < 12 + n {
            None
        } else {
            let tag = s.subrange(4, 8);
            let data = s.subrange(8, 8 + n);
            if spec_be_val(s.subrange(8 + n, 12 + n)) != spec_crc32(tag + data) {
                None
            } else {
                match spec_parse_chunks(s.skip(12 + n)) {
                    Option::Some(rest) => Some(seq![(tag, data)] + rest),
                    Option::None => None,
                }
            }
        }
    }
}

/// The chunk list of a whole PNG file: the eight signature bytes first, then
/// the chunks.
pub open spec fn spec_parse_png(s: Seq<u8>) -> Option<Seq<(Seq<u8>, Seq<u8>)>> {
    if s.len() >= 8 && s.subrange(0, 8) == spec_png_signature() {
        spec_parse_chunks(s.skip(8))
    } else {
        None
    }
}

/// Parsing a serialized chunk reads its tag and data back and accepts its
/// CRC, whatever well-formed stream follows it.
pub proof fn lemma_parse_chunk(tag: Seq<u8>, data: Seq<u8>, rest: Seq<u8>, chunks: Seq<
    (Seq<u8>, Seq<u8>),
>)
    requires
        tag.len() == 4,
        data.len() <= u32::MAX,
        spec_parse_chunks(rest) == Some(chunks),
    ensures
        spec_parse_chunks(spec_chunk(tag, data) + rest) == Some(seq![(tag, data)] + chunks),
{
    let s = spec_chunk(tag, data) + rest;
    let n = data.len() as int;
    lemma_be_round_trip(data.len() as u32);
    lemma_be_round_trip(spec_crc32(tag + data));
    assert(s.subrange(0, 4) =~= spec_u32_to_be(data.len() as u32));
    assert(spec_be_val(s.subrange(0, 4)) == n);
    assert(s.subrange(4, 8) =~= tag);
    assert(s.subrange(8, 8 + n) =~= data);
    assert(s.subrange(8 + n, 12 + n) =~= spec_u32_to_be(spec_crc32(tag + data)));
    assert(s.skip(12 + n) =~= rest);
}

/// The file structure law: a produced file starts with the PNG signature
/// and parses into exactly three chunks, tagged IHDR, IDAT and IEND in that
/// order, each with the CRC-32 a reader recomputes over its tag and data.
pub proof fn lemma_png_structure(pixels: Seq<u8>, width: u32, height: u32)
    requires
        pixels.len() == 4 * (width as int) * (height as int),
        spec_idat_len(width, height) <= u32::MAX,
    ensures
        spec_parse_png(spec_png_bytes(pixels, width, height)) == Some(
            seq![
                (spec_ihdr_tag(), spec_ihdr_data(width, height)),
                (
                    spec_idat_tag(),
                    spec_compress(spec_scanlines(pixels, width as int, height as int)),
                ),
                (spec_iend_tag(), Seq::<u8>::empty()),
            ],
        ),
{
    let scan = spec_scanlines(pixels, width as int, height as int);
    let idat = spec_compress(scan);
    let ihdr = spec_ihdr_data(width, height);
    let none: Seq<u8> = Seq::empty();
    lemma_scanlines_len(pixels, width as int, height as int);
    crate::zlib::lemma_compress_len(scan);
    assert(idat.len() == spec_idat_len(width, height));
    let c_iend = spec_chunk(spec_iend_tag(), none);
    let c_idat = spec_chunk(spec_idat_tag(), idat);
    let c_ihdr = spec_chunk(spec_ihdr_tag(), ihdr);
    let empty_tail: Seq<u8> = Seq::empty();
    assert(spec_parse_chunks(empty_tail) == Some(Seq::<(Seq<u8>, Seq<u8>)>::empty()));
    assert(c_iend + empty_tail =~= c_iend);
    lemma_parse_chunk(spec_iend_tag(), none, empty_tail, Seq::empty());
    lemma_parse_chunk(spec_idat_tag(), idat, c_iend, seq![(spec_iend_tag(), none)]);
    lemma_parse_chunk(
        spec_ihdr_tag(),
        ihdr,
        c_idat + c_iend,
        seq![(spec_idat_tag(), idat)] + seq![(spec_iend_tag(), none)],
    );
    let s = spec_png_bytes(pixels, width, height);
    assert(s.subrange(0, 8) =~= spec_png_signature());
    assert(s.skip(8) =~= c_ihdr + (c_idat + c_iend));
    assert(seq![(spec_ihdr_tag(), ihdr)] + (seq![(spec_idat_tag(), idat)] + seq![
        (spec_iend_tag(), none),
    ]) =~= seq![
        (spec_ihdr_tag(), ihdr),
        (spec_idat_tag(), idat),
        (spec_iend_tag(), none),
    ]);
}

/// The IHDR law: the first eight data bytes of the IHDR chunk decode back to
/// the width and the height, and the two bytes after them are bit depth 8
/// and color type 6.
pub proof fn lemma_ihdr_decodes(width: u32, height: u32)
    ensures
        spec_be_val(spec_ihdr_data(width, height).subrange(0, 4)) == width,
        spec_be_val(spec_ihdr_data(width, height).subrange(4, 8)) == height,
        spec_ihdr_data(width, height)[8] == 8,
        spec_ihdr_data(width, height)[9] == 6,
{
    assert(spec_ihdr_data(width, height).subrange(0, 4) =~= spec_u32_to_be(width));
    assert(spec_ihdr_data(width, height).subrange(4, 8) =~= spec_u32_to_be(height));
    lemma_be_round_trip(width);
    lemma_be_round_trip(height);
}

/// Appends one serialized chunk for `tag` and `data` to `out`.
fn png_pack(out: &mut Vec<u8>, tag: &[u8; 4], data: &[u8])
    requires
        data@.len() <= u32::MAX,
    ensures
        final(out)@ == old(out)@ + spec_chunk(tag@, data@),
{
    let ts: &[u8] = vstd::array::array_as_slice(tag);
    push_u32_be(out, data.len() as u32);
    out.push(ts[0]);
    out.push(ts[1]);
    out.push(ts[2]);
    out.push(ts[3]);
    let ghost head = out@;
    assert(head =~= old(out)@ + spec_u32_to_be(data@.len() as u32) + tag@);
    let mut q: usize = 0;
    while q < data.len()
        invariant
            q <= data@.len(),
            out@ == head + data@.take(q as int),
        decreases data@.len() - q,
    {
        let b = data[q];
        out.push(b);
        assert(out@ =~= head + data@.take(q + 1));
        q += 1;
    }
    assert(data@.take(data@.len() as int) =~= data@);
    let mut crc = Crc32::new();
    crc.start();
    crc.update(ts);
    crc.update(data);
    proof {
        lemma_crc_fold_concat(0xffffffffu32, tag@, data@);
    }
    let v = crc.finalize();
    push_u32_be(out, v);
    assert(out@ =~= old(out)@ + spec_chunk(tag@, data@));
}

/// Builds the scanline stream: rows of the pixel buffer from the last to the
/// first, each prefixed with filter byte 0.
fn build_scanlines(image: &[u8], width: u32, height: u32) -> (r: Vec<u8>)
    requires
        height >= 1,
        image@.len() == 4 * (width as int) * (height as int),
        spec_scanline_len(width, height) <= u32::MAX,
    ensures
        r@ == spec_scanlines(image@, width as int, height as int),
{
    proof {
        assert((height as int) * (1 + 4 * (width as int)) >= 1 + 4 * (width as int))
            by (nonlinear_arith)
            requires
                height >= 1,
                width >= 0,
        ;
    }
    let ilen = image.len();
    let row_bytes: usize = (width as usize) * 4;
    let mut raw: Vec<u8> = Vec::new();
    let mut j: u32 = 0;
    while j < height
        invariant
            j <= height,
            height >= 1,
            ilen == image@.len(),
            row_bytes == 4 * (width as int),
            image@.len() == 4 * (width as int) * (height as int),
            spec_scanline_len(width, height) <= u32::MAX,
            raw@ + spec_scanlines(image@, width as int, (height - j) as int) == spec_scanlines(
                image@,
                width as int,
                height as int,
            ),
        decreases height - j,
    {
        let ghost raw0 = raw@;
        let row = height - 1 - j;
        proof {
            assert((row as int) * (4 * (width as int)) == 4 * (width as int) * (row as int))
                by (nonlinear_arith);
            assert((row as int + 1) * (4 * (width as int)) == 4 * (width as int) * (row as int)
                + 4 * (width as int)) by (nonlinear_arith);
            assert((row as int + 1) * (4 * (width as int)) <= (height as int) * (4 * (
            width as int))) by (nonlinear_arith)
                requires
                    row as int + 1 <= height as int,
                    width >= 0,
            ;
            assert((height as int) * (4 * (width as int)) == 4 * (width as int) * (
            height as int)) by (nonlinear_arith);
            assert((row as int) * (4 * (width as int)) <= (row as int + 1) * (4 * (
            width as int))) by (nonlinear_arith)
                requires
                    width >= 0,
                    row as int >= 0,
            ;
        }
        let start: usize = (row as usize) * row_bytes;
        raw.push(0);
        let ghost head = raw@;
        let mut t: usize = 0;
        while t < row_bytes
            invariant
                t <= row_bytes,
                ilen == image@.len(),
                start + row_bytes <= ilen,
                raw@ == head + image@.subrange(start as int, start as int + t),
            decreases row_bytes - t,
        {
            let b = image[start + t];
            raw.push(b);
            assert(raw@ =~= head + image@.subrange(start as int, start as int + t + 1));
            t += 1;
        }
        proof {
            let w = width as int;
            let rows_left = (height - j) as int;
            assert(spec_scanlines(image@, w, rows_left) == seq![0u8] + image@.subrange(
                4 * w * (rows_left - 1),
                4 * w * rows_left,
            ) + spec_scanlines(image@, w, rows_left - 1));
            assert(4 * w * (rows_left - 1) == start as int);
            assert(4 * w * rows_left == 4 * w * (rows_left - 1) + 4 * w) by (nonlinear_arith);
            assert(raw@ =~= raw0 + (seq![0u8] + image@.subrange(
                4 * w * (rows_left - 1),
                4 * w * rows_left,
            )));
            assert(raw0 + (seq![0u8] + image@.subrange(4 * w * (rows_left - 1), 4 * w * rows_left))
                + spec_scanlines(image@, w, rows_left - 1) =~= raw0 + spec_scanlines(
                image@,
                w,
                rows_left,
            ));
        }
        j += 1;
    }
    assert(raw@ + spec_scanlines(image@, width as int, 0) =~= raw@);
    raw
}

/// Serializes the pixel buffer as a complete PNG file.
///
/// The buffer holds tightly packed R, G, B, A bytes, row-major.  Rows are
/// emitted from the last to the first, as `spec_scanlines` states.  The
/// bound on `spec_idat_len` is forced by the 32-bit chunk length field of
/// the PNG format.
pub fn encode(image: &[u8], width: u32, height: u32) -> (r: Vec<u8>)
    requires
        height >= 1,
        image@.len() == 4 * (width as int) * (height as int),
        spec_idat_len(width, height) <= u32::MAX,
    ensures
        r@ == spec_png_bytes(image@, width, height),
{
    let mut out: Vec<u8> = Vec::new();
    out.push(0x89);
    out.push(0x50);
    out.push(0x4e);
    out.push(0x47);
    out.push(0x0d);
    out.push(0x0a);
    out.push(0x1a);
    out.push(0x0a);
    assert(out@ =~= spec_png_signature());

    let mut ihdr: Vec<u8> = Vec::new();
    push_u32_be(&mut ihdr, width);
    push_u32_be(&mut ihdr, height);
    ihdr.push(8);
    ihdr.push(6);
    ihdr.push(0);
    ihdr.push(0);
    ihdr.push(0);
    assert(ihdr@ =~= spec_ihdr_data(width, height));
    png_pack(&mut out, &[0x49, 0x48, 0x44, 0x52], ihdr.as_slice());
    assert([0x49u8, 0x48u8, 0x44u8, 0x52u8]@ =~= spec_ihdr_tag());

    let raw = build_scanlines(image, width, height);
    proof {
        lemma_scanlines_len(image@, width as int, height as int);
    }
    let idat = compress(raw.as_slice());
    png_pack(&mut out, &[0x49, 0x44, 0x41, 0x54], idat.as_slice());
    assert([0x49u8, 0x44u8, 0x41u8, 0x54u8]@ =~= spec_idat_tag());

    let iend: Vec<u8> = Vec::new();
    png_pack(&mut out, &[0x49, 0x45, 0x4e, 0x44], iend.as_slice());
    assert([0x49u8, 0x45u8, 0x4eu8, 0x44u8]@ =~= spec_iend_tag());

    assert(out@ =~= spec_png_bytes(image@, width, height));
    out
}

} // verus!
