use stored_png::adler32::Adler32;
use stored_png::bytes::u32_to_u8_be;
use stored_png::crc32::Crc32;
use stored_png::png::encode;

fn be32(s: &[u8]) -> u32 {
    ((s[0] as u32) << 24) | ((s[1] as u32) << 16) | ((s[2] as u32) << 8) | (s[3] as u32)
}

/// Splits a PNG file into its chunks, recomputing and checking every CRC-32
/// with the library's own engine.
fn parse_chunks(file: &[u8]) -> Vec<(Vec<u8>, Vec<u8>)> {
    assert_eq!(&file[..8], b"\x89PNG\r\n\x1a\n");
    let mut pos = 8usize;
    let mut chunks = Vec::new();
    while pos < file.len() {
        let len = be32(&file[pos..pos + 4]) as usize;
        let tag = file[pos + 4..pos + 8].to_vec();
        let data = file[pos + 8..pos + 8 + len].to_vec();
        let stored = be32(&file[pos + 8 + len..pos + 12 + len]);
        let mut crc = Crc32::new();
        crc.start();
        crc.update(&tag);
        crc.update(&data);
        assert_eq!(crc.finalize(), stored, "chunk CRC must match");
        chunks.push((tag, data));
        pos += 12 + len;
    }
    chunks
}

/// Reads the payload back out of a stored-block zlib stream, checking the
/// Adler-32 trailer with the library's own engine.
fn inflate(s: &[u8]) -> Vec<u8> {
    assert_eq!(s[0], 0x78);
    assert_eq!(s[1], 0x01);
    let mut pos = 2usize;
    let mut payload: Vec<u8> = Vec::new();
    loop {
        let fin = s[pos];
        assert!(fin <= 1);
        let len = s[pos + 1] as usize + 256 * (s[pos + 2] as usize);
        assert_eq!(s[pos + 3], 0xff - s[pos + 1]);
        assert_eq!(s[pos + 4], 0xff - s[pos + 2]);
        payload.extend_from_slice(&s[pos + 5..pos + 5 + len]);
        pos += 5 + len;
        if fin == 1 {
            break;
        }
    }
    let mut adler = Adler32::new();
    assert_eq!(adler.crc(&payload), be32(&s[pos..pos + 4]));
    assert_eq!(s.len(), pos + 4);
    payload
}

#[test]
fn u32_to_u8_be_splits() {
    assert_eq!(u32_to_u8_be(0x12345678), [0x12, 0x34, 0x56, 0x78]);
    assert_eq!(u32_to_u8_be(0), [0, 0, 0, 0]);
    assert_eq!(u32_to_u8_be(0xffffffff), [0xff, 0xff, 0xff, 0xff]);
}

#[test]
fn file_has_signature_and_three_chunks() {
    let image = vec![0u8; 4 * 3 * 2];
    let file = encode(&image, 3, 2);
    assert_eq!(&file[..8], &[0x89, 0x50, 0x4e, 0x47, 0x0d, 0x0a, 0x1a, 0x0a]);
    let chunks = parse_chunks(&file);
    assert_eq!(chunks.len(), 3);
    assert_eq!(chunks[0].0, b"IHDR");
    assert_eq!(chunks[1].0, b"IDAT");
    assert_eq!(chunks[2].0, b"IEND");
    assert_eq!(chunks[2].1.len(), 0);
}

#[test]
fn ihdr_fields_decode() {
    let image = vec![9u8; 4 * 5 * 7];
    let file = encode(&image, 5, 7);
    let chunks = parse_chunks(&file);
    let ihdr = &chunks[0].1;
    assert_eq!(ihdr.len(), 13);
    assert_eq!(be32(&ihdr[0..4]), 5);
    assert_eq!(be32(&ihdr[4..8]), 7);
    assert_eq!(ihdr[8], 8); // bit depth
    assert_eq!(ihdr[9], 6); // color type: truecolor with alpha
    assert_eq!(ihdr[10], 0);
    assert_eq!(ihdr[11], 0);
    assert_eq!(ihdr[12], 0);
}

#[test]
fn end_to_end_two_by_two() {
    let image = vec![
        // R     G     B     A
        0x00, 0x00, 0x00, 0xff, //
        0x10, 0x30, 0x50, 0xff, //
        //
        0x10, 0x30, 0x50, 0xff, //
        0x00, 0x00, 0x00, 0x00, //
    ];
    let file = encode(&image, 2, 2);
    let chunks = parse_chunks(&file);
    let scanlines = inflate(&chunks[1].1);
    // two rows, each one filter byte plus 8 pixel bytes
    assert_eq!(scanlines.len(), 2 * (1 + 8));
    assert_eq!(scanlines[0], 0);
    assert_eq!(scanlines[9], 0);
    let mut decoded: Vec<u8> = Vec::new();
    decoded.extend_from_slice(&scanlines[1..9]);
    decoded.extend_from_slice(&scanlines[10..18]);
    // the decoded image is the input with its row order reversed
    let mut flipped: Vec<u8> = Vec::new();
    flipped.extend_from_slice(&image[8..16]);
    flipped.extend_from_slice(&image[0..8]);
    assert_eq!(decoded, flipped);
}

#[test]
fn scanlines_reverse_rows() {
    // three rows of one pixel each, tagged by the red byte
    let image = vec![
        1, 0, 0, 255, //
        2, 0, 0, 255, //
        3, 0, 0, 255, //
    ];
    let file = encode(&image, 1, 3);
    let chunks = parse_chunks(&file);
    let scanlines = inflate(&chunks[1].1);
    assert_eq!(scanlines.len(), 3 * 5);
    assert_eq!(scanlines[1], 3); // last input row first
    assert_eq!(scanlines[6], 2);
    assert_eq!(scanlines[11], 1);
}

#[test]
fn one_pixel_image() {
    let image = vec![0xaa, 0xbb, 0xcc, 0xdd];
    let file = encode(&image, 1, 1);
    let chunks = parse_chunks(&file);
    let scanlines = inflate(&chunks[1].1);
    assert_eq!(scanlines, vec![0, 0xaa, 0xbb, 0xcc, 0xdd]);
}

#[test]
fn zero_width_image() {
    let image: Vec<u8> = Vec::new();
    let file = encode(&image, 0, 2);
    let chunks = parse_chunks(&file);
    let scanlines = inflate(&chunks[1].1);
    // two rows of nothing but their filter bytes
    assert_eq!(scanlines, vec![0, 0]);
}
