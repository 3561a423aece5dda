use stored_png::adler32::Adler32;
use stored_png::zlib::compress;

/// A minimal reader for zlib streams made of stored DEFLATE blocks: checks
/// the header, walks the blocks, recomputes the Adler-32 trailer.
fn inflate_stored(s: &[u8]) -> Option<Vec<u8>> {
    if s.len() < 2 || s[0] != 0x78 || s[1] != 0x01 {
        return None;
    }
    let mut pos = 2usize;
    let mut payload: Vec<u8> = Vec::new();
    loop {
        if s.len() < pos + 5 {
            return None;
        }
        let fin = s[pos];
        if fin > 1 {
            return None;
        }
        let len = s[pos + 1] as usize + 256 * (s[pos + 2] as usize);
        if s[pos + 3] != 0xff - s[pos + 1] || s[pos + 4] != 0xff - s[pos + 2] {
            return None;
        }
        pos += 5;
        if s.len() < pos + len {
            return None;
        }
        payload.extend_from_slice(&s[pos..pos + len]);
        pos += len;
        if fin == 1 {
            break;
        }
    }
    if s.len() != pos + 4 {
        return None;
    }
    let stored = ((s[pos] as u32) << 24)
        | ((s[pos + 1] as u32) << 16)
        | ((s[pos + 2] as u32) << 8)
        | (s[pos + 3] as u32);
    let mut adler = Adler32::new();
    if adler.crc(&payload) != stored {
        return None;
    }
    Some(payload)
}

fn expected_len(n: usize) -> usize {
    let chunks = n / 65530 + usize::from(n % 65530 != 0 || n == 0);
    2 + 5 * chunks + n + 4
}

#[test]
fn compress_empty_exact_bytes() {
    let out = compress(&[]);
    // header, one final empty block, Adler-32 of nothing (= 1)
    assert_eq!(out, vec![0x78, 0x01, 0x01, 0x00, 0x00, 0xff, 0xff, 0x00, 0x00, 0x00, 0x01]);
}

#[test]
fn compress_small_exact_bytes() {
    let out = compress(b"a");
    // Adler-32 of "a": a = 1 + 97 = 98, b = 98 -> 0x00620062
    assert_eq!(
        out,
        vec![0x78, 0x01, 0x01, 0x01, 0x00, 0xfe, 0xff, b'a', 0x00, 0x62, 0x00, 0x62]
    );
}

#[test]
fn compress_round_trips_small() {
    let data = b"the quick brown fox jumps over the lazy dog".to_vec();
    let out = compress(&data);
    assert_eq!(inflate_stored(&out), Some(data));
}

#[test]
fn compress_round_trips_empty() {
    let out = compress(&[]);
    assert_eq!(inflate_stored(&out), Some(Vec::new()));
}

#[test]
fn compress_round_trips_multi_block() {
    // long enough for three stored blocks
    let data: Vec<u8> = (0..140000u32).map(|i| (i % 251) as u8).collect();
    let out = compress(&data);
    assert_eq!(inflate_stored(&out), Some(data));
}

#[test]
fn compress_length_formula() {
    for n in [0usize, 1, 255, 65529, 65530, 65531, 131060, 131061] {
        let data = vec![7u8; n];
        let out = compress(&data);
        assert_eq!(out.len(), expected_len(n), "length for input of {} bytes", n);
    }
}

#[test]
fn compress_block_boundaries() {
    // exactly one full block: one final block, no second block
    let data = vec![3u8; 65530];
    let out = compress(&data);
    assert_eq!(out[2], 1); // final-block flag of the only block
    assert_eq!(out[3], 0xfa); // 65530 = 0xfffa little-endian
    assert_eq!(out[4], 0xff);
    // one byte more: a non-final full block, then a final 1-byte block
    let data = vec![3u8; 65531];
    let out = compress(&data);
    assert_eq!(out[2], 0);
    let second = 2 + 5 + 65530;
    assert_eq!(out[second], 1);
    assert_eq!(out[second + 1], 1);
    assert_eq!(out[second + 2], 0);
}
