use stored_png::adler32::Adler32;
use stored_png::crc32::Crc32;

#[test]
fn crc32_check_value() {
    let mut c = Crc32::new();
    assert_eq!(c.crc(b"123456789"), 0xCBF43926);
}

#[test]
fn crc32_empty_is_zero() {
    let mut c = Crc32::new();
    assert_eq!(c.crc(b""), 0);
}

#[test]
fn crc32_split_update_matches_one_shot() {
    let mut one = Crc32::new();
    let whole = one.crc(b"hello, world");
    let mut two = Crc32::new();
    two.start();
    two.update(b"hello");
    two.update(b", world");
    assert_eq!(two.finalize(), whole);
}

#[test]
fn crc32_finalize_does_not_mutate() {
    let mut c = Crc32::new();
    c.start();
    c.update(b"abc");
    let first = c.finalize();
    let second = c.finalize();
    assert_eq!(first, second);
}

#[test]
fn crc32_restart_gives_fresh_value() {
    let mut c = Crc32::new();
    let a = c.crc(b"123456789");
    let b = c.crc(b"123456789");
    assert_eq!(a, b);
}

#[test]
fn adler32_check_value() {
    let mut a = Adler32::new();
    assert_eq!(a.crc(b"Wikipedia"), 0x11E60398);
}

#[test]
fn adler32_empty_is_one() {
    let mut a = Adler32::new();
    assert_eq!(a.crc(b""), 1);
}

#[test]
fn adler32_split_update_matches_one_shot() {
    let mut one = Adler32::new();
    let whole = one.crc(b"stored blocks only");
    let mut two = Adler32::new();
    two.start();
    two.update(b"stored ");
    two.update(b"blocks only");
    assert_eq!(two.finalize(), whole);
}

#[test]
fn adler32_order_sensitive() {
    let mut a = Adler32::new();
    let ab = a.crc(b"ab");
    let ba = a.crc(b"ba");
    assert_ne!(ab, ba);
}
