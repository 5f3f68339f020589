use libshabal::{shabal256_destroy, shabal256_digest, shabal256_new, shabal256_reset, shabal256_update};

fn digest_of(data: &[u8]) -> [u8; 32] {
    let mut h = shabal256_new();
    shabal256_update(&mut h, data, 0, data.len());
    let mut out = [0u8; 32];
    shabal256_digest(&mut h, &mut out, 0);
    shabal256_destroy(h);
    out
}

#[test]
fn pieces_digest_like_the_whole() {
    let data: Vec<u8> = (0..200u32).map(|i| (i * 13 % 256) as u8).collect();
    let mut h = shabal256_new();
    shabal256_update(&mut h, &data, 0, 70);
    shabal256_update(&mut h, &data, 70, 130);
    let mut out = [0u8; 40];
    shabal256_digest(&mut h, &mut out, 8);
    assert_eq!(&out[..8], &[0u8; 8][..]);
    assert_eq!(&out[8..], &digest_of(&data)[..]);
}

#[test]
fn digest_resets_the_hasher() {
    let mut h = shabal256_new();
    shabal256_update(&mut h, b"abc", 0, 3);
    let mut first = [0u8; 32];
    shabal256_digest(&mut h, &mut first, 0);
    let mut second = [0u8; 32];
    shabal256_digest(&mut h, &mut second, 0);
    assert_eq!(first, digest_of(b"abc"));
    assert_eq!(second, digest_of(b""));
    assert_ne!(first, second);
}

#[test]
fn reset_forgets_input() {
    let mut h = shabal256_new();
    shabal256_update(&mut h, b"xyz", 0, 3);
    shabal256_reset(&mut h);
    shabal256_update(&mut h, b"abc", 0, 3);
    let mut out = [0u8; 32];
    shabal256_digest(&mut h, &mut out, 0);
    assert_eq!(out, digest_of(b"abc"));
}

#[test]
fn digest_is_not_its_input() {
    let data = [0x11u8; 32];
    let d = digest_of(&data);
    assert_ne!(d, data);
    assert_ne!(d, [0u8; 32]);
}
