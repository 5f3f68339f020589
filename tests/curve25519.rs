use libshabal::curve25519::{IsCanonicalPublicKey, IsCanonicalSignature, Sign};

const ORDER: [u8; 32] = [
    237, 211, 245, 92, 26, 99, 18, 88, 214, 156, 247, 162, 222, 249, 222, 20, 0, 0, 0, 0, 0, 0, 0, 0, 0, 0, 0, 0,
    0, 0, 0, 16,
];

fn small(n: u8) -> [u8; 32] {
    let mut r = [0u8; 32];
    r[0] = n;
    r
}

fn prime() -> [u8; 32] {
    let mut p = [255u8; 32];
    p[0] = 237;
    p[31] = 127;
    p
}

#[test]
fn signature_below_order_is_canonical() {
    let mut below = ORDER;
    below[0] -= 1;
    assert!(IsCanonicalSignature(&below));
    assert!(IsCanonicalSignature(&[0u8; 32]));
}

#[test]
fn signature_at_or_above_order_is_not_canonical() {
    assert!(!IsCanonicalSignature(&ORDER));
    assert!(!IsCanonicalSignature(&[255u8; 32]));
    let mut above = ORDER;
    above[16] = 1;
    assert!(!IsCanonicalSignature(&above));
}

#[test]
fn public_key_below_prime_is_canonical() {
    assert!(IsCanonicalPublicKey(&small(9)));
    let mut below = prime();
    below[0] = 236;
    assert!(IsCanonicalPublicKey(&below));
}

#[test]
fn public_key_at_or_above_prime_is_not_canonical() {
    assert!(!IsCanonicalPublicKey(&prime()));
    let mut above = prime();
    above[0] = 250;
    assert!(!IsCanonicalPublicKey(&above));
    let mut top_bit = small(9);
    top_bit[31] = 0x80;
    assert!(!IsCanonicalPublicKey(&top_bit));
}

#[test]
fn sign_small_values() {
    let mut v = [0xEEu8; 32];
    assert!(Sign(&mut v, &small(1), &small(3), &small(5)));
    assert_eq!(v, small(10));
}

#[test]
fn sign_wraps_negative_difference() {
    let mut v = [0u8; 32];
    assert!(Sign(&mut v, &small(1), &small(0), &small(1)));
    let mut expected = ORDER;
    expected[0] -= 1;
    assert_eq!(v, expected);
}

#[test]
fn sign_reduces_inputs_modulo_order() {
    let mut x = ORDER;
    x[0] += 2;
    let mut v = [0u8; 32];
    assert!(Sign(&mut v, &small(0), &x, &small(7)));
    assert_eq!(v, small(14));
}

#[test]
fn sign_of_equal_values_is_unusable() {
    let mut v = [1u8; 32];
    assert!(!Sign(&mut v, &small(42), &small(42), &small(9)));
    assert_eq!(v, [0u8; 32]);
    let mut w = [1u8; 32];
    assert!(!Sign(&mut w, &small(3), &small(8), &ORDER));
    assert_eq!(w, [0u8; 32]);
}
