//! Tests of the hash collaborators through their public wrappers: fixed
//! output lengths, determinism, and sensitivity to the input.

use kemkem::crypt::{g, h, j, prf, random_bytes};

#[test]
fn test_h_hashes() {
    let x = vec![7u8; 32];
    let d1 = h(&x);
    let d2 = h(&x);
    assert_eq!(d1.len(), 32);
    // Deterministic, and not the input handed back unchanged.
    assert_eq!(d1, d2);
    assert_ne!(d1, x);
    let mut y = x.clone();
    y[0] ^= 1;
    assert_ne!(h(&y), d1);
}

#[test]
fn test_g_splits_and_hashes() {
    let c = vec![3u8; 64];
    let (a, b) = g(&c);
    assert_eq!(a.len(), 32);
    assert_eq!(b.len(), 32);
    assert_ne!(a, b);
    assert_ne!(a, c[..32].to_vec());
    assert_ne!(b, c[32..].to_vec());
    let (a2, _b2) = g(&c);
    assert_eq!(a, a2);
}

#[test]
fn test_j_and_prf_streams() {
    let s = vec![1u8; 32];
    let r = j(&s);
    assert_eq!(r.len(), 32);
    assert_ne!(r, s);
    // The PRF is an extendable stream: a longer read extends a shorter one.
    let p1 = prf(&s, 0, 64);
    let p2 = prf(&s, 0, 128);
    assert_eq!(p2.len(), 128);
    assert_eq!(p1[..], p2[..64]);
    // A different counter byte gives a different stream.
    let p3 = prf(&s, 1, 64);
    assert_ne!(p1, p3);
}

#[test]
fn test_random_bytes_len() {
    let a = random_bytes(32);
    assert_eq!(a.len(), 32);
    let b = random_bytes(32);
    // Two draws of fresh entropy almost surely differ.
    assert_ne!(a, b);
}
