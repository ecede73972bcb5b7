//! Tests of the ring arithmetic, the transform round trip, compression and
//! sampling.

use kemkem::ring::{Ring, RingRepresentation, Compressed};
use kemkem::sample::{sample_ntt, sample_poly_cbd};

fn ring_with(f: impl Fn(usize) -> u16, t: RingRepresentation) -> Ring {
    let mut r = Ring::new(t);
    for i in 0..256 {
        r.data[i] = f(i) % 3329;
    }
    r
}

#[test]
fn test_ntt_round_trip() {
    let mut r = ring_with(|i| (i as u16 * 7 + 3) % 3329, RingRepresentation::Degree255);
    let original = r.data.clone();
    r.ntt();
    assert_eq!(r.t, RingRepresentation::NTT);
    assert_ne!(r.data, original);
    r.inverse_ntt();
    assert_eq!(r.t, RingRepresentation::Degree255);
    assert_eq!(r.data, original);
}

#[test]
fn test_compress_decompress_bound() {
    for &d in &[1usize, 4, 5, 10, 11] {
        let p: u32 = 1 << d;
        let max_dist = (3328 + p) / (2 * p);
        let mut x: u32 = 0;
        while x < 3329 {
            let r = ring_with(
                |i| (((x as usize + i).min(3328)) as u16),
                RingRepresentation::Degree255,
            );
            let original = r.data.clone();
            let back = Compressed::<Ring>::compress(r, d).decompress();
            for i in 0..256 {
                let a = original[i] as u32;
                let b = back.data[i] as u32;
                let diff = if a >= b { a - b } else { b - a };
                let dist = diff.min(3329 - diff);
                assert!(
                    dist <= max_dist,
                    "d={} x={} back={} dist={} allowed={}",
                    d,
                    a,
                    b,
                    dist,
                    max_dist
                );
            }
            x += 256;
        }
    }
}

#[test]
fn test_compress_exact_values() {
    let zero = ring_with(|_| 0, RingRepresentation::Degree255);
    let c = Compressed::<Ring>::compress(zero, 1);
    assert_eq!(c.value.data[0], 0);
    let back = c.decompress();
    assert_eq!(back.data[0], 0);

    let half = ring_with(|_| 1664, RingRepresentation::Degree255);
    let c = Compressed::<Ring>::compress(half, 1);
    assert_eq!(c.value.data[0], 1);
    let back = c.decompress();
    assert_eq!(back.data[0], 1665);
}

#[test]
fn test_mult_formula() {
    let a = ring_with(|_| 1, RingRepresentation::NTT);
    let b = ring_with(|_| 1, RingRepresentation::NTT);
    let gammas = Ring::get_zeta_powers_mult();
    let mut prod = a;
    prod.mult(&b);
    for i in 0..128 {
        assert_eq!(prod.data[2 * i], (1 + gammas[i]) % 3329);
        assert_eq!(prod.data[2 * i + 1], 2);
    }
}

#[test]
fn test_add_sub_inverse() {
    let a = ring_with(|i| (i as u16 * 31 + 5) % 3329, RingRepresentation::Degree255);
    let b = ring_with(|i| (i as u16 * 13 + 11) % 3329, RingRepresentation::Degree255);
    let expected = a.data.clone();
    let mut c = a;
    c.add(&b);
    c.sub(&b);
    assert_eq!(c.data, expected);
}

#[test]
fn test_sample_uniform_validity() {
    // Exhaustive range check over all 256 outputs, for several streams.
    let seed = vec![0x42u8; 32];
    for row in 0..2u8 {
        for col in 0..2u8 {
            let r = sample_ntt(&seed, row, col);
            assert_eq!(r.t, RingRepresentation::NTT);
            assert_eq!(r.data.len(), 256);
            for i in 0..256 {
                assert!(r.data[i] < 3329);
            }
        }
    }
    // The sampler is a deterministic function of seed and position, and
    // different positions give different elements.
    let r1 = sample_ntt(&seed, 0, 0);
    let r2 = sample_ntt(&seed, 0, 0);
    let r3 = sample_ntt(&seed, 0, 1);
    assert_eq!(r1.data, r2.data);
    assert_ne!(r1.data, r3.data);
}

#[test]
fn test_cbd_exact() {
    // All-zero bytes give the zero ring; all-ones give zero as well, since
    // the two bit sums cancel.
    let zeros = vec![0u8; 128];
    let r = sample_poly_cbd(&zeros, 2);
    assert!(r.data.iter().all(|&c| c == 0));
    let ones = vec![0xffu8; 128];
    let r = sample_poly_cbd(&ones, 2);
    assert!(r.data.iter().all(|&c| c == 0));
    // The first window 0b0011 sums x = 2, y = 0: coefficient 2.
    let mut bytes = vec![0u8; 128];
    bytes[0] = 0b0000_0011;
    let r = sample_poly_cbd(&bytes, 2);
    assert_eq!(r.data[0], 2);
    // A bit in the y half gives Q - 1.
    let mut bytes = vec![0u8; 128];
    bytes[0] = 0b0000_0100;
    let r = sample_poly_cbd(&bytes, 2);
    assert_eq!(r.data[0], 3328);
}

#[test]
fn test_ntt_exact_delta() {
    // The constant polynomial 1 reduces to the residue (1, 0) modulo every
    // quadratic factor: ones in the even slots, zeros in the odd ones.
    let mut r = Ring::new(RingRepresentation::Degree255);
    r.data[0] = 1;
    r.ntt();
    for i in 0..256 {
        assert_eq!(r.data[i], if i % 2 == 0 { 1 } else { 0 });
    }
    r.inverse_ntt();
    assert_eq!(r.data[0], 1);
    assert!(r.data[1..].iter().all(|&c| c == 0));
}
