//! Tests of the bit-reversal and modular-exponentiation helpers.

use kemkem::util::{bitrev7, fastmodpow};
use kemkem::params::ZETA;

#[test]
fn test_bitrev7() {
    assert_eq!(127, bitrev7(127));
    assert_eq!(1, bitrev7(64));
    assert_eq!(64, bitrev7(1));
    assert_eq!(0, bitrev7(0));
}

#[test]
fn test_fastmodpow() {
    assert_eq!(fastmodpow(ZETA, 1), ZETA);
    assert_eq!(fastmodpow(ZETA, 2), ZETA * ZETA);
    assert_eq!(fastmodpow(ZETA, 10), 650);
    assert_eq!(fastmodpow(ZETA, 100), 1476);
    assert_eq!(fastmodpow(ZETA, 255), 1175);
}

#[test]
fn test_bitrev7_involution() {
    for x in 0u8..128 {
        assert_eq!(bitrev7(bitrev7(x)), x);
    }
}
