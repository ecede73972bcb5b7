//! Bit reversal and fast modular exponentiation, the two helpers beneath the
//! twiddle-factor tables of the number-theoretic transform.

use vstd::prelude::*;
use vstd::arithmetic::power::{pow, lemma_pow1, lemma_pow_multiplies, lemma_pow_mod_noop};
use vstd::arithmetic::div_mod::lemma_mul_mod_noop_general;

verus! {

/// The low seven bits of `x`, in reversed order.
pub open spec fn bitrev7_spec(x: u8) -> u8 {
    (((x & 1) << 6) | ((x & 2) << 4) | ((x & 4) << 2) | (x & 8) | ((x & 16) >> 2) | ((x & 32)
        >> 4) | ((x & 64) >> 6)) as u8
}

/// Reverses the low seven bits of `x`; bit 7 is discarded.
pub fn bitrev7(x: u8) -> (y: u8)
    ensures
        y == bitrev7_spec(x),
        y < 128,
{
    let y = ((x & 1) << 6) | ((x & 2) << 4) | ((x & 4) << 2) | (x & 8) | ((x & 16) >> 2) | ((x
        & 32) >> 4) | ((x & 64) >> 6);
    assert(y < 128) by (bit_vector)
        requires
            y == (((x & 1) << 6) | ((x & 2) << 4) | ((x & 4) << 2) | (x & 8) | ((x & 16) >> 2) | ((
            x & 32) >> 4) | ((x & 64) >> 6)),
    ;
    y
}

/// `base` raised to `exp`, reduced modulo `Q`, by square and multiply.
pub fn fastmodpow(base: u16, exp: u8) -> (r: u16)
    ensures
        r == pow(base as int, exp as nat) % (crate::params::Q as int),
{
    let mut b: u32 = base as u32;
    let mut e: u32 = exp as u32;
    let mut result: u32 = 1;

    proof {
        lemma_pow1(b as int);
    }

    while e > 0
        invariant
            result < 3329,
            b <= 0xffff,
            (result * pow(b as int, e as nat)) % 3329 == pow(base as int, exp as nat) % 3329,
        decreases e,
    {
        let ghost r0 = result as int;
        let ghost b0 = b as int;
        let ghost e0 = e as nat;
        let ghost eo: u32 = e;
        if e % 2 == 1 {
            assert(result * b < 0x1_0000_0000) by (nonlinear_arith)
                requires
                    result < 3329,
                    b <= 0xffff,
            ;
            result = (result * b) % 3329;
        }
        e = e >> 1;
        assert(e == eo / 2) by (bit_vector)
            requires
                e == eo >> 1u32,
        ;
        assert(b * b <= 0xffff * 0xffff) by (nonlinear_arith)
            requires
                b <= 0xffff,
        ;
        b = (b * b) % 3329;
        proof {
            lemma_fastmodpow_step(r0, b0, e0, base as int, exp as nat);
            if e0 % 2 == 1 {
                assert(result == (r0 * b0) % 3329);
            }
        }
    }
    proof {
        assert(pow(b as int, 0) == 1) by {
            vstd::arithmetic::power::lemma_pow0(b as int);
        }
        assert((result * 1) % 3329 == result % 3329) by (nonlinear_arith)
            requires
                0 <= result < 3329,
        ;
    }
    result as u16
}

/// One step of the square-and-multiply loop: folding the lowest exponent bit
/// into the accumulator and squaring the base preserves the running product.
proof fn lemma_fastmodpow_step(r0: int, b0: int, e0: nat, base: int, exp: nat)
    requires
        0 <= r0 < 3329,
        0 <= b0 <= 0xffff,
        e0 > 0,
        (r0 * pow(b0, e0)) % 3329 == pow(base, exp) % 3329,
    ensures
        e0 % 2 == 1 ==> (((r0 * b0) % 3329) * pow((b0 * b0) % 3329, (e0 / 2) as nat)) % 3329 == pow(
            base,
            exp,
        ) % 3329,
        e0 % 2 == 0 ==> (r0 * pow((b0 * b0) % 3329, (e0 / 2) as nat)) % 3329 == pow(base, exp)
            % 3329,
{
    let h = (e0 / 2) as nat;
    assert(pow(b0, 2) == b0 * b0) by {
        lemma_pow1(b0);
        vstd::arithmetic::power::lemma_pow_adds(b0, 1, 1);
    }
    lemma_pow_multiplies(b0, 2, h);
    assert(pow(b0 * b0, h) == pow(b0, 2 * h));
    lemma_pow_mod_noop(b0 * b0, h, 3329);
    assert(pow((b0 * b0) % 3329, h) % 3329 == pow(b0 * b0, h) % 3329);
    if e0 % 2 == 1 {
        assert(e0 == 2 * h + 1);
        assert(pow(b0, e0) == b0 * pow(b0, 2 * h)) by {
            lemma_pow1(b0);
            vstd::arithmetic::power::lemma_pow_adds(b0, 1, 2 * h);
        }
        lemma_mul_congruent((r0 * b0) % 3329, pow((b0 * b0) % 3329, h), pow(b0, 2 * h), 3329);
        assert((((r0 * b0) % 3329) * pow(b0, 2 * h)) % 3329 == ((r0 * b0) * pow(b0, 2 * h)) % 3329)
            by {
            vstd::arithmetic::div_mod::lemma_mul_mod_noop_left(r0 * b0, pow(b0, 2 * h), 3329);
        }
        assert((r0 * b0) * pow(b0, 2 * h) == r0 * (b0 * pow(b0, 2 * h))) by (nonlinear_arith);
    } else {
        assert(e0 == 2 * h);
        lemma_mul_congruent(r0, pow((b0 * b0) % 3329, h), pow(b0, 2 * h), 3329);
    }
}

/// Multiplying two values that agree modulo `m` by the same factor gives
/// products that agree modulo `m`.
proof fn lemma_mul_congruent(x: int, a: int, b: int, m: int)
    requires
        0 < m,
        a % m == b % m,
    ensures
        (x * a) % m == (x * b) % m,
{
    vstd::arithmetic::div_mod::lemma_mul_mod_noop_right(x, a, m);
    vstd::arithmetic::div_mod::lemma_mul_mod_noop_right(x, b, m);
}

} // verus!
