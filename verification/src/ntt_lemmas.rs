//! The round-trip law of the number-theoretic transform: applying the
//! forward network and then the inverse network returns every well-formed
//! ring element unchanged.
//!
//! The proof follows the structure of the networks: each inverse level
//! cancels the matching forward level up to a factor of two, because the
//! twiddle factors of matching butterflies multiply to `-1` modulo `Q`;
//! seven doublings leave `128 * x`, which the final multiplication by
//! `3303 = 128^-1` removes.

use vstd::prelude::*;
use vstd::arithmetic::power::{pow, lemma_pow1, lemma_pow_adds};
use vstd::arithmetic::div_mod::{
    lemma_mul_mod_noop, lemma_mul_mod_noop_left, lemma_mul_mod_noop_right, lemma_add_mod_noop,
    lemma_mod_multiples_vanish, lemma_small_mod, lemma_fundamental_div_mod,
    lemma_fundamental_div_mod_converse_mod, lemma_fundamental_div_mod_converse_div,
};
use crate::util::bitrev7_spec;
use crate::ring::{
    ring_wf, zeta_pow, zp_ntt, seq_scalar_mul_q, layer_fwd, layer_inv, fwd_layers, inv_layers,
    fwd_zeta_idx, inv_zeta_idx, ntt_spec, inv_ntt_spec,
};

verus! {

/// The twiddle exponents of the matching forward and inverse butterflies
/// sum to 128: reversing the bits of `m + b` and of `2m - 1 - b` gives
/// complementary values.
proof fn lemma_bitrev_pair(m: u8, b: u8, x: u8, y: u8)
    by (bit_vector)
    requires
        m == 1 || m == 2 || m == 4 || m == 8 || m == 16 || m == 32 || m == 64,
        b < m,
        x == (m + b) as u8,
        y == (2 * m - 1 - b) as u8,
    ensures
        bitrev7_spec(x) + bitrev7_spec(y) == 128,
{
}

/// `ZETA^128` is `-1` modulo `Q`, by repeated squaring.
proof fn lemma_zeta_to_128()
    ensures
        pow(17, 128) % 3329 == 3328,
{
    lemma_pow1(17);
    lemma_pow_adds(17, 1, 1);
    assert(pow(17, 2) == 289);
    lemma_pow_adds(17, 2, 2);
    lemma_mul_mod_noop(pow(17, 2), pow(17, 2), 3329);
    assert(pow(17, 4) % 3329 == (289 * 289) % 3329);
    assert(pow(17, 4) % 3329 == 296);
    lemma_pow_adds(17, 4, 4);
    lemma_mul_mod_noop(pow(17, 4), pow(17, 4), 3329);
    assert(pow(17, 8) % 3329 == (296 * 296) % 3329);
    assert(pow(17, 8) % 3329 == 1062);
    lemma_pow_adds(17, 8, 8);
    lemma_mul_mod_noop(pow(17, 8), pow(17, 8), 3329);
    assert(pow(17, 16) % 3329 == (1062 * 1062) % 3329);
    assert(pow(17, 16) % 3329 == 2642);
    lemma_pow_adds(17, 16, 16);
    lemma_mul_mod_noop(pow(17, 16), pow(17, 16), 3329);
    assert(pow(17, 32) % 3329 == (2642 * 2642) % 3329);
    assert(pow(17, 32) % 3329 == 2580);
    lemma_pow_adds(17, 32, 32);
    lemma_mul_mod_noop(pow(17, 32), pow(17, 32), 3329);
    assert(pow(17, 64) % 3329 == (2580 * 2580) % 3329);
    assert(pow(17, 64) % 3329 == 1729);
    lemma_pow_adds(17, 64, 64);
    lemma_mul_mod_noop(pow(17, 64), pow(17, 64), 3329);
    assert(pow(17, 128) % 3329 == (1729 * 1729) % 3329);
}

/// Twiddle factors with complementary exponents multiply to `-1` mod `Q`.
proof fn lemma_zeta_pow_sum(x: nat, y: nat)
    requires
        x + y == 128,
    ensures
        (zeta_pow(x) * zeta_pow(y)) % 3329 == 3328,
{
    lemma_pow_adds(17, x, y);
    lemma_mul_mod_noop(pow(17, x), pow(17, y), 3329);
    lemma_zeta_to_128();
}

/// The twiddle factors the two networks use at the same block of the same
/// level multiply to `-1` modulo `Q`.
proof fn lemma_zeta_pair(m: int, b: int)
    requires
        m == 1 || m == 2 || m == 4 || m == 8 || m == 16 || m == 32 || m == 64,
        0 <= b < m,
    ensures
        (zp_ntt(m + b) * zp_ntt(2 * m - 1 - b)) % 3329 == 3328,
{
    lemma_bitrev_pair(m as u8, b as u8, (m + b) as u8, (2 * m - 1 - b) as u8);
    lemma_zeta_pow_sum(
        bitrev7_spec((m + b) as u8) as nat,
        bitrev7_spec((2 * m - 1 - b) as u8) as nat,
    );
}

/// Two values that agree modulo `m`, multiplied by the same factor, give
/// products that agree modulo `m`.
proof fn lemma_mul_congruent_left(x: int, a: int, b: int, m: int)
    requires
        0 < m,
        a % m == b % m,
    ensures
        (x * a) % m == (x * b) % m,
{
    lemma_mul_mod_noop_right(x, a, m);
    lemma_mul_mod_noop_right(x, b, m);
}

/// One butterfly of the inverse network undoes one butterfly of the
/// forward network up to a factor of two, when the two twiddle factors
/// multiply to `-1` modulo `Q`.
proof fn lemma_butterfly_cancel(a: u16, b: u16, z: int, zi: int)
    requires
        a < 3329,
        b < 3329,
        0 <= z < 3329,
        0 <= zi < 3329,
        (z * zi) % 3329 == 3328,
    ensures
        ({
            let t = (z * b) % 3329;
            let f_lo = (a + t) % 3329;
            let f_hi = (a + 3329 - t) % 3329;
            (f_hi + f_lo) % 3329 == (2 * a) % 3329 && (zi * ((3329 + f_hi) - f_lo)) % 3329 == (2
                * b) % 3329
        }),
{
    let t = (z * b) % 3329;
    let f_lo = (a + t) % 3329;
    let f_hi = (a + 3329 - t) % 3329;

    // First half: the two halves of the forward butterfly sum to 2a.
    lemma_add_mod_noop(a + 3329 - t, a + t, 3329);
    assert((f_hi + f_lo) % 3329 == ((a + 3329 - t) + (a + t)) % 3329);
    lemma_mod_multiples_vanish(1, 2 * a, 3329);
    assert(((a + 3329 - t) + (a + t)) == 3329 * 1 + 2 * a);
    assert((f_hi + f_lo) % 3329 == (2 * a) % 3329);

    // Second half: the weighted difference recovers 2b.
    let w = (3329 + f_hi) - f_lo;
    // w agrees with -2t modulo Q.
    assert(w % 3329 == (3329 * 2 + (0 - 2 * t)) % 3329) by {
        lemma_add_mod_noop(3329 + (a + 3329 - t), 0 - (a + t), 3329);
        // (3329 + f_hi - f_lo) % q: replace both residues
        lemma_add_mod_noop(3329 + f_hi, 0 - f_lo, 3329);
        lemma_mod_neg(a + t, 3329);
        lemma_mod_add_vanish_any(f_hi, a + 3329 - t, 3329, 3329);
        assert((3329 + f_hi) % 3329 == f_hi % 3329) by {
            lemma_mod_multiples_vanish(1, f_hi, 3329);
        }
        assert(f_hi % 3329 == (a + 3329 - t) % 3329) by {
            lemma_small_mod(f_hi as nat, 3329);
        }
        assert((0 - f_lo) % 3329 == (0 - (a + t)) % 3329) by {
            lemma_small_mod(f_lo as nat, 3329);
            lemma_mod_neg_congruent(f_lo, a + t, 3329);
        }
        lemma_add_mod_noop(a + 3329 - t, 0 - (a + t), 3329);
        assert(((a + 3329 - t) + (0 - (a + t))) == 3329 - 2 * t);
        assert((3329 - 2 * t) % 3329 == (3329 * 2 + (0 - 2 * t)) % 3329) by {
            lemma_mod_multiples_vanish(1, 3329 - 2 * t, 3329);
            lemma_mod_multiples_vanish(2, 0 - 2 * t, 3329);
        }
        assert((w % 3329) == ((3329 + f_hi) % 3329 + (0 - f_lo) % 3329) % 3329) by {
            lemma_add_mod_noop(3329 + f_hi, 0 - f_lo, 3329);
        }
        assert(((3329 + f_hi) % 3329 + (0 - f_lo) % 3329) % 3329 == ((a + 3329 - t) % 3329 + (0 - (
        a + t)) % 3329) % 3329);
    }
    // (zi * w) % q == (zi * -2t) % q == (-2 * zi * (z*b)) % q == ((z*zi) * -2b) % q == 2b % q.
    lemma_mul_congruent_left(zi, w, 3329 * 2 + (0 - 2 * t), 3329);
    assert((zi * (3329 * 2 + (0 - 2 * t))) % 3329 == (zi * (0 - 2 * t)) % 3329) by {
        lemma_mod_multiples_vanish(zi * 2, zi * (0 - 2 * t), 3329);
        assert(zi * (3329 * 2 + (0 - 2 * t)) == 3329 * (zi * 2) + zi * (0 - 2 * t))
            by (nonlinear_arith);
    }
    assert((zi * (0 - 2 * t)) % 3329 == ((0 - 2 * zi) * ((z * b) % 3329)) % 3329) by {
        assert(zi * (0 - 2 * t) == (0 - 2 * zi) * t) by (nonlinear_arith);
    }
    lemma_mul_mod_noop_right(0 - 2 * zi, z * b, 3329);
    assert(((0 - 2 * zi) * (z * b)) % 3329 == ((z * zi) * (0 - 2 * b)) % 3329) by {
        assert((0 - 2 * zi) * (z * b) == (z * zi) * (0 - 2 * b)) by (nonlinear_arith);
    }
    lemma_mul_mod_noop_left(z * zi, 0 - 2 * b, 3329);
    assert((3328 * (0 - 2 * b)) % 3329 == (2 * b) % 3329) by {
        assert(3328 * (0 - 2 * b) == 3329 * (0 - 2 * b) + 2 * b) by (nonlinear_arith);
        lemma_mod_multiples_vanish(0 - 2 * b, 2 * b, 3329);
    }
}

/// A negative residue is congruent to the negation of the value.
proof fn lemma_mod_neg(x: int, m: int)
    requires
        0 < m,
    ensures
        (0 - x) % m == (0 - (x % m)) % m,
{
    lemma_fundamental_div_mod(x, m);
    let q = x / m;
    assert(m * (0 - q) == 0 - m * q) by (nonlinear_arith);
    assert(0 - x == m * (0 - q) + (0 - (x % m)));
    assert(m * (0 - q) == (0 - q) * m) by (nonlinear_arith);
    lemma_mod_multiples_vanish(0 - q, 0 - (x % m), m);
}

/// Negations of values that agree modulo `m` agree modulo `m`.
proof fn lemma_mod_neg_congruent(x: int, y: int, m: int)
    requires
        0 < m,
        x % m == y % m,
    ensures
        (0 - x) % m == (0 - y) % m,
{
    lemma_mod_neg(x, m);
    lemma_mod_neg(y, m);
}

/// Adding any multiple of `m` to a value congruent to another keeps the
/// congruence.
proof fn lemma_mod_add_vanish_any(x: int, y: int, add_val: int, m: int)
    requires
        0 < m,
        x % m == y % m,
        add_val % m == 0,
    ensures
        (x + add_val) % m == y % m,
{
    lemma_fundamental_div_mod(add_val, m);
    let q = add_val / m;
    assert(add_val == m * q);
    assert(m * q == q * m) by (nonlinear_arith);
    lemma_mod_multiples_vanish(q, x, m);
}

/// The difference of two residues, shifted positive, is the residue of the
/// difference.
proof fn lemma_diff_mod(aa: int, bb: int, m: int)
    requires
        0 < m,
    ensures
        ((m + aa % m) - bb % m) % m == (aa - bb) % m,
{
    lemma_mod_multiples_vanish(1, aa % m - bb % m, m);
    vstd::arithmetic::div_mod::lemma_sub_mod_noop(aa, bb, m);
}

/// Division bookkeeping for one position of a butterfly level: the block
/// index stays below the block count, a first-half position moves to the
/// second half of the same block when shifted by `len`, and back.
proof fn lemma_pos_facts(len: int, p: int)
    requires
        len == 2 || len == 4 || len == 8 || len == 16 || len == 32 || len == 64 || len == 128,
        0 <= p < 256,
    ensures
        128int / len == 1 || 128int / len == 2 || 128int / len == 4 || 128int / len == 8 || 128int
            / len == 16 || 128int / len == 32 || 128int / len == 64,
        (2 * len) * (128int / len) == 256,
        0 <= p % (2 * len) < 2 * len,
        0 <= p / (2 * len) < 128int / len,
        p % (2 * len) < len ==> (p + len) % (2 * len) == p % (2 * len) + len && (p + len) / (2
            * len) == p / (2 * len),
        p % (2 * len) >= len ==> (p - len) % (2 * len) == p % (2 * len) - len && (p - len) / (2
            * len) == p / (2 * len),
{
    if len == 2 {
        crate::ring::lemma_div_exact(128, len, 64);
    } else if len == 4 {
        crate::ring::lemma_div_exact(128, len, 32);
    } else if len == 8 {
        crate::ring::lemma_div_exact(128, len, 16);
    } else if len == 16 {
        crate::ring::lemma_div_exact(128, len, 8);
    } else if len == 32 {
        crate::ring::lemma_div_exact(128, len, 4);
    } else if len == 64 {
        crate::ring::lemma_div_exact(128, len, 2);
    } else {
        crate::ring::lemma_div_exact(128, len, 1);
    }
    let m2 = 2 * len;
    let c = 128int / len;
    lemma_fundamental_div_mod(p, m2);
    let blk = p / m2;
    let r = p % m2;
    assert(blk < c) by (nonlinear_arith)
        requires
            m2 * blk + r == p,
            p < m2 * c,
            0 <= r,
            m2 >= 2,
    ;
    assert(blk >= 0) by (nonlinear_arith)
        requires
            m2 * blk + r == p,
            0 <= p,
            r < m2,
            m2 >= 2,
    ;
    assert(p == blk * m2 + r) by (nonlinear_arith)
        requires
            p == m2 * blk + r,
    ;
    if r < len {
        lemma_fundamental_div_mod_converse_mod(p + len, m2, blk, r + len);
        lemma_fundamental_div_mod_converse_div(p + len, m2, blk, r + len);
    } else {
        lemma_fundamental_div_mod_converse_mod(p - len, m2, blk, r - len);
        lemma_fundamental_div_mod_converse_div(p - len, m2, blk, r - len);
    }
}

/// One inverse level undoes the matching forward level up to a factor of
/// two: the networks pair each block with twiddle factors multiplying to
/// `-1` modulo `Q`.
proof fn lemma_layer_round(x: Seq<u16>, len: int)
    requires
        ring_wf(x),
        len == 2 || len == 4 || len == 8 || len == 16 || len == 32 || len == 64 || len == 128,
    ensures
        layer_inv(layer_fwd(x, len), len) == seq_scalar_mul_q(x, 2),
{
    let f = layer_fwd(x, len);
    let g_seq = layer_inv(f, len);
    assert forall|p: int| 0 <= p < 256 implies g_seq[p] == seq_scalar_mul_q(x, 2)[p] by {
        lemma_pos_facts(len, p);
        let m = 128int / len;
        let blk = p / (2 * len);
        lemma_zeta_pair(m, blk);
        if p % (2 * len) < len {
            lemma_pos_facts(len, p + len);
            let a = x[p];
            let b = x[p + len];
            let z = zp_ntt(fwd_zeta_idx(len, p));
            let zi = zp_ntt(inv_zeta_idx(len, p));
            assert(fwd_zeta_idx(len, p) == m + blk);
            assert(fwd_zeta_idx(len, p + len) == m + blk);
            assert(inv_zeta_idx(len, p) == 2 * m - 1 - blk);
            lemma_butterfly_cancel(a, b, z, zi);
        } else {
            lemma_pos_facts(len, p - len);
            let a = x[p - len];
            let b = x[p];
            let z = zp_ntt(fwd_zeta_idx(len, p));
            let zi = zp_ntt(inv_zeta_idx(len, p));
            assert(fwd_zeta_idx(len, p - len) == m + blk);
            assert(inv_zeta_idx(len, p) == 2 * m - 1 - blk);
            lemma_butterfly_cancel(a, b, z, zi);
        }
    }
    assert(layer_inv(layer_fwd(x, len), len) =~= seq_scalar_mul_q(x, 2));
}

/// The inverse levels commute with scalar multiplication.
proof fn lemma_layer_inv_linear(x: Seq<u16>, len: int, c: u16)
    requires
        x.len() == 256,
        len == 2 || len == 4 || len == 8 || len == 16 || len == 32 || len == 64 || len == 128,
    ensures
        layer_inv(seq_scalar_mul_q(x, c), len) == seq_scalar_mul_q(layer_inv(x, len), c),
{
    let sx = seq_scalar_mul_q(x, c);
    let lhs = layer_inv(sx, len);
    let rhs = seq_scalar_mul_q(layer_inv(x, len), c);
    assert forall|p: int| 0 <= p < 256 implies lhs[p] == rhs[p] by {
        lemma_pos_facts(len, p);
        let m = 128int / len;
        let blk = p / (2 * len);
        let r = p % (2 * len);
        if r < len {
            assert(p + len < 256) by (nonlinear_arith)
                requires
                    p == (2 * len) * blk + r,
                    blk < m,
                    r < len,
                    (2 * len) * m == 256,
                    len >= 2,
                    blk >= 0,
            ;
            // ((x1*c)%q + (x0*c)%q)%q == ((x1 + x0)%q * c)%q
            lemma_add_mod_noop(x[p + len] * c, x[p] * c, 3329);
            assert(x[p + len] * c + x[p] * c == (x[p + len] + x[p]) * c) by (nonlinear_arith);
            lemma_mul_mod_noop_left(x[p + len] + x[p], c as int, 3329);
        } else {
            assert(p - len >= 0) by (nonlinear_arith)
                requires
                    p == (2 * len) * blk + r,
                    r >= len,
                    len >= 2,
                    blk >= 0,
            ;
            let zi = zp_ntt(inv_zeta_idx(len, p));
            let v_int = (3329 + x[p]) - x[p - len];
            // the shifted difference of scaled residues is the residue
            // of the scaled difference
            lemma_diff_mod(x[p] * c, x[p - len] * c, 3329);
            assert((x[p] * c) - (x[p - len] * c) == (x[p] - x[p - len]) * c) by (nonlinear_arith);
            assert(v_int * c == 3329 * c + (x[p] - x[p - len]) * c) by (nonlinear_arith)
                requires
                    v_int == (3329 + x[p]) - x[p - len],
            ;
            assert((v_int * c) % 3329 == ((x[p] - x[p - len]) * c) % 3329) by {
                lemma_mod_multiples_vanish(c as int, (x[p] - x[p - len]) * c, 3329);
            }
            // push the scalar out of the twiddle product
            lemma_mul_congruent_left(zi, (3329 + sx[p]) - sx[p - len], v_int * c, 3329);
            assert(zi * (v_int * c) == (zi * v_int) * c) by (nonlinear_arith);
            lemma_mul_mod_noop_left(zi * v_int, c as int, 3329);
            lemma_mul_mod_noop_right(zi, v_int * c, 3329);
        }
    }
    assert(lhs =~= rhs);
}

/// Every level of either network keeps all coefficients reduced.
proof fn lemma_layer_wf(x: Seq<u16>, len: int)
    ensures
        ring_wf(layer_fwd(x, len)),
        ring_wf(layer_inv(x, len)),
{
}

/// The forward network keeps all coefficients reduced, level by level.
proof fn lemma_fwd_layers_wf(x: Seq<u16>, len: int)
    requires
        ring_wf(x),
    ensures
        ring_wf(fwd_layers(x, len)),
    decreases 256 - len,
{
    if 1 <= len <= 128 {
        lemma_fwd_layers_wf(x, 2 * len);
        lemma_layer_wf(fwd_layers(x, 2 * len), len);
    }
}

/// Two scalar multiplications compose into one.
proof fn lemma_scalar_scalar(x: Seq<u16>, c1: u16, c2: u16)
    requires
        c1 * c2 <= 65535,
    ensures
        seq_scalar_mul_q(seq_scalar_mul_q(x, c1), c2) == seq_scalar_mul_q(x, (c1 * c2) as u16),
{
    let lhs = seq_scalar_mul_q(seq_scalar_mul_q(x, c1), c2);
    let rhs = seq_scalar_mul_q(x, (c1 * c2) as u16);
    assert forall|p: int| 0 <= p < x.len() implies lhs[p] == rhs[p] by {
        lemma_mul_mod_noop_left(x[p] * c1, c2 as int, 3329);
        assert((x[p] * c1) * c2 == x[p] * (c1 * c2)) by (nonlinear_arith);
    }
    assert(lhs =~= rhs);
}

/// Undoing the inverse levels up to `len` leaves the forward levels above
/// `len` still applied, scaled by `len`.
proof fn lemma_inv_fwd_cancel(x: Seq<u16>, len: int)
    requires
        ring_wf(x),
        len == 1 || len == 2 || len == 4 || len == 8 || len == 16 || len == 32 || len == 64 || len
            == 128,
    ensures
        inv_layers(fwd_layers(x, 2), len) == seq_scalar_mul_q(fwd_layers(x, 2 * len), len as u16),
    decreases len,
{
    if len == 1 {
        lemma_fwd_layers_wf(x, 2);
        let f2 = fwd_layers(x, 2);
        assert forall|p: int| 0 <= p < 256 implies #[trigger] seq_scalar_mul_q(f2, 1)[p]
            == f2[p] by {
            lemma_small_mod(f2[p] as nat, 3329);
        }
        assert(seq_scalar_mul_q(f2, 1u16) =~= f2);
        assert(fwd_layers(x, 2 * len) == f2);
        assert(inv_layers(f2, 1) == f2);
    } else {
        lemma_inv_fwd_cancel(x, len / 2);
        let half = (len / 2) as u16;
        let y = fwd_layers(x, 2 * len);
        lemma_fwd_layers_wf(x, 2 * len);
        assert(fwd_layers(x, len) == layer_fwd(y, len));
        lemma_layer_inv_linear(fwd_layers(x, len), len, half);
        lemma_layer_round(y, len);
        lemma_layer_inv_linear(y, len, half);
        lemma_scalar_scalar(y, 2, half);
        assert(inv_layers(fwd_layers(x, 2), len) == layer_inv(
            inv_layers(fwd_layers(x, 2), len / 2),
            len,
        ));
        assert(inv_layers(fwd_layers(x, 2), len / 2) == seq_scalar_mul_q(fwd_layers(x, len), half));
        assert(layer_inv(seq_scalar_mul_q(fwd_layers(x, len), half), len) == seq_scalar_mul_q(
            layer_inv(layer_fwd(y, len), len),
            half,
        ));
        assert(seq_scalar_mul_q(seq_scalar_mul_q(y, 2), half) == seq_scalar_mul_q(y, len as u16));
    }
}

/// The round-trip law of the transform: the inverse transform undoes the
/// forward transform exactly, for every well-formed ring element.
pub proof fn lemma_ntt_round_trip(s: Seq<u16>)
    requires
        ring_wf(s),
    ensures
        inv_ntt_spec(ntt_spec(s)) == s,
{
    lemma_inv_fwd_cancel(s, 128);
    assert(fwd_layers(s, 256) == s);
    let t = inv_layers(ntt_spec(s), 128);
    assert(t == seq_scalar_mul_q(s, 128));
    let out = seq_scalar_mul_q(t, 3303);
    assert forall|p: int| 0 <= p < 256 implies out[p] == s[p] by {
        lemma_mul_mod_noop_left(s[p] * 128, 3303, 3329);
        assert((s[p] * 128) * 3303 == s[p] * 422784) by (nonlinear_arith);
        lemma_mul_mod_noop_right(s[p] as int, 422784, 3329);
        assert(422784int % 3329 == 1);
        lemma_small_mod(s[p] as nat, 3329);
    }
    assert(out =~= s);
}

} // verus!
