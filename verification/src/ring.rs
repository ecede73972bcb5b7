//! The degree-256 polynomial ring over the prime modulus, in coefficient or
//! NTT domain, together with vectors and matrices of ring elements and the
//! lossy compression of coefficients.
//!
//! Every value carries its domain tag; the contracts demand matching tags, so
//! a mismatched-domain operation is ruled out at verification time.

use vstd::prelude::*;
use vstd::arithmetic::power::pow;
use vstd::arithmetic::power2::pow2;
use vstd::arithmetic::div_mod::{
    lemma_fundamental_div_mod, lemma_fundamental_div_mod_converse_mod,
    lemma_fundamental_div_mod_converse_div, lemma_small_mod,
};
use crate::util::{bitrev7, bitrev7_spec, fastmodpow};

verus! {

/// The domain a ring element currently lives in: plain coefficients of a
/// degree-255 polynomial, or the image under the number-theoretic transform.
#[derive(Clone, Copy, PartialEq, Eq, Structural, Debug)]
pub enum RingRepresentation {
    Degree255,
    NTT,
}

/// An element of the polynomial ring: 256 coefficients, each in `[0, Q)`,
/// tagged with its domain.
#[derive(Debug)]
pub struct Ring {
    pub data: Vec<u16>,
    pub t: RingRepresentation,
}

/// 256 coefficients, all reduced modulo `Q`.
pub open spec fn ring_wf(s: Seq<u16>) -> bool {
    s.len() == 256 && (forall|i: int| 0 <= i < 256 ==> s[i] < 3329)
}

/// The all-zero coefficient sequence.
pub open spec fn zero_seq() -> Seq<u16> {
    Seq::new(256, |i: int| 0u16)
}

/// `ZETA` raised to `e`, reduced modulo `Q`.
pub open spec fn zeta_pow(e: nat) -> int {
    pow(17, e) % 3329
}

/// The twiddle factor used by the NTT butterflies: `ZETA^bitrev7(i)` mod `Q`.
pub open spec fn zp_ntt(i: int) -> int {
    zeta_pow(bitrev7_spec(i as u8) as nat)
}

/// The twiddle factor used by pointwise multiplication:
/// `ZETA^(2*bitrev7(i)+1)` mod `Q`.
pub open spec fn zp_mult(i: int) -> int {
    zeta_pow((2 * bitrev7_spec(i as u8) + 1) as nat)
}

/// Element-wise sum modulo `Q`.
pub open spec fn seq_add_q(a: Seq<u16>, b: Seq<u16>) -> Seq<u16> {
    Seq::new(a.len(), |i: int| (((a[i] + b[i]) % 3329) as u16))
}

/// Element-wise difference modulo `Q`.
pub open spec fn seq_sub_q(a: Seq<u16>, b: Seq<u16>) -> Seq<u16> {
    Seq::new(a.len(), |i: int| (((a[i] + 3329 - b[i]) % 3329) as u16))
}

/// Every coefficient multiplied by `c` modulo `Q`.
pub open spec fn seq_scalar_mul_q(a: Seq<u16>, c: u16) -> Seq<u16> {
    Seq::new(a.len(), |i: int| (((a[i] * c) % 3329) as u16))
}

/// Every coefficient increased by `c` modulo `Q`.
pub open spec fn seq_scalar_add_q(a: Seq<u16>, c: u16) -> Seq<u16> {
    Seq::new(a.len(), |i: int| (((a[i] + c) % 3329) as u16))
}

/// The pointwise product of two NTT-domain elements: for each pair of
/// adjacent slots, the product of the degree-one residues modulo
/// `X^2 - gamma_i` with `gamma_i = ZETA^(2*bitrev7(i)+1)`.
pub open spec fn seq_mult_ntt(a: Seq<u16>, b: Seq<u16>) -> Seq<u16> {
    Seq::new(256, |i: int|
        if i % 2 == 0 {
            (((a[i] * b[i] + zp_mult(i / 2) * (a[i + 1] * b[i + 1])) % 3329) as u16)
        } else {
            (((a[i - 1] * b[i] + a[i] * b[i - 1]) % 3329) as u16)
        })
}

/// The twiddle index shared by every butterfly of the block containing `p`
/// at merge level `len`: blocks of earlier levels come first, then the
/// block's own position.
pub open spec fn fwd_zeta_idx(len: int, p: int) -> int {
    128int / len + p / (2 * len)
}

/// The twiddle index the inverse network uses for the block containing `p`
/// at merge level `len`; the counter runs backwards from 127.
pub open spec fn inv_zeta_idx(len: int, p: int) -> int {
    2 * (128int / len) - 1 - p / (2 * len)
}

/// One level of the forward butterfly network: each block of width
/// `2 * len` combines its halves with the block's twiddle factor.
pub open spec fn layer_fwd(s: Seq<u16>, len: int) -> Seq<u16> {
    Seq::new(256, |p: int|
        if p % (2 * len) < len {
            (((s[p] + (zp_ntt(fwd_zeta_idx(len, p)) * s[p + len]) % 3329) % 3329) as u16)
        } else {
            (((s[p - len] + 3329 - (zp_ntt(fwd_zeta_idx(len, p)) * s[p]) % 3329) % 3329) as u16)
        })
}

/// One level of the inverse butterfly network.
pub open spec fn layer_inv(s: Seq<u16>, len: int) -> Seq<u16> {
    Seq::new(256, |p: int|
        if p % (2 * len) < len {
            (((s[p + len] + s[p]) % 3329) as u16)
        } else {
            (((zp_ntt(inv_zeta_idx(len, p)) * ((3329 + s[p]) - s[p - len])) % 3329) as u16)
        })
}

/// The forward levels from 128 down to `len`, applied in that order.
pub open spec fn fwd_layers(s: Seq<u16>, len: int) -> Seq<u16>
    decreases 256 - len,
{
    if len < 1 || len > 128 {
        s
    } else {
        layer_fwd(fwd_layers(s, 2 * len), len)
    }
}

/// The inverse levels from 2 up to `len`, applied in that order.
pub open spec fn inv_layers(s: Seq<u16>, len: int) -> Seq<u16>
    decreases len,
{
    if len < 2 || len > 128 {
        s
    } else {
        layer_inv(inv_layers(s, len / 2), len)
    }
}

/// The whole forward transform.
pub open spec fn ntt_spec(s: Seq<u16>) -> Seq<u16> {
    fwd_layers(s, 2)
}

/// The whole inverse transform: the inverse network followed by the scalar
/// multiplication with `128^-1 = 3303` mod `Q`.
pub open spec fn inv_ntt_spec(s: Seq<u16>) -> Seq<u16> {
    seq_scalar_mul_q(inv_layers(s, 128), 3303)
}


/// Evaluates an exact division: if `a == q * b` then `a / b == q` and
/// `a % b == 0`.
pub proof fn lemma_div_exact(a: int, b: int, q: int)
    requires
        b > 0,
        q >= 0,
        a == q * b,
    ensures
        a / b == q,
        a % b == 0,
{
    lemma_fundamental_div_mod_converse_div(a, b, q, 0);
    lemma_fundamental_div_mod_converse_mod(a, b, q, 0);
}

/// Position bookkeeping inside one butterfly block: for a block-aligned
/// `start`, a position `p` of the first half keeps its offset as remainder,
/// `p + len` lands in the second half, and both share the block of `start`.
proof fn lemma_block_pos(len: int, start: int, p: int)
    requires
        1 <= len,
        0 <= start,
        start % (2 * len) == 0,
        start <= p < start + len,
    ensures
        p % (2 * len) == p - start,
        p - start < len,
        (p + len) % (2 * len) == p - start + len,
        p / (2 * len) == start / (2 * len),
        (p + len) / (2 * len) == start / (2 * len),
{
    let m = 2 * len;
    let q = start / m;
    lemma_fundamental_div_mod(start, m);
    assert(start == q * m);
    lemma_fundamental_div_mod_converse_mod(p, m, q, p - start);
    lemma_fundamental_div_mod_converse_div(p, m, q, p - start);
    lemma_fundamental_div_mod_converse_mod(p + len, m, q, p - start + len);
    lemma_fundamental_div_mod_converse_div(p + len, m, q, p - start + len);
}

/// Bookkeeping for stepping to the next block of a level: the stride divides
/// 256, so an aligned `start` below 256 leaves room for one more block, the
/// step advances the block index by one, and the twiddle counters of both
/// networks stay inside the table.
proof fn lemma_level_step(len: int, start: int)
    requires
        len == 2 || len == 4 || len == 8 || len == 16 || len == 32 || len == 64 || len == 128,
        0 <= start < 256,
        start % (2 * len) == 0,
    ensures
        start + 2 * len <= 256,
        (start + 2 * len) % (2 * len) == 0,
        (start + 2 * len) / (2 * len) == start / (2 * len) + 1,
        0 <= start / (2 * len) < 128int / len,
        128int / len + start / (2 * len) < 128,
        1 <= 2 * (128int / len) - 1 - start / (2 * len) < 128,
{
    let m = 2 * len;
    let q = start / m;
    let c = 256int / m;
    lemma_fundamental_div_mod(start, m);
    assert(start == q * m);
    if len == 2 {
        lemma_div_exact(256, m, 64);
        lemma_div_exact(128, len, 64);
    } else if len == 4 {
        lemma_div_exact(256, m, 32);
        lemma_div_exact(128, len, 32);
    } else if len == 8 {
        lemma_div_exact(256, m, 16);
        lemma_div_exact(128, len, 16);
    } else if len == 16 {
        lemma_div_exact(256, m, 8);
        lemma_div_exact(128, len, 8);
    } else if len == 32 {
        lemma_div_exact(256, m, 4);
        lemma_div_exact(128, len, 4);
    } else if len == 64 {
        lemma_div_exact(256, m, 2);
        lemma_div_exact(128, len, 2);
    } else {
        lemma_div_exact(256, m, 1);
        lemma_div_exact(128, len, 1);
    }
    assert(c * m == 256);
    assert(q < c) by (nonlinear_arith)
        requires
            q * m < 256,
            m >= 2,
            c * m == 256,
            q >= 0,
    ;
    assert(start + m <= 256) by (nonlinear_arith)
        requires
            start == q * m,
            q + 1 <= c,
            c * m == 256,
            m >= 2,
    ;
    lemma_fundamental_div_mod_converse_mod(start + m, m, q + 1, 0);
    lemma_fundamental_div_mod_converse_div(start + m, m, q + 1, 0);
    assert((q + 1) * m == q * m + m);
}

impl Ring {
    /// Whether the element is well formed: 256 coefficients, all below `Q`.
    pub open spec fn wf(self) -> bool {
        ring_wf(self.data@)
    }

    /// The 128 twiddle factors of the butterfly network, indexed by the merge
    /// counter: entry `i` is `ZETA^bitrev7(i)` mod `Q`.
    pub fn get_zeta_powers_ntt() -> (z: Vec<u16>)
        ensures
            z@.len() == 128,
            forall|i: int| #![trigger z@[i]] 0 <= i < 128 ==> z@[i] == zp_ntt(i) && z@[i] < 3329,
    {
        let mut z: Vec<u16> = Vec::new();
        let mut i: usize = 0;
        while i < 128
            invariant
                i <= 128,
                z@.len() == i,
                forall|j: int| #![trigger z@[j]] 0 <= j < i ==> z@[j] == zp_ntt(j) && z@[j] < 3329,
            decreases 128 - i,
        {
            let e = bitrev7(i as u8);
            z.push(fastmodpow(crate::params::ZETA, e));
            i += 1;
        }
        z
    }

    /// The 128 twiddle factors of pointwise multiplication: entry `i` is
    /// `ZETA^(2*bitrev7(i)+1)` mod `Q`.
    pub fn get_zeta_powers_mult() -> (z: Vec<u16>)
        ensures
            z@.len() == 128,
            forall|i: int| #![trigger z@[i]] 0 <= i < 128 ==> z@[i] == zp_mult(i) && z@[i] < 3329,
    {
        let mut z: Vec<u16> = Vec::new();
        let mut i: usize = 0;
        while i < 128
            invariant
                i <= 128,
                z@.len() == i,
                forall|j: int| #![trigger z@[j]] 0 <= j < i ==> z@[j] == zp_mult(j) && z@[j] < 3329,
            decreases 128 - i,
        {
            let e = bitrev7(i as u8);
            z.push(fastmodpow(crate::params::ZETA, 2 * e + 1));
            i += 1;
        }
        z
    }


    /// The all-zero element of the given domain.
    pub fn new(t: RingRepresentation) -> (r: Ring)
        ensures
            r.t == t,
            r.data@ == zero_seq(),
            r.wf(),
    {
        let mut data: Vec<u16> = Vec::new();
        let mut i: usize = 0;
        while i < 256
            invariant
                i <= 256,
                data@.len() == i,
                forall|j: int| 0 <= j < i ==> data@[j] == 0u16,
            decreases 256 - i,
        {
            data.push(0);
            i += 1;
        }
        proof {
            assert(data@ =~= zero_seq());
        }
        Ring { data, t }
    }

    /// Adds `value` to every coefficient, modulo `Q`.
    pub fn scalar_add(&mut self, value: u16)
        requires
            old(self).wf(),
            value < 3329,
        ensures
            final(self).wf(),
            final(self).t == old(self).t,
            final(self).data@ == seq_scalar_add_q(old(self).data@, value),
    {
        let ghost orig = self.data@;
        let mut i: usize = 0;
        while i < 256
            invariant
                i <= 256,
                self.data@.len() == 256,
                self.t == old(self).t,
                orig == old(self).data@,
                ring_wf(orig),
                value < 3329,
                forall|j: int| 0 <= j < i ==> #[trigger] self.data@[j] == seq_scalar_add_q(orig, value)[j],
                forall|j: int| i <= j < 256 ==> #[trigger] self.data@[j] == orig[j],
            decreases 256 - i,
        {
            self.data[i] = (self.data[i] + value) % 3329;
            i += 1;
        }
        proof {
            assert(self.data@ =~= seq_scalar_add_q(orig, value));
        }
    }

    /// Multiplies every coefficient by `value`, modulo `Q`.
    pub fn scalar_mul(&mut self, value: u16)
        requires
            old(self).wf(),
        ensures
            final(self).wf(),
            final(self).t == old(self).t,
            final(self).data@ == seq_scalar_mul_q(old(self).data@, value),
    {
        let ghost orig = self.data@;
        let val: u32 = value as u32;
        let mut i: usize = 0;
        while i < 256
            invariant
                i <= 256,
                self.data@.len() == 256,
                self.t == old(self).t,
                orig == old(self).data@,
                ring_wf(orig),
                val == value,
                forall|j: int| 0 <= j < i ==> #[trigger] self.data@[j] == seq_scalar_mul_q(orig, value)[j],
                forall|j: int| i <= j < 256 ==> #[trigger] self.data@[j] == orig[j],
            decreases 256 - i,
        {
            let c = self.data[i];
            assert(c * val < 0x1_0000_0000) by (nonlinear_arith)
                requires
                    c < 3329,
                    val <= 0xffff,
            ;
            self.data[i] = ((c as u32 * val) % 3329) as u16;
            i += 1;
        }
        proof {
            assert(self.data@ =~= seq_scalar_mul_q(orig, value));
        }
    }

    /// Element-wise sum with `other`; the domains must agree.
    pub fn add(&mut self, other: &Ring)
        requires
            old(self).wf(),
            other.wf(),
            old(self).t == other.t,
        ensures
            final(self).wf(),
            final(self).t == old(self).t,
            final(self).data@ == seq_add_q(old(self).data@, other.data@),
    {
        let ghost orig = self.data@;
        let mut i: usize = 0;
        while i < 256
            invariant
                i <= 256,
                self.data@.len() == 256,
                self.t == old(self).t,
                orig == old(self).data@,
                ring_wf(orig),
                ring_wf(other.data@),
                forall|j: int| 0 <= j < i ==> #[trigger] self.data@[j] == seq_add_q(orig, other.data@)[j],
                forall|j: int| i <= j < 256 ==> #[trigger] self.data@[j] == orig[j],
            decreases 256 - i,
        {
            self.data[i] = (self.data[i] + other.data[i]) % 3329;
            i += 1;
        }
        proof {
            assert(self.data@ =~= seq_add_q(orig, other.data@));
        }
    }

    /// Element-wise difference with `other`; the domains must agree.
    pub fn sub(&mut self, other: &Ring)
        requires
            old(self).wf(),
            other.wf(),
            old(self).t == other.t,
        ensures
            final(self).wf(),
            final(self).t == old(self).t,
            final(self).data@ == seq_sub_q(old(self).data@, other.data@),
    {
        let ghost orig = self.data@;
        let mut i: usize = 0;
        while i < 256
            invariant
                i <= 256,
                self.data@.len() == 256,
                self.t == old(self).t,
                orig == old(self).data@,
                ring_wf(orig),
                ring_wf(other.data@),
                forall|j: int| 0 <= j < i ==> #[trigger] self.data@[j] == seq_sub_q(orig, other.data@)[j],
                forall|j: int| i <= j < 256 ==> #[trigger] self.data@[j] == orig[j],
            decreases 256 - i,
        {
            self.data[i] = (self.data[i] + 3329 - other.data[i]) % 3329;
            i += 1;
        }
        proof {
            assert(self.data@ =~= seq_sub_q(orig, other.data@));
        }
    }


    /// Transforms the element, in place, from the coefficient domain to the
    /// NTT domain by the seven-level Cooley-Tukey butterfly network.
    pub fn ntt(&mut self)
        requires
            old(self).wf(),
            old(self).t == RingRepresentation::Degree255,
        ensures
            final(self).wf(),
            final(self).t == RingRepresentation::NTT,
            final(self).data@ == ntt_spec(old(self).data@),
    {
        let ghost orig = self.data@;
        let zeta_powers = Ring::get_zeta_powers_ntt();
        let mut k: usize = 1;
        let mut len: usize = 128;
        while len >= 2
            invariant
                self.data@.len() == 256,
                ring_wf(self.data@),
                self.t == old(self).t,
                orig == old(self).data@,
                zeta_powers@.len() == 128,
                forall|j: int| #![trigger zeta_powers@[j]] 0 <= j < 128 ==> zeta_powers@[j]
                    == zp_ntt(j) && zeta_powers@[j] < 3329,
                len == 1 || len == 2 || len == 4 || len == 8 || len == 16 || len == 32 || len
                    == 64 || len == 128,
                k == 128int / (len as int),
                self.data@ == fwd_layers(orig, 2 * len),
            decreases len,
        {
            let ghost s_lvl = self.data@;
            let ghost lenl = len as int;
            proof {
                lemma_div_exact(0, 2 * lenl, 0);
            }
            let mut start: usize = 0;
            while start < 256
                invariant
                    lenl == len,
                    len == 2 || len == 4 || len == 8 || len == 16 || len == 32 || len == 64 || len
                        == 128,
                    (start as int) % (2 * lenl) == 0,
                    start <= 256,
                    self.data@.len() == 256,
                    ring_wf(self.data@),
                    ring_wf(s_lvl),
                    self.t == old(self).t,
                    zeta_powers@.len() == 128,
                    forall|j: int| #![trigger zeta_powers@[j]] 0 <= j < 128 ==> zeta_powers@[j]
                        == zp_ntt(j) && zeta_powers@[j] < 3329,
                    k == 128int / lenl + (start as int) / (2 * lenl),
                    forall|p: int| #![trigger self.data@[p]] 0 <= p < start ==> self.data@[p]
                        == layer_fwd(s_lvl, lenl)[p],
                    forall|p: int| #![trigger self.data@[p]] start <= p < 256 ==> self.data@[p]
                        == s_lvl[p],
                decreases 256 - start,
            {
                proof {
                    lemma_level_step(lenl, start as int);
                }
                let zeta: u32 = zeta_powers[k] as u32;
                let ghost idx = 128int / lenl + (start as int) / (2 * lenl);
                k += 1;
                let mut j: usize = start;
                while j < start + len
                    invariant
                        lenl == len,
                        len == 2 || len == 4 || len == 8 || len == 16 || len == 32 || len == 64
                            || len == 128,
                        (start as int) % (2 * lenl) == 0,
                        start + 2 * len <= 256,
                        start <= j <= start + len,
                        self.data@.len() == 256,
                        ring_wf(self.data@),
                        ring_wf(s_lvl),
                        self.t == old(self).t,
                        zeta < 3329,
                        zeta == zp_ntt(idx),
                        idx == 128int / lenl + (start as int) / (2 * lenl),
                        forall|p: int| #![trigger self.data@[p]] 0 <= p < start ==> self.data@[p]
                            == layer_fwd(s_lvl, lenl)[p],
                        forall|p: int| #![trigger self.data@[p]] start <= p < j ==> self.data@[p]
                            == layer_fwd(s_lvl, lenl)[p],
                        forall|p: int| #![trigger self.data@[p]] j <= p < start + len
                            ==> self.data@[p] == s_lvl[p],
                        forall|p: int| #![trigger self.data@[p]] start + len <= p < j + len
                            ==> self.data@[p] == layer_fwd(s_lvl, lenl)[p],
                        forall|p: int| #![trigger self.data@[p]] j + len <= p < 256
                            ==> self.data@[p] == s_lvl[p],
                    decreases start + len - j,
                {
                    let hi = self.data[j + len] as u32;
                    assert(zeta * hi < 0x1_0000_0000) by (nonlinear_arith)
                        requires
                            zeta < 3329,
                            hi < 3329,
                    ;
                    let t_val: u32 = (zeta * hi) % 3329;
                    let d_lo = self.data[j] as u32;
                    self.data[j + len] = ((d_lo + 3329 - t_val) % 3329) as u16;
                    self.data[j] = ((d_lo + t_val) % 3329) as u16;
                    proof {
                        lemma_block_pos(lenl, start as int, j as int);
                        assert(self.data@[j as int] == layer_fwd(s_lvl, lenl)[j as int]);
                        assert(self.data@[j + len] == layer_fwd(s_lvl, lenl)[j + len]);
                    }
                    j += 1;
                }
                proof {
                    lemma_level_step(lenl, start as int);
                }
                start += 2 * len;
            }
            proof {
                assert(self.data@ =~= layer_fwd(s_lvl, lenl));
                assert(fwd_layers(orig, lenl) == layer_fwd(fwd_layers(orig, 2 * lenl), lenl));
                if lenl == 2 {
                    lemma_div_exact(128, lenl, 64);
                    lemma_div_exact(256, 2 * lenl, 64);
                    lemma_div_exact(128, 1, 128);
                    assert(k == 128);
                } else if lenl == 4 {
                    lemma_div_exact(128, lenl, 32);
                    lemma_div_exact(256, 2 * lenl, 32);
                    lemma_div_exact(128, 2, 64);
                    assert(k == 64);
                } else if lenl == 8 {
                    lemma_div_exact(128, lenl, 16);
                    lemma_div_exact(256, 2 * lenl, 16);
                    lemma_div_exact(128, 4, 32);
                    assert(k == 32);
                } else if lenl == 16 {
                    lemma_div_exact(128, lenl, 8);
                    lemma_div_exact(256, 2 * lenl, 8);
                    lemma_div_exact(128, 8, 16);
                    assert(k == 16);
                } else if lenl == 32 {
                    lemma_div_exact(128, lenl, 4);
                    lemma_div_exact(256, 2 * lenl, 4);
                    lemma_div_exact(128, 16, 8);
                    assert(k == 8);
                } else if lenl == 64 {
                    lemma_div_exact(128, lenl, 2);
                    lemma_div_exact(256, 2 * lenl, 2);
                    lemma_div_exact(128, 32, 4);
                    assert(k == 4);
                } else {
                    lemma_div_exact(128, lenl, 1);
                    lemma_div_exact(256, 2 * lenl, 1);
                    lemma_div_exact(128, 64, 2);
                    assert(k == 2);
                }
            }
            len /= 2;
        }
        self.t = RingRepresentation::NTT;
    }

    /// Transforms the element, in place, from the NTT domain back to the
    /// coefficient domain: the inverse butterfly network followed by the
    /// scalar multiplication with the modular inverse of 128.
    pub fn inverse_ntt(&mut self)
        requires
            old(self).wf(),
            old(self).t == RingRepresentation::NTT,
        ensures
            final(self).wf(),
            final(self).t == RingRepresentation::Degree255,
            final(self).data@ == inv_ntt_spec(old(self).data@),
    {
        let ghost orig = self.data@;
        let zeta_powers = Ring::get_zeta_powers_ntt();
        let mut k: usize = 127;
        let mut len: usize = 2;
        while len <= 128
            invariant
                self.data@.len() == 256,
                ring_wf(self.data@),
                self.t == old(self).t,
                orig == old(self).data@,
                zeta_powers@.len() == 128,
                forall|j: int| #![trigger zeta_powers@[j]] 0 <= j < 128 ==> zeta_powers@[j]
                    == zp_ntt(j) && zeta_powers@[j] < 3329,
                len == 2 || len == 4 || len == 8 || len == 16 || len == 32 || len == 64 || len
                    == 128 || len == 256,
                len <= 128 ==> k == 2 * (128int / (len as int)) - 1,
                len == 256 ==> k == 0,
                self.data@ == inv_layers(orig, (len as int) / 2),
            decreases 256 - len,
        {
            let ghost s_lvl = self.data@;
            let ghost lenl = len as int;
            proof {
                lemma_div_exact(0, 2 * lenl, 0);
            }
            let mut start: usize = 0;
            while start < 256
                invariant
                    lenl == len,
                    len == 2 || len == 4 || len == 8 || len == 16 || len == 32 || len == 64 || len
                        == 128,
                    (start as int) % (2 * lenl) == 0,
                    start <= 256,
                    self.data@.len() == 256,
                    ring_wf(self.data@),
                    ring_wf(s_lvl),
                    self.t == old(self).t,
                    zeta_powers@.len() == 128,
                    forall|j: int| #![trigger zeta_powers@[j]] 0 <= j < 128 ==> zeta_powers@[j]
                        == zp_ntt(j) && zeta_powers@[j] < 3329,
                    k == 2 * (128int / lenl) - 1 - (start as int) / (2 * lenl),
                    forall|p: int| #![trigger self.data@[p]] 0 <= p < start ==> self.data@[p]
                        == layer_inv(s_lvl, lenl)[p],
                    forall|p: int| #![trigger self.data@[p]] start <= p < 256 ==> self.data@[p]
                        == s_lvl[p],
                decreases 256 - start,
            {
                proof {
                    lemma_level_step(lenl, start as int);
                }
                let zeta: u32 = zeta_powers[k] as u32;
                let ghost idx = 2 * (128int / lenl) - 1 - (start as int) / (2 * lenl);
                k -= 1;
                let mut j: usize = start;
                while j < start + len
                    invariant
                        lenl == len,
                        len == 2 || len == 4 || len == 8 || len == 16 || len == 32 || len == 64
                            || len == 128,
                        (start as int) % (2 * lenl) == 0,
                        start + 2 * len <= 256,
                        start <= j <= start + len,
                        self.data@.len() == 256,
                        ring_wf(self.data@),
                        ring_wf(s_lvl),
                        self.t == old(self).t,
                        zeta < 3329,
                        zeta == zp_ntt(idx),
                        idx == 2 * (128int / lenl) - 1 - (start as int) / (2 * lenl),
                        forall|p: int| #![trigger self.data@[p]] 0 <= p < start ==> self.data@[p]
                            == layer_inv(s_lvl, lenl)[p],
                        forall|p: int| #![trigger self.data@[p]] start <= p < j ==> self.data@[p]
                            == layer_inv(s_lvl, lenl)[p],
                        forall|p: int| #![trigger self.data@[p]] j <= p < start + len
                            ==> self.data@[p] == s_lvl[p],
                        forall|p: int| #![trigger self.data@[p]] start + len <= p < j + len
                            ==> self.data@[p] == layer_inv(s_lvl, lenl)[p],
                        forall|p: int| #![trigger self.data@[p]] j + len <= p < 256
                            ==> self.data@[p] == s_lvl[p],
                    decreases start + len - j,
                {
                    let t_val = self.data[j];
                    let hi = self.data[j + len];
                    self.data[j] = (hi + t_val) % 3329;
                    let d: u32 = (3329 + hi - t_val) as u32;
                    assert(zeta * d < 0x1_0000_0000) by (nonlinear_arith)
                        requires
                            zeta < 3329,
                            d < 6658,
                    ;
                    self.data[j + len] = ((zeta * d) % 3329) as u16;
                    proof {
                        lemma_block_pos(lenl, start as int, j as int);
                        assert(self.data@[j as int] == layer_inv(s_lvl, lenl)[j as int]);
                        assert(self.data@[j + len] == layer_inv(s_lvl, lenl)[j + len]);
                    }
                    j += 1;
                }
                proof {
                    lemma_level_step(lenl, start as int);
                }
                start += 2 * len;
            }
            proof {
                assert(self.data@ =~= layer_inv(s_lvl, lenl));
                assert(inv_layers(orig, lenl) == layer_inv(inv_layers(orig, lenl / 2), lenl));
                if lenl == 2 {
                    lemma_div_exact(128, lenl, 64);
                    lemma_div_exact(256, 2 * lenl, 64);
                    lemma_div_exact(128, 4, 32);
                    assert(k == 63);
                } else if lenl == 4 {
                    lemma_div_exact(128, lenl, 32);
                    lemma_div_exact(256, 2 * lenl, 32);
                    lemma_div_exact(128, 8, 16);
                    assert(k == 31);
                } else if lenl == 8 {
                    lemma_div_exact(128, lenl, 16);
                    lemma_div_exact(256, 2 * lenl, 16);
                    lemma_div_exact(128, 16, 8);
                    assert(k == 15);
                } else if lenl == 16 {
                    lemma_div_exact(128, lenl, 8);
                    lemma_div_exact(256, 2 * lenl, 8);
                    lemma_div_exact(128, 32, 4);
                    assert(k == 7);
                } else if lenl == 32 {
                    lemma_div_exact(128, lenl, 4);
                    lemma_div_exact(256, 2 * lenl, 4);
                    lemma_div_exact(128, 64, 2);
                    assert(k == 3);
                } else if lenl == 64 {
                    lemma_div_exact(128, lenl, 2);
                    lemma_div_exact(256, 2 * lenl, 2);
                    lemma_div_exact(128, 128, 1);
                    assert(k == 1);
                } else {
                    lemma_div_exact(128, lenl, 1);
                    lemma_div_exact(256, 2 * lenl, 1);
                    assert(k == 0);
                }
            }
            len *= 2;
        }
        self.scalar_mul(3303);
        self.t = RingRepresentation::Degree255;
    }

    /// Pointwise product with `other`; both operands must be NTT-domain.
    pub fn mult(&mut self, other: &Ring)
        requires
            old(self).wf(),
            other.wf(),
            old(self).t == RingRepresentation::NTT,
            other.t == RingRepresentation::NTT,
        ensures
            final(self).wf(),
            final(self).t == RingRepresentation::NTT,
            final(self).data@ == seq_mult_ntt(old(self).data@, other.data@),
    {
        let ghost orig = self.data@;
        let zeta_powers = Ring::get_zeta_powers_mult();
        let mut i: usize = 0;
        while i < 128
            invariant
                i <= 128,
                self.data@.len() == 256,
                self.t == old(self).t,
                orig == old(self).data@,
                ring_wf(orig),
                ring_wf(other.data@),
                zeta_powers@.len() == 128,
                forall|j: int| #![trigger zeta_powers@[j]] 0 <= j < 128 ==> zeta_powers@[j]
                    == zp_mult(j) && zeta_powers@[j] < 3329,
                forall|j: int| 0 <= j < 2 * i ==> #[trigger] self.data@[j] == seq_mult_ntt(
                    orig,
                    other.data@,
                )[j],
                forall|j: int| 2 * i <= j < 256 ==> #[trigger] self.data@[j] == orig[j],
            decreases 128 - i,
        {
            let gamma = zeta_powers[i] as u64;
            let a0 = self.data[2 * i] as u64;
            let a1 = self.data[2 * i + 1] as u64;
            let b0 = other.data[2 * i] as u64;
            let b1 = other.data[2 * i + 1] as u64;
            assert(a1 * b1 < 0x1_0000_0000 && gamma * (a1 * b1) < 0x8000_0000_0000_0000 && a0
                * b0 + gamma * (a1 * b1) < 0x1_0000_0000_0000_0000 && a0 * b1 + a1 * b0
                < 0x1_0000_0000_0000_0000) by (nonlinear_arith)
                requires
                    a0 < 3329,
                    a1 < 3329,
                    b0 < 3329,
                    b1 < 3329,
                    gamma < 3329,
            ;
            let r1: u64 = a0 * b0 + gamma * (a1 * b1);
            let r2: u64 = a0 * b1 + a1 * b0;
            self.data[2 * i] = (r1 % 3329) as u16;
            self.data[2 * i + 1] = (r2 % 3329) as u16;
            i += 1;
        }
        proof {
            assert(self.data@ =~= seq_mult_ntt(orig, other.data@));
        }
    }
}

/// A tuple of ring elements sharing one domain; the module rank `k` is its
/// length.
#[derive(Debug)]
pub struct Vector {
    pub data: Vec<Ring>,
}

/// The coefficient sequences of a vector's entries.
pub open spec fn vecv(v: Vector) -> Seq<Seq<u16>> {
    Seq::new(v.data@.len(), |i: int| v.data@[i].data@)
}

/// The running inner product of the first `n` entries of `a` and `b`:
/// the sum of the pointwise NTT products.
pub open spec fn inner_prod_spec(a: Seq<Seq<u16>>, b: Seq<Seq<u16>>, n: int) -> Seq<u16>
    decreases n,
{
    if n <= 0 {
        zero_seq()
    } else {
        seq_add_q(inner_prod_spec(a, b, n - 1), seq_mult_ntt(a[n - 1], b[n - 1]))
    }
}

impl Vector {
    /// Every entry is well formed.
    pub open spec fn wf(self) -> bool {
        forall|i: int| 0 <= i < self.data@.len() ==> (#[trigger] self.data@[i]).wf()
    }

    /// Every entry carries the tag `t`.
    pub open spec fn all_t(self, t: RingRepresentation) -> bool {
        forall|i: int| 0 <= i < self.data@.len() ==> (#[trigger] self.data@[i]).t == t
    }

    /// A vector of `k` zero elements of domain `t`.
    pub fn new(t: RingRepresentation, k: usize) -> (v: Vector)
        ensures
            v.data@.len() == k,
            v.wf(),
            v.all_t(t),
            forall|i: int| 0 <= i < k ==> (#[trigger] v.data@[i]).data@ == zero_seq(),
    {
        let mut data: Vec<Ring> = Vec::new();
        let mut i: usize = 0;
        while i < k
            invariant
                i <= k,
                data@.len() == i,
                forall|j: int| 0 <= j < i ==> (#[trigger] data@[j]).data@ == zero_seq()
                    && data@[j].t == t && data@[j].wf(),
            decreases k - i,
        {
            data.push(Ring::new(t));
            i += 1;
        }
        Vector { data }
    }

    /// A vector of `k` zero elements in the NTT domain.
    pub fn new_ntt(k: usize) -> (v: Vector)
        ensures
            v.data@.len() == k,
            v.wf(),
            v.all_t(RingRepresentation::NTT),
            forall|i: int| 0 <= i < k ==> (#[trigger] v.data@[i]).data@ == zero_seq(),
    {
        Vector::new(RingRepresentation::NTT, k)
    }

    /// A vector of `k` zero elements in the coefficient domain.
    pub fn new_degree255(k: usize) -> (v: Vector)
        ensures
            v.data@.len() == k,
            v.wf(),
            v.all_t(RingRepresentation::Degree255),
            forall|i: int| 0 <= i < k ==> (#[trigger] v.data@[i]).data@ == zero_seq(),
    {
        Vector::new(RingRepresentation::Degree255, k)
    }

    /// Element-wise sum with `other`; lengths and domains must agree.
    pub fn add(&mut self, other: &Vector)
        requires
            old(self).wf(),
            other.wf(),
            old(self).data@.len() == other.data@.len(),
            forall|i: int| 0 <= i < other.data@.len() ==> (#[trigger] old(self).data@[i]).t
                == other.data@[i].t,
        ensures
            final(self).wf(),
            final(self).data@.len() == old(self).data@.len(),
            forall|i: int| 0 <= i < old(self).data@.len() ==> (#[trigger] final(self).data@[i]).t
                == old(self).data@[i].t,
            forall|i: int| 0 <= i < old(self).data@.len() ==> (#[trigger] final(self).data@[i])
                .data@ == seq_add_q(old(self).data@[i].data@, other.data@[i].data@),
    {
        let ghost v0 = *self;
        let k = self.data.len();
        let mut i: usize = 0;
        while i < k
            invariant
                i <= k,
                k == v0.data@.len(),
                self.data@.len() == k,
                other.data@.len() == k,
                v0 == *old(self),
                v0.wf(),
                other.wf(),
                forall|j: int| 0 <= j < k ==> (#[trigger] v0.data@[j]).t == other.data@[j].t,
                forall|j: int| i <= j < k ==> (#[trigger] self.data@[j]) == v0.data@[j],
                forall|j: int| 0 <= j < i ==> (#[trigger] self.data@[j]).t == v0.data@[j].t,
                forall|j: int| 0 <= j < i ==> (#[trigger] self.data@[j]).wf(),
                forall|j: int| 0 <= j < i ==> (#[trigger] self.data@[j]).data@ == seq_add_q(
                    v0.data@[j].data@,
                    other.data@[j].data@,
                ),
            decreases k - i,
        {
            self.data[i].add(&other.data[i]);
            i += 1;
        }
    }

    /// The inner product with `other`: the sum of the pointwise products of
    /// corresponding entries.  Both vectors must be NTT-domain.
    pub fn inner_product(self, other: &Vector) -> (r: Ring)
        requires
            self.wf(),
            other.wf(),
            self.all_t(RingRepresentation::NTT),
            other.all_t(RingRepresentation::NTT),
            self.data@.len() == other.data@.len(),
        ensures
            r.wf(),
            r.t == RingRepresentation::NTT,
            r.data@ == inner_prod_spec(vecv(self), vecv(*other), self.data@.len() as int),
    {
        let ghost a0 = self;
        let mut this = self;
        let k = this.data.len();
        let mut acc = Ring::new(RingRepresentation::NTT);
        let mut i: usize = 0;
        while i < k
            invariant
                i <= k,
                k == a0.data@.len(),
                this.data@.len() == k,
                other.data@.len() == k,
                a0.wf(),
                other.wf(),
                a0.all_t(RingRepresentation::NTT),
                other.all_t(RingRepresentation::NTT),
                forall|j: int| i <= j < k ==> (#[trigger] this.data@[j]) == a0.data@[j],
                acc.wf(),
                acc.t == RingRepresentation::NTT,
                acc.data@ == inner_prod_spec(vecv(a0), vecv(*other), i as int),
            decreases k - i,
        {
            this.data[i].mult(&other.data[i]);
            acc.add(&this.data[i]);
            i += 1;
        }
        acc
    }

    /// Transforms every entry to the NTT domain.
    pub fn ntt(self) -> (r: Vector)
        requires
            self.wf(),
            self.all_t(RingRepresentation::Degree255),
        ensures
            r.wf(),
            r.all_t(RingRepresentation::NTT),
            r.data@.len() == self.data@.len(),
            forall|i: int| 0 <= i < self.data@.len() ==> (#[trigger] r.data@[i]).data@ == ntt_spec(
                self.data@[i].data@,
            ),
    {
        let ghost a0 = self;
        let mut this = self;
        let k = this.data.len();
        let mut i: usize = 0;
        while i < k
            invariant
                i <= k,
                k == a0.data@.len(),
                this.data@.len() == k,
                a0.wf(),
                a0.all_t(RingRepresentation::Degree255),
                forall|j: int| i <= j < k ==> (#[trigger] this.data@[j]) == a0.data@[j],
                forall|j: int| 0 <= j < i ==> (#[trigger] this.data@[j]).wf(),
                forall|j: int| 0 <= j < i ==> (#[trigger] this.data@[j]).t
                    == RingRepresentation::NTT,
                forall|j: int| 0 <= j < i ==> (#[trigger] this.data@[j]).data@ == ntt_spec(
                    a0.data@[j].data@,
                ),
            decreases k - i,
        {
            this.data[i].ntt();
            i += 1;
        }
        this
    }

    /// Transforms every entry back to the coefficient domain.
    pub fn inverse_ntt(self) -> (r: Vector)
        requires
            self.wf(),
            self.all_t(RingRepresentation::NTT),
        ensures
            r.wf(),
            r.all_t(RingRepresentation::Degree255),
            r.data@.len() == self.data@.len(),
            forall|i: int| 0 <= i < self.data@.len() ==> (#[trigger] r.data@[i]).data@
                == inv_ntt_spec(self.data@[i].data@),
    {
        let ghost a0 = self;
        let mut this = self;
        let k = this.data.len();
        let mut i: usize = 0;
        while i < k
            invariant
                i <= k,
                k == a0.data@.len(),
                this.data@.len() == k,
                a0.wf(),
                a0.all_t(RingRepresentation::NTT),
                forall|j: int| i <= j < k ==> (#[trigger] this.data@[j]) == a0.data@[j],
                forall|j: int| 0 <= j < i ==> (#[trigger] this.data@[j]).wf(),
                forall|j: int| 0 <= j < i ==> (#[trigger] this.data@[j]).t
                    == RingRepresentation::Degree255,
                forall|j: int| 0 <= j < i ==> (#[trigger] this.data@[j]).data@ == inv_ntt_spec(
                    a0.data@[j].data@,
                ),
            decreases k - i,
        {
            this.data[i].inverse_ntt();
            i += 1;
        }
        this
    }
}

/// A `k` by `k` matrix of NTT-domain ring elements, row major.
#[derive(Debug)]
pub struct Matrix {
    pub data: Vec<Vec<Ring>>,
}

/// The coefficient sequences of a matrix's entries, row major.
pub open spec fn matv(m: Matrix) -> Seq<Seq<Seq<u16>>> {
    Seq::new(m.data@.len(), |i: int| Seq::new(m.data@[i]@.len(), |j: int| m.data@[i]@[j].data@))
}

/// The running sum over `j < n` of `m[i][j] * v[j]`: one entry of the
/// "rows times vector" product.
pub open spec fn mat_row_prod(m: Seq<Seq<Seq<u16>>>, v: Seq<Seq<u16>>, i: int, n: int) -> Seq<u16>
    decreases n,
{
    if n <= 0 {
        zero_seq()
    } else {
        seq_add_q(mat_row_prod(m, v, i, n - 1), seq_mult_ntt(m[i][n - 1], v[n - 1]))
    }
}

/// The running sum over `j < n` of `m[j][i] * v[j]`: one entry of the
/// "transpose times vector" product.
pub open spec fn mat_col_prod(m: Seq<Seq<Seq<u16>>>, v: Seq<Seq<u16>>, i: int, n: int) -> Seq<u16>
    decreases n,
{
    if n <= 0 {
        zero_seq()
    } else {
        seq_add_q(mat_col_prod(m, v, i, n - 1), seq_mult_ntt(m[n - 1][i], v[n - 1]))
    }
}

impl Matrix {
    /// A square matrix of `k` well-formed NTT rows.
    pub open spec fn wf_k(self, k: int) -> bool {
        self.data@.len() == k && (forall|i: int| 0 <= i < k ==> (#[trigger] self.data@[i])@.len()
            == k) && (forall|i: int, j: int|
            0 <= i < k && 0 <= j < k ==> (#[trigger] self.data@[i]@[j]).wf() && self.data@[i]@[j].t
                == RingRepresentation::NTT)
    }

    /// A `k` by `k` matrix of zero elements of domain `t`; the matrices of
    /// the scheme are always NTT-domain.
    pub fn new(t: RingRepresentation, k: usize) -> (m: Matrix)
        ensures
            t == RingRepresentation::NTT ==> m.wf_k(k as int),
            m.data@.len() == k,
            forall|i: int| 0 <= i < k ==> (#[trigger] m.data@[i])@.len() == k,
            forall|i: int, j: int| 0 <= i < k && 0 <= j < k ==> (#[trigger] m.data@[i]@[j]).wf()
                && m.data@[i]@[j].t == t,
    {
        let mut data: Vec<Vec<Ring>> = Vec::new();
        let mut i: usize = 0;
        while i < k
            invariant
                i <= k,
                data@.len() == i,
                forall|r: int| 0 <= r < i ==> (#[trigger] data@[r])@.len() == k,
                forall|r: int, c: int| 0 <= r < i && 0 <= c < k ==> (#[trigger] data@[r]@[c]).wf()
                    && data@[r]@[c].t == t,
            decreases k - i,
        {
            let mut row: Vec<Ring> = Vec::new();
            let mut j: usize = 0;
            while j < k
                invariant
                    j <= k,
                    row@.len() == j,
                    forall|c: int| 0 <= c < j ==> (#[trigger] row@[c]).wf() && row@[c].t == t,
                decreases k - j,
            {
                row.push(Ring::new(t));
                j += 1;
            }
            data.push(row);
            i += 1;
        }
        Matrix { data }
    }

    /// A `k` by `k` matrix of zero NTT elements.
    pub fn new_ntt(k: usize) -> (m: Matrix)
        ensures
            m.wf_k(k as int),
    {
        Matrix::new(RingRepresentation::NTT, k)
    }

    /// The product "rows times vector": entry `i` of the result is the inner
    /// product of row `i` with `vector`.
    pub fn right_vector_multiply(self, vector: &Vector) -> (r: Vector)
        requires
            self.wf_k(vector.data@.len() as int),
            vector.wf(),
            vector.all_t(RingRepresentation::NTT),
        ensures
            r.wf(),
            r.all_t(RingRepresentation::NTT),
            r.data@.len() == vector.data@.len(),
            forall|i: int| 0 <= i < vector.data@.len() ==> (#[trigger] r.data@[i]).data@
                == mat_row_prod(matv(self), vecv(*vector), i, vector.data@.len() as int),
    {
        let ghost m0 = self;
        let mut this = self;
        let k = vector.data.len();
        let mut out: Vec<Ring> = Vec::new();
        let mut i: usize = 0;
        while i < k
            invariant
                i <= k,
                m0.wf_k(k as int),
                vector.wf(),
                vector.all_t(RingRepresentation::NTT),
                vector.data@.len() == k,
                this.data@.len() == k,
                forall|r: int| 0 <= r < k ==> (#[trigger] this.data@[r])@.len() == k,
                forall|r: int, c: int| i <= r < k && 0 <= c < k ==> (#[trigger] this.data@[r]@[c])
                    == m0.data@[r]@[c],
                out@.len() == i,
                forall|r: int| 0 <= r < i ==> (#[trigger] out@[r]).wf() && out@[r].t
                    == RingRepresentation::NTT,
                forall|r: int| 0 <= r < i ==> (#[trigger] out@[r]).data@ == mat_row_prod(
                    matv(m0),
                    vecv(*vector),
                    r,
                    k as int,
                ),
            decreases k - i,
        {
            let mut acc = Ring::new(RingRepresentation::NTT);
            let mut j: usize = 0;
            while j < k
                invariant
                    i < k,
                    j <= k,
                    m0.wf_k(k as int),
                    vector.wf(),
                    vector.all_t(RingRepresentation::NTT),
                    vector.data@.len() == k,
                    this.data@.len() == k,
                    forall|r: int| 0 <= r < k ==> (#[trigger] this.data@[r])@.len() == k,
                    forall|r: int, c: int| i < r < k && 0 <= c < k ==> (#[trigger] this
                        .data@[r]@[c]) == m0.data@[r]@[c],
                    forall|c: int| j <= c < k ==> (#[trigger] this.data@[i as int]@[c])
                        == m0.data@[i as int]@[c],
                    acc.wf(),
                    acc.t == RingRepresentation::NTT,
                    acc.data@ == mat_row_prod(matv(m0), vecv(*vector), i as int, j as int),
                decreases k - j,
            {
                this.data[i][j].mult(&vector.data[j]);
                acc.add(&this.data[i][j]);
                j += 1;
            }
            out.push(acc);
            i += 1;
        }
        Vector { data: out }
    }

    /// The product "transpose times vector": entry `i` of the result is the
    /// inner product of column `i` with `vector`.
    pub fn left_vector_multiply(self, vector: &Vector) -> (r: Vector)
        requires
            self.wf_k(vector.data@.len() as int),
            vector.wf(),
            vector.all_t(RingRepresentation::NTT),
        ensures
            r.wf(),
            r.all_t(RingRepresentation::NTT),
            r.data@.len() == vector.data@.len(),
            forall|i: int| 0 <= i < vector.data@.len() ==> (#[trigger] r.data@[i]).data@
                == mat_col_prod(matv(self), vecv(*vector), i, vector.data@.len() as int),
    {
        let ghost m0 = self;
        let mut this = self;
        let k = vector.data.len();
        let mut out: Vec<Ring> = Vec::new();
        let mut i: usize = 0;
        while i < k
            invariant
                i <= k,
                m0.wf_k(k as int),
                vector.wf(),
                vector.all_t(RingRepresentation::NTT),
                vector.data@.len() == k,
                this.data@.len() == k,
                forall|r: int| 0 <= r < k ==> (#[trigger] this.data@[r])@.len() == k,
                forall|r: int, c: int| 0 <= r < k && i <= c < k ==> (#[trigger] this.data@[r]@[c])
                    == m0.data@[r]@[c],
                out@.len() == i,
                forall|r: int| 0 <= r < i ==> (#[trigger] out@[r]).wf() && out@[r].t
                    == RingRepresentation::NTT,
                forall|r: int| 0 <= r < i ==> (#[trigger] out@[r]).data@ == mat_col_prod(
                    matv(m0),
                    vecv(*vector),
                    r,
                    k as int,
                ),
            decreases k - i,
        {
            let mut acc = Ring::new(RingRepresentation::NTT);
            let mut j: usize = 0;
            while j < k
                invariant
                    i < k,
                    j <= k,
                    m0.wf_k(k as int),
                    vector.wf(),
                    vector.all_t(RingRepresentation::NTT),
                    vector.data@.len() == k,
                    this.data@.len() == k,
                    forall|r: int| 0 <= r < k ==> (#[trigger] this.data@[r])@.len() == k,
                    forall|r: int, c: int| 0 <= r < k && i < c < k ==> (#[trigger] this
                        .data@[r]@[c]) == m0.data@[r]@[c],
                    forall|r: int| j <= r < k ==> (#[trigger] this.data@[r]@[i as int])
                        == m0.data@[r]@[i as int],
                    acc.wf(),
                    acc.t == RingRepresentation::NTT,
                    acc.data@ == mat_col_prod(matv(m0), vecv(*vector), i as int, j as int),
                decreases k - j,
            {
                this.data[j][i].mult(&vector.data[j]);
                acc.add(&this.data[j][i]);
                j += 1;
            }
            out.push(acc);
            i += 1;
        }
        Vector { data: out }
    }
}

/// One coefficient rounded into `[0, 2^d)`: multiply by `2^d / Q` with
/// rounding to nearest, by adding half of `Q` before the floor division.
pub open spec fn compress_coef(x: u16, d: nat) -> u16 {
    ((((x * pow2(d)) + 1664) / 3329) % (pow2(d) as int)) as u16
}

/// One compressed coefficient scaled back to `[0, Q)`: multiply by
/// `Q / 2^d` with rounding to nearest.
pub open spec fn decompress_coef(c: u16, d: nat) -> u16 {
    (((c * 3329) + pow2((d - 1) as nat)) / (pow2(d) as int)) as u16
}

/// Every coefficient compressed to `d` bits.
pub open spec fn seq_compress(s: Seq<u16>, d: nat) -> Seq<u16> {
    Seq::new(s.len(), |i: int| compress_coef(s[i], d))
}

/// Every coefficient decompressed from `d` bits.
pub open spec fn seq_decompress(s: Seq<u16>, d: nat) -> Seq<u16> {
    Seq::new(s.len(), |i: int| decompress_coef(s[i], d))
}

/// 256 coefficients, all below `2^d`.
pub open spec fn compressed_wf(s: Seq<u16>, d: nat) -> bool {
    s.len() == 256 && (forall|i: int| 0 <= i < 256 ==> s[i] < pow2(d))
}

/// A ring or vector whose coefficients have been rounded into `[0, 2^d)`;
/// the distinct type keeps compressed and plain values from being mixed up.
#[derive(Debug)]
pub struct Compressed<T> {
    pub value: T,
    pub d: usize,
}

/// Proves the facts one compression step needs: the shifted product fits,
/// the shift is the multiplication by `2^d`, and the mask is the remainder.
proof fn lemma_compress_step(x: u16, d: usize)
    requires
        x < 3329,
        1 <= d <= 12,
    ensures
        x * pow2(d as nat) <= 3328 * 4096,
        pow2(d as nat) <= 4096,
        2 <= pow2(d as nat),
{
    vstd::arithmetic::power2::lemma2_to64();
    if (d as nat) < 12 {
        vstd::arithmetic::power2::lemma_pow2_strictly_increases(d as nat, 12);
    }
    if 1 < (d as nat) {
        vstd::arithmetic::power2::lemma_pow2_strictly_increases(1, d as nat);
    }
    assert(x * pow2(d as nat) <= 3328 * 4096) by (nonlinear_arith)
        requires
            x <= 3328,
            0 <= pow2(d as nat) <= 4096,
    ;
}

impl Compressed<Ring> {
    /// All coefficients rounded into `d` bits.
    pub open spec fn wf(self) -> bool {
        1 <= self.d <= 12 && compressed_wf(self.value.data@, self.d as nat)
    }

    /// Rounds every coefficient of `ring` into `[0, 2^d)`.
    pub fn compress(ring: Ring, d: usize) -> (c: Compressed<Ring>)
        requires
            ring.wf(),
            1 <= d <= 12,
        ensures
            c.d == d,
            c.value.t == ring.t,
            c.value.data@ == seq_compress(ring.data@, d as nat),
            c.wf(),
    {
        let mut r = ring;
        let ghost orig = r.data@;
        let mut i: usize = 0;
        while i < 256
            invariant
                i <= 256,
                1 <= d <= 12,
                r.data@.len() == 256,
                r.t == ring.t,
                orig == ring.data@,
                ring_wf(orig),
                forall|j: int| 0 <= j < i ==> #[trigger] r.data@[j] == seq_compress(
                    orig,
                    d as nat,
                )[j] && r.data@[j] < pow2(d as nat),
                forall|j: int| i <= j < 256 ==> #[trigger] r.data@[j] == orig[j],
            decreases 256 - i,
        {
            let x = r.data[i];
            proof {
                lemma_compress_step(x, d);
                vstd::bits::lemma_u32_shl_is_mul(x as u32, d as u32);
            }
            let shifted: u32 = (x as u32) << (d as u32);
            let q: u32 = (shifted + 1664) / 3329;
            proof {
                vstd::bits::lemma_u16_shl_is_mul(1u16, d as u16);
                vstd::bits::lemma_u16_low_bits_mask_is_mod((q % 0x1_0000) as u16, d as nat);
            }
            let mask: u16 = (1u16 << (d as u16)) - 1;
            r.data[i] = (q as u16) & mask;
            i += 1;
        }
        proof {
            assert(r.data@ =~= seq_compress(orig, d as nat));
        }
        Compressed { value: r, d }
    }

    /// Scales every coefficient back to `[0, Q)`; lossy except for what the
    /// rounding already discarded.
    pub fn decompress(self) -> (r: Ring)
        requires
            self.wf(),
        ensures
            r.t == self.value.t,
            r.wf(),
            r.data@ == seq_decompress(self.value.data@, self.d as nat),
    {
        let d = self.d;
        let mut r = self.value;
        let ghost orig = r.data@;
        let mut i: usize = 0;
        while i < 256
            invariant
                i <= 256,
                1 <= d <= 12,
                d == self.d,
                r.data@.len() == 256,
                r.t == self.value.t,
                orig == self.value.data@,
                compressed_wf(orig, d as nat),
                forall|j: int| 0 <= j < i ==> #[trigger] r.data@[j] == seq_decompress(
                    orig,
                    d as nat,
                )[j] && r.data@[j] < 3329,
                forall|j: int| i <= j < 256 ==> #[trigger] r.data@[j] == orig[j],
            decreases 256 - i,
        {
            let c = r.data[i];
            proof {
                vstd::arithmetic::power2::lemma2_to64();
                if (d as nat) < 12 {
                    vstd::arithmetic::power2::lemma_pow2_strictly_increases(d as nat, 12);
                }
                vstd::arithmetic::power2::lemma_pow2_unfold(d as nat);
                vstd::bits::lemma_u32_shl_is_mul(1u32, (d - 1) as u32);
                assert(c * 3329 <= 4095 * 3329) by (nonlinear_arith)
                    requires
                        c <= 4095,
                ;
            }
            let half: u32 = 1u32 << ((d - 1) as u32);
            let x: u32 = (c as u32) * 3329 + half;
            proof {
                vstd::bits::lemma_u32_shr_is_div(x, d as u32);
                assert(x < 3329 * pow2(d as nat)) by (nonlinear_arith)
                    requires
                        c < pow2(d as nat),
                        x == c * 3329 + pow2((d - 1) as nat),
                        2 * pow2((d - 1) as nat) == pow2(d as nat),
                        pow2(d as nat) <= 4096,
                ;
                vstd::arithmetic::div_mod::lemma_multiply_divide_lt(
                    x as int,
                    pow2(d as nat) as int,
                    3329,
                );
            }
            let v: u32 = x >> (d as u32);
            r.data[i] = v as u16;
            i += 1;
        }
        proof {
            assert(r.data@ =~= seq_decompress(orig, d as nat));
        }
        r
    }
}

impl Compressed<Vector> {
    /// All coefficients of all entries rounded into `d` bits.
    pub open spec fn wf(self) -> bool {
        1 <= self.d <= 12 && (forall|i: int|
            0 <= i < self.value.data@.len() ==> compressed_wf(
                (#[trigger] self.value.data@[i]).data@,
                self.d as nat,
            ))
    }

    /// Rounds every coefficient of every entry of `vector` into `[0, 2^d)`.
    pub fn compress(vector: Vector, d: usize) -> (c: Compressed<Vector>)
        requires
            vector.wf(),
            1 <= d <= 12,
        ensures
            c.d == d,
            c.value.data@.len() == vector.data@.len(),
            forall|i: int| 0 <= i < vector.data@.len() ==> (#[trigger] c.value.data@[i]).t
                == vector.data@[i].t,
            forall|i: int| 0 <= i < vector.data@.len() ==> (#[trigger] c.value.data@[i]).data@
                == seq_compress(vector.data@[i].data@, d as nat),
            c.wf(),
    {
        let ghost v0 = vector;
        let mut data = vector.data;
        let k = data.len();
        let mut out: Vec<Ring> = Vec::new();
        let mut i: usize = 0;
        while i < k
            invariant
                i <= k,
                1 <= d <= 12,
                data@.len() + i == k,
                v0.data@.len() == k,
                v0.wf(),
                forall|j: int| 0 <= j < k - i ==> #[trigger] data@[j] == v0.data@[j + i],
                out@.len() == i,
                forall|j: int| 0 <= j < i ==> (#[trigger] out@[j]).t == v0.data@[j].t,
                forall|j: int| 0 <= j < i ==> (#[trigger] out@[j]).data@ == seq_compress(
                    v0.data@[j].data@,
                    d as nat,
                ),
                forall|j: int| 0 <= j < i ==> compressed_wf((#[trigger] out@[j]).data@, d as nat),
            decreases k - i,
        {
            let r = data.remove(0);
            proof {
                assert(v0.data@[i as int] == r);
            }
            let cr = Compressed::<Ring>::compress(r, d);
            out.push(cr.value);
            i += 1;
        }
        Compressed { value: Vector { data: out }, d }
    }

    /// Scales every coefficient of every entry back to `[0, Q)`.
    pub fn decompress(self) -> (r: Vector)
        requires
            self.wf(),
        ensures
            r.wf(),
            r.data@.len() == self.value.data@.len(),
            forall|i: int| 0 <= i < self.value.data@.len() ==> (#[trigger] r.data@[i]).t
                == self.value.data@[i].t,
            forall|i: int| 0 <= i < self.value.data@.len() ==> (#[trigger] r.data@[i]).data@
                == seq_decompress(self.value.data@[i].data@, self.d as nat),
    {
        let ghost v0 = self.value;
        let d = self.d;
        let mut data = self.value.data;
        let k = data.len();
        let mut out: Vec<Ring> = Vec::new();
        let mut i: usize = 0;
        while i < k
            invariant
                i <= k,
                1 <= d <= 12,
                d == self.d,
                data@.len() + i == k,
                v0.data@.len() == k,
                v0 == self.value,
                forall|j: int| 0 <= j < k ==> compressed_wf(
                    (#[trigger] v0.data@[j]).data@,
                    d as nat,
                ),
                forall|j: int| 0 <= j < k - i ==> #[trigger] data@[j] == v0.data@[j + i],
                out@.len() == i,
                forall|j: int| 0 <= j < i ==> (#[trigger] out@[j]).t == v0.data@[j].t
                    && out@[j].wf(),
                forall|j: int| 0 <= j < i ==> (#[trigger] out@[j]).data@ == seq_decompress(
                    v0.data@[j].data@,
                    d as nat,
                ),
            decreases k - i,
        {
            let r = data.remove(0);
            proof {
                assert(v0.data@[i as int] == r);
            }
            let dr = (Compressed { value: r, d }).decompress();
            out.push(dr);
            i += 1;
        }
        Vector { data: out }
    }
}

/// The distance of a coefficient from its compress-then-decompress image,
/// measured around the circle of residues modulo `Q`.
pub open spec fn mod_q_dist(x: u16, y: u16) -> int {
    let diff = if y >= x {
        (y - x) as int
    } else {
        (x - y) as int
    };
    if diff <= 3329 - diff {
        diff
    } else {
        3329 - diff
    }
}

/// Compression is lossy by at most `Q / 2^(d+1)` per coefficient: the
/// round-trip error, measured modulo `Q`, satisfies
/// `2 * dist * 2^d <= Q - 1 + 2^d`.
pub proof fn lemma_compress_decompress_bound(x: u16, d: nat)
    requires
        x < 3329,
        1 <= d <= 12,
    ensures
        2 * mod_q_dist(x, decompress_coef(compress_coef(x, d), d)) * pow2(d) <= 3328 + pow2(d),
{
    vstd::arithmetic::power2::lemma2_to64();
    if d < 12 {
        vstd::arithmetic::power2::lemma_pow2_strictly_increases(d, 12);
    }
    vstd::arithmetic::power2::lemma_pow2_unfold(d);
    let p = pow2(d) as int;
    let h = pow2((d - 1) as nat) as int;
    assert(2 * h == p);
    let cp = (x * p + 1664) / 3329;
    let r0 = (x * p + 1664) % 3329;
    lemma_fundamental_div_mod(x * p + 1664, 3329);
    assert(x * p + 1664 < 3329 * (p + 1)) by (nonlinear_arith)
        requires
            x <= 3328,
            2 <= p <= 4096,
    ;
    vstd::arithmetic::div_mod::lemma_multiply_divide_lt(x * p + 1664, 3329, p + 1);
    assert(cp <= p);
    assert(cp >= 0) by {
        vstd::arithmetic::div_mod::lemma_div_pos_is_pos(x * p + 1664, 3329);
    }
    if cp < p {
        lemma_small_mod(cp as nat, p as nat);
        assert(compress_coef(x, d) == cp);
        let y = (cp * 3329 + h) / p;
        let r1 = (cp * 3329 + h) % p;
        lemma_fundamental_div_mod(cp * 3329 + h, p);
        assert(cp * 3329 + h < 3329 * p) by (nonlinear_arith)
            requires
                cp < p,
                2 * h == p,
                2 <= p <= 4096,
        ;
        vstd::arithmetic::div_mod::lemma_multiply_divide_lt(cp * 3329 + h, p, 3329);
        vstd::arithmetic::div_mod::lemma_div_pos_is_pos(cp * 3329 + h, p);
        assert(0 <= y < 3329);
        assert(decompress_coef(compress_coef(x, d), d) == y);
        // y*p - x*p == 1664 + h - r0 - r1
        assert(y * p == cp * 3329 + h - r1) by (nonlinear_arith)
            requires
                cp * 3329 + h == p * y + r1,
        ;
        assert(cp * 3329 == x * p + 1664 - r0) by (nonlinear_arith)
            requires
                x * p + 1664 == 3329 * cp + r0,
        ;
        assert((y - x) * p == 1664 + h - r0 - r1) by (nonlinear_arith)
            requires
                y * p == x * p + 1664 - r0 + h - r1,
        ;
        let e = (y - x) * p;
        assert(0 - (1664 + h) <= e <= 1664 + h);
        let yy = decompress_coef(compress_coef(x, d), d);
        assert(yy == y);
        if y >= x {
            assert(mod_q_dist(x, yy) <= y - x);
            assert(2 * (y - x) * p <= 3328 + p) by (nonlinear_arith)
                requires
                    (y - x) * p <= 1664 + h,
                    2 * h == p,
                    p >= 2,
            ;
            assert(2 * mod_q_dist(x, yy) * p <= 2 * (y - x) * p) by (nonlinear_arith)
                requires
                    0 <= mod_q_dist(x, yy) <= y - x,
                    p >= 2,
            ;
        } else {
            assert(mod_q_dist(x, yy) <= x - y);
            assert(2 * (x - y) * p <= 3328 + p) by (nonlinear_arith)
                requires
                    0 - (1664 + h) <= (y - x) * p,
                    2 * h == p,
                    p >= 2,
            ;
            assert(2 * mod_q_dist(x, yy) * p <= 2 * (x - y) * p) by (nonlinear_arith)
                requires
                    0 <= mod_q_dist(x, yy) <= x - y,
                    p >= 2,
            ;
        }
    } else {
        // x is so close to Q that it rounds up to the modulus itself and
        // wraps to zero.
        assert(cp == p);
        lemma_div_exact(cp * p, p, cp);
        assert(cp % p == 0) by {
            lemma_fundamental_div_mod_converse_mod(cp, p, 1, 0);
        }
        assert(compress_coef(x, d) == 0);
        let y = (0 * 3329 + h) / p;
        assert(h / p == 0) by {
            lemma_small_mod(h as nat, p as nat);
            vstd::arithmetic::div_mod::lemma_basic_div(h, p);
        }
        assert(decompress_coef(0u16, d) == 0);
        // (3329 - x) * p <= 1664
        assert((3329 - x) * p <= 1664) by (nonlinear_arith)
            requires
                x * p + 1664 == 3329 * cp + r0,
                cp == p,
                r0 >= 0,
        ;
        assert(3329 - x <= 1664) by (nonlinear_arith)
            requires
                (3329 - x) * p <= 1664,
                p >= 2,
                x < 3329,
        ;
        let yy = decompress_coef(compress_coef(x, d), d);
        assert(yy == 0);
        assert(mod_q_dist(x, yy) <= 3329 - x);
        assert(2 * mod_q_dist(x, yy) * p <= 2 * (3329 - x) * p) by (nonlinear_arith)
            requires
                0 <= mod_q_dist(x, yy) <= 3329 - x,
                p >= 2,
        ;
        assert(2 * (3329 - x) * p <= 3328) by (nonlinear_arith)
            requires
                (3329 - x) * p <= 1664,
        ;
    }
}

} // verus!
