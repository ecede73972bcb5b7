//! Bit-exact serialization: packing ring coefficients into byte strings at
//! `d` bits per coefficient, in one fixed global bit order — least
//! significant bit of each byte first, coefficients least significant bit
//! first — and the byte layouts of keys and ciphertexts built from it.

use vstd::prelude::*;
use vstd::arithmetic::power2::{pow2, lemma2_to64, lemma_pow2_unfold};
use vstd::arithmetic::div_mod::{lemma_multiply_divide_lt, lemma_fundamental_div_mod_converse_div, lemma_fundamental_div_mod_converse_mod};
use crate::ring::{Ring, RingRepresentation, Vector, Compressed, ring_wf, compressed_wf, vecv};
use crate::sample::{bit_of, lemma_bit_le_one};
use crate::params::{ParamSet, MlKemError};
use crate::kpke::{KpkeEncryptionKey, Cyphertext};
use crate::mlkem::MlkemDecapsulationKey;

verus! {

/// Bit `j` of the coefficient value `x`.
pub open spec fn coef_bit(x: u16, j: int) -> u16 {
    ((x >> (j as u16)) & 1) as u16
}

/// Bit `i` of the packed bit stream of `s` at `d` bits per coefficient:
/// bit `i % d` of coefficient `i / d`.
pub open spec fn enc_bit(s: Seq<u16>, d: int, i: int) -> u16 {
    coef_bit(s[i / d], i % d)
}

/// The value of the first `t` bits of packed byte `k`, least significant
/// first.
pub open spec fn enc_byte_partial(s: Seq<u16>, d: int, k: int, t: int) -> int
    decreases t,
{
    if t <= 0 {
        0
    } else {
        enc_byte_partial(s, d, k, t - 1) + pow2((t - 1) as nat) * enc_bit(s, d, 8 * k + t - 1)
    }
}

/// The packed byte string of `s` at `d` bits per coefficient: `32 * d`
/// bytes, byte `k` holding stream bits `8k` through `8k + 7`.
pub open spec fn byte_encode_spec(s: Seq<u16>, d: int) -> Seq<u8> {
    Seq::new((32 * d) as nat, |k: int| enc_byte_partial(s, d, k, 8) as u8)
}

/// The value of the low `j` bits of coefficient `i` read back from the
/// packed bytes.
pub open spec fn dec_val_partial(bytes: Seq<u8>, d: int, i: int, j: int) -> int
    decreases j,
{
    if j <= 0 {
        0
    } else {
        dec_val_partial(bytes, d, i, j - 1) + pow2((j - 1) as nat) * bit_of(bytes, i * d + j - 1)
    }
}

/// Coefficient `i` read back from the packed bytes: the `d` stored bits,
/// reduced modulo `Q` so that the ring invariant holds for every input.
pub open spec fn decoded_coef(bytes: Seq<u8>, d: int, i: int) -> u16 {
    ((dec_val_partial(bytes, d, i, d) % 3329) as u16)
}

/// All 256 coefficients read back from the packed bytes.
pub open spec fn byte_decode_spec(bytes: Seq<u8>, d: int) -> Seq<u16> {
    Seq::new(256, |i: int| decoded_coef(bytes, d, i))
}

/// An extracted stream bit is zero or one.
pub proof fn lemma_bit_of_le_one(bytes: Seq<u8>, i: int)
    ensures
        bit_of(bytes, i) <= 1,
{
    lemma_bit_le_one(bytes[i / 8], (i % 8) as u8);
}

/// An extracted coefficient bit is zero or one.
pub proof fn lemma_coef_bit_le_one(x: u16, j: int)
    ensures
        coef_bit(x, j) <= 1,
{
    let sh = j as u16;
    assert(((x >> sh) & 1) <= 1) by (bit_vector);
}

/// A partial encoded byte value is below `2^t`.
pub proof fn lemma_enc_byte_bound(s: Seq<u16>, d: int, k: int, t: int)
    requires
        t >= 0,
    ensures
        0 <= enc_byte_partial(s, d, k, t) < pow2(t as nat),
    decreases t,
{
    vstd::arithmetic::power2::lemma_pow2_pos(t as nat);
    if t > 0 {
        lemma_enc_byte_bound(s, d, k, t - 1);
        lemma_pow2_unfold(t as nat);
        lemma_coef_bit_le_one(s[(8 * k + t - 1) / d], (8 * k + t - 1) % d);
        let b = enc_bit(s, d, 8 * k + t - 1);
        if b == 0 {
            assert(pow2((t - 1) as nat) * 0 == 0) by (nonlinear_arith);
        } else {
            assert(pow2((t - 1) as nat) * 1 == pow2((t - 1) as nat)) by (nonlinear_arith);
        }
    }
}

/// Packs the 256 coefficients of `f` into `32 * d` bytes, `d` bits per
/// coefficient; bits of a coefficient beyond `d` are discarded.
pub fn byte_encode(f: &Ring, d: usize) -> (r: Vec<u8>)
    requires
        f.data@.len() == 256,
        1 <= d <= 12,
    ensures
        r@.len() == 32 * d,
        r@ == byte_encode_spec(f.data@, d as int),
{
    let mut out: Vec<u8> = Vec::new();
    let nbytes = 32 * d;
    let mut k: usize = 0;
    while k < nbytes
        invariant
            k <= nbytes,
            nbytes == 32 * d,
            1 <= d <= 12,
            f.data@.len() == 256,
            out@.len() == k,
            forall|p: int| 0 <= p < k ==> out@[p] == byte_encode_spec(f.data@, d as int)[p],
        decreases nbytes - k,
    {
        let mut acc: u16 = 0;
        let mut pw: u16 = 1;
        let mut t: usize = 0;
        proof {
            lemma2_to64();
        }
        while t < 8
            invariant
                t <= 8,
                k < nbytes,
                nbytes == 32 * d,
                1 <= d <= 12,
                f.data@.len() == 256,
                pw == pow2(t as nat),
                0 <= acc < pow2(t as nat),
                acc == enc_byte_partial(f.data@, d as int, k as int, t as int),
            decreases 8 - t,
        {
            let gi = 8 * k + t;
            proof {
                assert(gi < 256 * d) by (nonlinear_arith)
                    requires
                        gi == 8 * k + t,
                        k < 32 * d,
                        t < 8,
                        d >= 1,
                ;
                lemma_multiply_divide_lt(gi as int, d as int, 256);
                lemma2_to64();
                lemma_pow2_unfold((t + 1) as nat);
                vstd::arithmetic::power2::lemma_pow2_strictly_increases(t as nat, 8);
            }
            let ci = gi / d;
            let j = gi % d;
            let bit = (f.data[ci] >> (j as u16)) & 1;
            proof {
                lemma_coef_bit_le_one(f.data@[ci as int], j as int);
            }
            if bit == 1 {
                acc = acc + pw;
            } else {
                proof {
                    assert(pow2(t as nat) * 0 == 0) by (nonlinear_arith);
                }
            }
            proof {
                if bit == 1 {
                    assert(pow2(t as nat) * 1 == pow2(t as nat)) by (nonlinear_arith);
                }
            }
            pw = pw * 2;
            t += 1;
        }
        out.push(acc as u8);
        k += 1;
    }
    proof {
        assert(out@ =~= byte_encode_spec(f.data@, d as int));
    }
    out
}

/// Unpacks 256 coefficients of `d` bits each from `bytes`, starting at byte
/// `start`, tagging the result with the domain `t`.  Values are reduced
/// modulo `Q`, which changes nothing for `d` below twelve.
pub fn byte_decode(bytes: &Vec<u8>, start: usize, d: usize, t: RingRepresentation) -> (r: Ring)
    requires
        1 <= d <= 12,
        start + 32 * d <= bytes@.len(),
    ensures
        r.t == t,
        r.wf(),
        r.data@ == byte_decode_spec(bytes@.subrange(start as int, start as int + 32 * d), d as int),
        d < 12 ==> compressed_wf(r.data@, d as nat),
{
    let ghost sub = bytes@.subrange(start as int, start as int + 32 * d);
    let blen = bytes.len();
    let mut ring = Ring::new(t);
    let mut i: usize = 0;
    while i < 256
        invariant
            i <= 256,
            1 <= d <= 12,
            start + 32 * d <= blen,
            blen == bytes@.len(),
            sub == bytes@.subrange(start as int, start as int + 32 * d),
            ring.t == t,
            ring.data@.len() == 256,
            ring_wf(ring.data@),
            forall|p: int| 0 <= p < i ==> #[trigger] ring.data@[p] == byte_decode_spec(
                sub,
                d as int,
            )[p],
            d < 12 ==> forall|p: int| 0 <= p < i ==> #[trigger] ring.data@[p] < pow2(d as nat),
        decreases 256 - i,
    {
        let mut acc: u16 = 0;
        let mut pw: u16 = 1;
        let mut j: usize = 0;
        proof {
            lemma2_to64();
        }
        while j < d
            invariant
                j <= d,
                i < 256,
                1 <= d <= 12,
                start + 32 * d <= blen,
                blen == bytes@.len(),
                sub == bytes@.subrange(start as int, start as int + 32 * d),
                pw == pow2(j as nat),
                0 <= acc < pow2(j as nat),
                acc == dec_val_partial(sub, d as int, i as int, j as int),
            decreases d - j,
        {
            proof {
                assert(i * d + j < 3072) by (nonlinear_arith)
                    requires
                        i < 256,
                        j < d,
                        d <= 12,
                ;
            }
            let gi = i * d + j;
            proof {
                assert(gi < 256 * d) by (nonlinear_arith)
                    requires
                        gi == i * d + j,
                        i < 256,
                        j < d,
                        d >= 1,
                ;
                lemma_multiply_divide_lt(gi as int, 8, 32 * (d as int));
                lemma2_to64();
                lemma_pow2_unfold((j + 1) as nat);
                if (j as nat) < 12 {
                    vstd::arithmetic::power2::lemma_pow2_strictly_increases(j as nat, 12);
                }
            }
            let by = bytes[start + gi / 8];
            let sh: u8 = (gi % 8) as u8;
            let bit = (by >> sh) & 1;
            proof {
                assert(sub[(gi / 8) as int] == bytes@[(start + gi / 8) as int]);
                lemma_bit_le_one(by, sh);
                assert(bit_of(sub, gi as int) == ((by >> sh) & 1) as u16);
            }
            if bit == 1 {
                acc = acc + pw;
            } else {
                proof {
                    assert(pow2(j as nat) * 0 == 0) by (nonlinear_arith);
                }
            }
            proof {
                if bit == 1 {
                    assert(pow2(j as nat) * 1 == pow2(j as nat)) by (nonlinear_arith);
                }
            }
            pw = pw * 2;
            j += 1;
        }
        proof {
            lemma2_to64();
            if d < 11 {
                vstd::arithmetic::power2::lemma_pow2_strictly_increases(d as nat, 11);
            }
        }
        ring.data.set(i, acc % 3329);
        i += 1;
    }
    proof {
        assert(ring.data@ =~= byte_decode_spec(sub, d as int));
    }
    ring
}

/// The packed byte strings of the first `n` coefficient sequences of `v`,
/// `d` bits per coefficient, concatenated in order.
pub open spec fn rings_bytes(v: Seq<Seq<u16>>, n: int, d: int) -> Seq<u8>
    decreases n,
{
    if n <= 0 {
        Seq::empty()
    } else {
        rings_bytes(v, n - 1, d) + byte_encode_spec(v[n - 1], d)
    }
}

/// A concatenation of `n` ring encodings holds `n * 32 * d` bytes.
pub proof fn lemma_rings_bytes_len(v: Seq<Seq<u16>>, n: int, d: int)
    requires
        n >= 0,
        d >= 1,
    ensures
        rings_bytes(v, n, d).len() == n * 32 * d,
    decreases n,
{
    if n > 0 {
        lemma_rings_bytes_len(v, n - 1, d);
        assert((n - 1) * 32 * d + 32 * d == n * 32 * d) by (nonlinear_arith);
    } else {
        assert(n * 32 * d == 0) by (nonlinear_arith)
            requires
                n == 0,
        ;
    }
}

/// The byte string of an encryption key: the `k` rings of `t` packed at
/// twelve bits per coefficient, then the 32-byte seed `rho`.
pub open spec fn ek_bytes(ek: KpkeEncryptionKey) -> Seq<u8> {
    rings_bytes(vecv(ek.t), ek.t.data@.len() as int, 12) + ek.rho@
}

/// The byte string of a ciphertext: the `k` rings of `u` packed at `d_u`
/// bits, then the ring `v` packed at `d_v` bits.
pub open spec fn ct_bytes(c: Cyphertext) -> Seq<u8> {
    rings_bytes(vecv(c.u.value), c.u.value.data@.len() as int, c.u.d as int) + byte_encode_spec(
        c.v.value.data@,
        c.v.d as int,
    )
}


/// Offset arithmetic for the ciphertext layout: the `u` ring slices abut,
/// stay inside the `u` region, and the `v` slice fills the rest.
proof fn lemma_ct_offsets(du: int, dv: int, k: int, i: int)
    requires
        1 <= du <= 11,
        1 <= dv <= 5,
        1 <= k <= 4,
        0 <= i < k,
    ensures
        32 * du * (i + 1) == 32 * du * i + 32 * du,
        0 <= 32 * du * i,
        32 * du * (i + 1) <= 32 * du * k,
        32 * du * k + 32 * dv == 32 * (du * k + dv),
        32 * (du * k + dv) <= 1600,
{
    assert(32 * du * (i + 1) == 32 * du * i + 32 * du && 0 <= 32 * du * i && 32 * du * (i + 1)
        <= 32 * du * k && 32 * du * k + 32 * dv == 32 * (du * k + dv) && 32 * (du * k + dv)
        <= 1600) by (nonlinear_arith)
        requires
            1 <= du <= 11,
            1 <= dv <= 5,
            1 <= k <= 4,
            0 <= i < k,
    ;
}

impl KpkeEncryptionKey {
    /// Packs the key into its fixed byte layout of `384 * k + 32` bytes.
    pub fn serialize(&self) -> (r: Vec<u8>)
        requires
            self.wf(self.t.data@.len() as int),
        ensures
            r@ == ek_bytes(*self),
            r@.len() == 384 * self.t.data@.len() + 32,
    {
        let k = self.t.data.len();
        let mut out: Vec<u8> = Vec::new();
        let mut i: usize = 0;
        while i < k
            invariant
                i <= k,
                k == self.t.data@.len(),
                self.wf(k as int),
                out@ == rings_bytes(vecv(self.t), i as int, 12),
                out@.len() == 384 * i,
            decreases k - i,
        {
            let mut enc = byte_encode(&self.t.data[i], 12);
            proof {
                assert(vecv(self.t)[i as int] == self.t.data@[i as int].data@);
            }
            out.append(&mut enc);
            i += 1;
        }
        let mut i: usize = 0;
        let ghost pre = out@;
        while i < 32
            invariant
                i <= 32,
                self.rho@.len() == 32,
                out@ == pre + self.rho@.take(i as int),
            decreases 32 - i,
        {
            out.push(self.rho[i]);
            proof {
                assert(pre + self.rho@.take(i + 1) =~= (pre + self.rho@.take(i as int)).push(
                    self.rho@[i as int],
                ));
            }
            i += 1;
        }
        proof {
            assert(self.rho@.take(32) =~= self.rho@);
            assert(out@ == ek_bytes(*self));
        }
        out
    }

    /// Parses a key from its fixed byte layout, rejecting any byte string
    /// whose length is not exactly `384 * k + 32`.
    pub fn deserialize(bytes: &Vec<u8>, k: usize) -> (r: Result<KpkeEncryptionKey, MlKemError>)
        requires
            2 <= k <= 4,
        ensures
            bytes@.len() == 384 * k + 32 ==> r is Ok,
            bytes@.len() != 384 * k + 32 ==> r == Err::<KpkeEncryptionKey, MlKemError>(
                MlKemError::MalformedInput,
            ),
            r matches Ok(ek) ==> ek.wf(k as int) && ek.rho@ == bytes@.subrange(
                384 * k as int,
                384 * k + 32,
            ) && (forall|i: int|
                0 <= i < k ==> #[trigger] vecv(ek.t)[i] == byte_decode_spec(
                    bytes@.subrange(384 * i, 384 * (i + 1)),
                    12,
                )),
    {
        if bytes.len() != 384 * k + 32 {
            return Err(MlKemError::MalformedInput);
        }
        let mut data: Vec<Ring> = Vec::new();
        let mut i: usize = 0;
        while i < k
            invariant
                i <= k,
                2 <= k <= 4,
                bytes@.len() == 384 * k + 32,
                data@.len() == i,
                forall|j: int| 0 <= j < i ==> (#[trigger] data@[j]).wf() && data@[j].t
                    == RingRepresentation::NTT,
                forall|j: int| 0 <= j < i ==> (#[trigger] data@[j]).data@ == byte_decode_spec(
                    bytes@.subrange(384 * j, 384 * (j + 1)),
                    12,
                ),
            decreases k - i,
        {
            data.push(byte_decode(bytes, 384 * i, 12, RingRepresentation::NTT));
            i += 1;
        }
        let t = Vector { data };
        let mut rho: Vec<u8> = Vec::new();
        let base = 384 * k;
        let mut i: usize = 0;
        while i < 32
            invariant
                i <= 32,
                base == 384 * k,
                bytes@.len() == 384 * k + 32,
                rho@.len() == i,
                forall|j: int| 0 <= j < i ==> rho@[j] == bytes@[base + j],
            decreases 32 - i,
        {
            rho.push(bytes[base + i]);
            i += 1;
        }
        let ek = KpkeEncryptionKey { t, rho };
        proof {
            assert(ek.rho@ =~= bytes@.subrange(384 * k as int, 384 * k + 32));
            assert forall|i: int| 0 <= i < k implies #[trigger] vecv(ek.t)[i] == byte_decode_spec(
                bytes@.subrange(384 * i, 384 * (i + 1)),
                12,
            ) by {
                assert(vecv(ek.t)[i] == ek.t.data@[i].data@);
            }
        }
        Ok(ek)
    }
}

impl Cyphertext {
    /// Packs the ciphertext into its fixed byte layout of
    /// `32 * (d_u * k + d_v)` bytes.
    pub fn serialize(&self) -> (r: Vec<u8>)
        requires
            self.u.wf(),
            self.v.wf(),
        ensures
            r@ == ct_bytes(*self),
            r@.len() == 32 * (self.u.d * self.u.value.data@.len() + self.v.d),
    {
        let k = self.u.value.data.len();
        let du = self.u.d;
        let mut out: Vec<u8> = Vec::new();
        let mut i: usize = 0;
        while i < k
            invariant
                i <= k,
                k == self.u.value.data@.len(),
                self.u.wf(),
                du == self.u.d,
                out@ == rings_bytes(vecv(self.u.value), i as int, du as int),
                out@.len() == 32 * du * i,
            decreases k - i,
        {
            let mut enc = byte_encode(&self.u.value.data[i], du);
            proof {
                assert(vecv(self.u.value)[i as int] == self.u.value.data@[i as int].data@);
                assert(32 * (du as int) * (i as int) + 32 * du == 32 * (du as int) * (i + 1))
                    by (nonlinear_arith);
            }
            out.append(&mut enc);
            i += 1;
        }
        let mut enc = byte_encode(&self.v.value, self.v.d);
        out.append(&mut enc);
        proof {
            assert(32 * (du as int) * (k as int) == 32 * ((du as int) * (k as int))) by (nonlinear_arith);
        }
        out
    }

    /// Parses a ciphertext from its fixed byte layout for the parameter
    /// set, rejecting any byte string whose length is not exactly
    /// `32 * (d_u * k + d_v)`.
    pub fn deserialize(bytes: &Vec<u8>, ps: &ParamSet) -> (r: Result<Cyphertext, MlKemError>)
        requires
            ps.wf(),
        ensures
            bytes@.len() == 32 * (ps.d_u * ps.k + ps.d_v) ==> r is Ok,
            bytes@.len() != 32 * (ps.d_u * ps.k + ps.d_v) ==> r == Err::<Cyphertext, MlKemError>(
                MlKemError::MalformedInput,
            ),
            r matches Ok(c) ==> c.wf(*ps) && (forall|i: int|
                0 <= i < ps.k ==> #[trigger] vecv(c.u.value)[i] == byte_decode_spec(
                    bytes@.subrange(32 * ps.d_u * i, 32 * ps.d_u * (i + 1)),
                    ps.d_u as int,
                )) && c.v.value.data@ == byte_decode_spec(
                bytes@.subrange(
                    32 * ps.d_u * ps.k as int,
                    32 * ps.d_u * ps.k + 32 * ps.d_v,
                ),
                ps.d_v as int,
            ),
    {
        let k = ps.k;
        let du = ps.d_u;
        let dv = ps.d_v;
        if bytes.len() != 32 * (du * k + dv) {
            return Err(MlKemError::MalformedInput);
        }
        let mut data: Vec<Ring> = Vec::new();
        let mut i: usize = 0;
        while i < k
            invariant
                i <= k,
                ps.wf(),
                k == ps.k,
                du == ps.d_u,
                dv == ps.d_v,
                bytes@.len() == 32 * (du * k + dv),
                data@.len() == i,
                forall|j: int| 0 <= j < i ==> (#[trigger] data@[j]).wf() && data@[j].t
                    == RingRepresentation::Degree255 && compressed_wf(data@[j].data@, du as nat),
                forall|j: int| 0 <= j < i ==> (#[trigger] data@[j]).data@ == byte_decode_spec(
                    bytes@.subrange(32 * du * j, 32 * du * (j + 1)),
                    du as int,
                ),
            decreases k - i,
        {
            proof {
                lemma_ct_offsets(du as int, dv as int, k as int, i as int);
            }
            data.push(byte_decode(bytes, 32 * du * i, du, RingRepresentation::Degree255));
            i += 1;
        }
        let u = Compressed { value: Vector { data }, d: du };
        proof {
            lemma_ct_offsets(du as int, dv as int, k as int, k - 1);
        }
        let v = Compressed {
            value: byte_decode(bytes, 32 * du * k, dv, RingRepresentation::Degree255),
            d: dv,
        };
        let c = Cyphertext { u, v };
        proof {
            assert forall|i: int| 0 <= i < k implies #[trigger] vecv(c.u.value)[i]
                == byte_decode_spec(
                bytes@.subrange(32 * du * i, 32 * du * (i + 1)),
                du as int,
            ) by {
                assert(vecv(c.u.value)[i] == c.u.value.data@[i].data@);
            }
        }
        Ok(c)
    }
}

/// The bits of the encoded byte above position `t`, as a value: bit `t`
/// first.
pub open spec fn enc_byte_hi(s: Seq<u16>, d: int, k: int, t: int) -> int
    decreases 8 - t,
{
    if t >= 8 {
        0
    } else {
        enc_bit(s, d, 8 * k + t) + 2 * enc_byte_hi(s, d, k, t + 1)
    }
}

/// The packed byte splits at any position into its low bits, the bit at
/// the position, and the bits above it.
proof fn lemma_enc_byte_split(s: Seq<u16>, d: int, k: int, t: int)
    requires
        0 <= t <= 8,
    ensures
        enc_byte_partial(s, d, k, 8) == enc_byte_partial(s, d, k, t) + pow2(t as nat)
            * enc_byte_hi(s, d, k, t),
        0 <= enc_byte_hi(s, d, k, t) < pow2((8 - t) as nat),
    decreases 8 - t,
{
    lemma2_to64();
    if t == 8 {
        assert(pow2(8) * 0 == 0) by (nonlinear_arith);
    } else {
        lemma_enc_byte_split(s, d, k, t + 1);
        lemma_coef_bit_le_one(s[(8 * k + t) / d], (8 * k + t) % d);
        lemma_pow2_unfold((t + 1) as nat);
        let b = enc_bit(s, d, 8 * k + t);
        let hi1 = enc_byte_hi(s, d, k, t + 1);
        assert(enc_byte_partial(s, d, k, t + 1) == enc_byte_partial(s, d, k, t) + pow2(t as nat)
            * b);
        assert(pow2(t as nat) * b + (2 * pow2(t as nat)) * hi1 == pow2(t as nat) * (b + 2 * hi1))
            by (nonlinear_arith);
        lemma_pow2_unfold((8 - t) as nat);
    }
}

/// Reading bit `t` back from the packed byte gives the stream bit.
proof fn lemma_enc_byte_bit(s: Seq<u16>, d: int, k: int, t: int)
    requires
        0 <= t < 8,
        1 <= d <= 12,
        0 <= k < 32 * d,
    ensures
        bit_of(byte_encode_spec(s, d), 8 * k + t) == enc_bit(s, d, 8 * k + t),
{
    lemma2_to64();
    let bytes = byte_encode_spec(s, d);
    let g = 8 * k + t;
    lemma_fundamental_div_mod_converse_div(g, 8, k, t);
    lemma_fundamental_div_mod_converse_mod(g, 8, k, t);
    lemma_enc_byte_bound(s, d, k, 8);
    let bv = enc_byte_partial(s, d, k, 8);
    assert(bytes[g / 8] == bv as u8);
    lemma_enc_byte_split(s, d, k, t);
    lemma_enc_byte_split(s, d, k, t + 1);
    let b = enc_bit(s, d, 8 * k + t);
    let hi1 = enc_byte_hi(s, d, k, t + 1);
    let lo = enc_byte_partial(s, d, k, t);
    lemma_coef_bit_le_one(s[g / d], g % d);
    lemma_enc_byte_bound(s, d, k, t);
    lemma_pow2_unfold((t + 1) as nat);
    // bv == pow2(t) * (b + 2 * hi1) + lo with lo < pow2(t)
    assert(enc_byte_partial(s, d, k, t + 1) == lo + pow2(t as nat) * b);
    assert(bv == lo + pow2(t as nat) * b + (2 * pow2(t as nat)) * hi1);
    assert(bv == pow2(t as nat) * (b + 2 * hi1) + lo) by (nonlinear_arith)
        requires
            bv == lo + pow2(t as nat) * b + (2 * pow2(t as nat)) * hi1,
    ;
    vstd::bits::lemma_u8_shr_is_div(bv as u8, t as u8);
    vstd::arithmetic::power2::lemma_pow2_strictly_increases(t as nat, 8);
    vstd::arithmetic::power2::lemma_pow2_pos(t as nat);
    assert(bv == (b + 2 * hi1) * (pow2(t as nat) as int) + lo) by (nonlinear_arith)
        requires
            bv == pow2(t as nat) * (b + 2 * hi1) + lo,
    ;
    assert((bv as u8) / (pow2(t as nat) as u8) == b + 2 * hi1) by {
        lemma_fundamental_div_mod_converse_div(bv, pow2(t as nat) as int, b + 2 * hi1, lo);
    }
    assert(((bv as u8) >> (t as u8)) as int == b + 2 * hi1);
    vstd::bits::lemma_u8_low_bits_mask_is_mod((bv as u8) >> (t as u8), 1);
    assert(vstd::bits::low_bits_mask(1) == 1) by {
        vstd::bits::lemma_low_bits_mask_values();
    }
    assert((b + 2 * hi1) % 2 == b) by {
        lemma_fundamental_div_mod_converse_mod(b + 2 * hi1, 2, hi1, b as int);
    }
    assert(bit_of(bytes, g) == ((bytes[g / 8] >> ((g % 8) as u8)) & 1) as u16);
}

/// The value of the low `j` bits of a coefficient.
pub open spec fn coef_val_partial(x: u16, j: int) -> int
    decreases j,
{
    if j <= 0 {
        0
    } else {
        coef_val_partial(x, j - 1) + pow2((j - 1) as nat) * coef_bit(x, j - 1)
    }
}

/// The low `j` bits of a coefficient reassemble to its remainder modulo
/// `2^j`.
proof fn lemma_coef_val(x: u16, j: int)
    requires
        0 <= j <= 12,
    ensures
        coef_val_partial(x, j) == x % (pow2(j as nat) as u16),
    decreases j,
{
    lemma2_to64();
    if j == 0 {
        assert(x % 1u16 == 0);
    } else {
        lemma_coef_val(x, j - 1);
        lemma_pow2_unfold(j as nat);
        vstd::arithmetic::power2::lemma_pow2_strictly_increases(j as nat, 16);
        let pj1 = pow2((j - 1) as nat) as int;
        // x % 2^j == 2^(j-1) * ((x / 2^(j-1)) % 2) + x % 2^(j-1)
        vstd::arithmetic::div_mod::lemma_breakdown(x as int, pj1, 2);
        vstd::bits::lemma_u16_shr_is_div(x, (j - 1) as u16);
        vstd::bits::lemma_u16_low_bits_mask_is_mod(x >> ((j - 1) as u16), 1);
        assert(vstd::bits::low_bits_mask(1) == 1) by {
            vstd::bits::lemma_low_bits_mask_values();
        }
        assert(coef_bit(x, j - 1) == (x as int / pj1) % 2);
        assert(pj1 * ((x as int / pj1) % 2) == ((x as int / pj1) % 2) * pj1) by (nonlinear_arith);
    }
}

/// Decoding what encoding produced recovers every coefficient below `2^d`.
pub proof fn lemma_byte_round_trip(s: Seq<u16>, d: int)
    requires
        s.len() == 256,
        1 <= d <= 12,
        forall|i: int| 0 <= i < 256 ==> s[i] < pow2(d as nat),
        forall|i: int| 0 <= i < 256 ==> s[i] < 3329,
    ensures
        byte_decode_spec(byte_encode_spec(s, d), d) == s,
{
    lemma2_to64();
    let bytes = byte_encode_spec(s, d);
    assert forall|i: int| 0 <= i < 256 implies #[trigger] byte_decode_spec(bytes, d)[i]
        == s[i] by {
        assert forall|j: int| 0 <= j <= d implies #[trigger] dec_val_partial(bytes, d, i, j)
            == coef_val_partial(s[i], j) by {
            lemma_dec_eq_coef_val(s, d, i, j);
        }
        lemma_coef_val(s[i], d);
        assert(s[i] % (pow2(d as nat) as u16) == s[i]) by {
            lemma_small_mod_u16(s[i], pow2(d as nat) as u16);
        }
        assert(dec_val_partial(bytes, d, i, d) == s[i]);
        assert(decoded_coef(bytes, d, i) == s[i]) by {
            vstd::arithmetic::div_mod::lemma_small_mod(s[i] as nat, 3329);
        }
    }
    assert(byte_decode_spec(bytes, d) =~= s);
}

/// A value below the modulus is its own remainder.
proof fn lemma_small_mod_u16(x: u16, m: u16)
    requires
        x < m,
        m > 0,
    ensures
        x % m == x,
{
    vstd::arithmetic::div_mod::lemma_small_mod(x as nat, m as nat);
}

/// The decoded partial value of an encoded stream equals the partial value
/// of the original coefficient.
proof fn lemma_dec_eq_coef_val(s: Seq<u16>, d: int, i: int, j: int)
    requires
        s.len() == 256,
        1 <= d <= 12,
        0 <= i < 256,
        0 <= j <= d,
    ensures
        dec_val_partial(byte_encode_spec(s, d), d, i, j) == coef_val_partial(s[i], j),
    decreases j,
{
    if j > 0 {
        lemma_dec_eq_coef_val(s, d, i, j - 1);
        let g = i * d + (j - 1);
        assert(0 <= g < 256 * d) by (nonlinear_arith)
            requires
                g == i * d + (j - 1),
                0 <= i < 256,
                0 <= j - 1 < d,
        ;
        let k = g / 8;
        let t = g % 8;
        vstd::arithmetic::div_mod::lemma_fundamental_div_mod(g, 8);
        assert(0 <= k < 32 * d) by {
            lemma_multiply_divide_lt(g, 8, 32 * d);
            vstd::arithmetic::div_mod::lemma_div_pos_is_pos(g, 8);
        }
        lemma_enc_byte_bit(s, d, k, t);
        assert(8 * k + t == g);
        assert(enc_bit(s, d, g) == coef_bit(s[g / d], g % d));
        lemma_fundamental_div_mod_converse_div(g, d, i, j - 1);
        lemma_fundamental_div_mod_converse_mod(g, d, i, j - 1);
    }
}

/// Slicing the concatenation of ring encodings at ring boundaries gives
/// back each ring's own encoding.
pub proof fn lemma_rings_bytes_slice(v: Seq<Seq<u16>>, n: int, d: int, i: int)
    requires
        0 <= i < n,
        1 <= d,
    ensures
        rings_bytes(v, n, d).subrange(32 * d * i, 32 * d * (i + 1)) == byte_encode_spec(v[i], d),
    decreases n,
{
    lemma_rings_bytes_len(v, n, d);
    lemma_rings_bytes_len(v, n - 1, d);
    let pre = rings_bytes(v, n - 1, d);
    let enc = byte_encode_spec(v[n - 1], d);
    assert(32 * d * (n - 1) + 32 * d == 32 * d * n && (n - 1) * 32 * d == 32 * d * (n - 1) && n
        * 32 * d == 32 * d * n) by (nonlinear_arith);
    if i == n - 1 {
        assert((pre + enc).subrange(32 * d * (n - 1), 32 * d * n) =~= enc);
    } else {
        lemma_rings_bytes_slice(v, n - 1, d, i);
        assert(32 * d * (i + 1) <= 32 * d * (n - 1)) by (nonlinear_arith)
            requires
                i + 1 <= n - 1,
                d >= 1,
        ;
        assert(0 <= 32 * d * i) by (nonlinear_arith)
            requires
                0 <= i,
                d >= 1,
        ;
        assert(32 * d * i + 32 * d == 32 * d * (i + 1)) by (nonlinear_arith);
        assert((pre + enc).subrange(32 * d * i, 32 * d * (i + 1)) =~= pre.subrange(
            32 * d * i,
            32 * d * (i + 1),
        ));
    }
}

/// Serialization round trip for the encryption key: parsing the serialized
/// byte string at the field boundaries recovers the key exactly.
pub proof fn lemma_ek_round_trip(ek: KpkeEncryptionKey, k: int)
    requires
        ek.wf(k),
    ensures
        ek_bytes(ek).len() == 384 * k + 32,
        forall|i: int|
            0 <= i < k ==> byte_decode_spec(
                ek_bytes(ek).subrange(384 * i, 384 * (i + 1)),
                12,
            ) == vecv(ek.t)[i],
        ek_bytes(ek).subrange(384 * k, 384 * k + 32) == ek.rho@,
{
    vstd::arithmetic::power2::lemma2_to64();
    let rb = rings_bytes(vecv(ek.t), k, 12);
    lemma_rings_bytes_len(vecv(ek.t), k, 12);
    assert(k * 32 * 12 == 384 * k) by (nonlinear_arith);
    assert forall|i: int| 0 <= i < k implies byte_decode_spec(
        ek_bytes(ek).subrange(384 * i, 384 * (i + 1)),
        12,
    ) == vecv(ek.t)[i] by {
        lemma_rings_bytes_slice(vecv(ek.t), k, 12, i);
        assert(32 * 12 * i == 384 * i && 32 * 12 * (i + 1) == 384 * (i + 1)) by (nonlinear_arith);
        assert(ek_bytes(ek).subrange(384 * i, 384 * (i + 1)) =~= rb.subrange(
            384 * i,
            384 * (i + 1),
        ));
        assert(vecv(ek.t)[i] == ek.t.data@[i].data@);
        lemma_byte_round_trip(vecv(ek.t)[i], 12);
    }
    assert(ek_bytes(ek).subrange(384 * k, 384 * k + 32) =~= ek.rho@);
}

/// Serialization round trip for the ciphertext: parsing the serialized
/// byte string at the field boundaries recovers both compressed parts.
pub proof fn lemma_ct_round_trip(c: Cyphertext, ps: ParamSet)
    requires
        ps.wf(),
        c.wf(ps),
        c.u.value.data@.len() == ps.k,
    ensures
        ct_bytes(c).len() == 32 * (ps.d_u * ps.k + ps.d_v),
        forall|i: int|
            0 <= i < ps.k ==> byte_decode_spec(
                ct_bytes(c).subrange(32 * ps.d_u * i, 32 * ps.d_u * (i + 1)),
                ps.d_u as int,
            ) == vecv(c.u.value)[i],
        byte_decode_spec(
            ct_bytes(c).subrange(32 * ps.d_u * ps.k as int, 32 * (ps.d_u * ps.k + ps.d_v)),
            ps.d_v as int,
        ) == c.v.value.data@,
{
    vstd::arithmetic::power2::lemma2_to64();
    let k = ps.k as int;
    let du = ps.d_u as int;
    let dv = ps.d_v as int;
    let rb = rings_bytes(vecv(c.u.value), k, du);
    let vb = byte_encode_spec(c.v.value.data@, dv);
    lemma_rings_bytes_len(vecv(c.u.value), k, du);
    assert(k * 32 * du == 32 * du * k && 32 * du * k + 32 * dv == 32 * (du * k + dv))
        by (nonlinear_arith);
    assert forall|i: int| 0 <= i < k implies byte_decode_spec(
        ct_bytes(c).subrange(32 * du * i, 32 * du * (i + 1)),
        du,
    ) == vecv(c.u.value)[i] by {
        lemma_ct_offsets(du, dv, k, i);
        lemma_rings_bytes_slice(vecv(c.u.value), k, du, i);
        assert(ct_bytes(c).subrange(32 * du * i, 32 * du * (i + 1)) =~= rb.subrange(
            32 * du * i,
            32 * du * (i + 1),
        ));
        assert(vecv(c.u.value)[i] == c.u.value.data@[i].data@);
        if du < 12 {
            vstd::arithmetic::power2::lemma_pow2_strictly_increases(du as nat, 12);
        }
        lemma_byte_round_trip(vecv(c.u.value)[i], du);
    }
    assert(ct_bytes(c).subrange(32 * du * k, 32 * (du * k + dv)) =~= vb);
    if dv < 12 {
        vstd::arithmetic::power2::lemma_pow2_strictly_increases(dv as nat, 12);
    }
    lemma_byte_round_trip(c.v.value.data@, dv);
}

/// The byte string of a decapsulation key: the secret vector packed at
/// twelve bits per coefficient, the serialized encapsulation key, the hash
/// of the encapsulation key, and the rejection seed `z`.
pub open spec fn dk_bytes(dk: MlkemDecapsulationKey) -> Seq<u8> {
    rings_bytes(vecv(dk.dk_pke), dk.dk_pke.data@.len() as int, 12) + ek_bytes(dk.ek) + dk.hash@
        + dk.z@
}

impl MlkemDecapsulationKey {
    /// Packs the key into its fixed byte layout of `768 * k + 96` bytes.
    pub fn serialize(&self) -> (r: Vec<u8>)
        requires
            self.wf(self.dk_pke.data@.len() as int),
            self.ek.t.data@.len() == self.dk_pke.data@.len(),
        ensures
            r@ == dk_bytes(*self),
            r@.len() == 768 * self.dk_pke.data@.len() + 96,
    {
        let k = self.dk_pke.data.len();
        let mut out: Vec<u8> = Vec::new();
        let mut i: usize = 0;
        while i < k
            invariant
                i <= k,
                k == self.dk_pke.data@.len(),
                self.wf(k as int),
                out@ == rings_bytes(vecv(self.dk_pke), i as int, 12),
                out@.len() == 384 * i,
            decreases k - i,
        {
            let mut enc = byte_encode(&self.dk_pke.data[i], 12);
            proof {
                assert(vecv(self.dk_pke)[i as int] == self.dk_pke.data@[i as int].data@);
            }
            out.append(&mut enc);
            i += 1;
        }
        let mut ek_ser = self.ek.serialize();
        out.append(&mut ek_ser);
        let mut i: usize = 0;
        let ghost pre = out@;
        while i < 32
            invariant
                i <= 32,
                self.hash@.len() == 32,
                out@ == pre + self.hash@.take(i as int),
            decreases 32 - i,
        {
            out.push(self.hash[i]);
            proof {
                assert(pre + self.hash@.take(i + 1) =~= (pre + self.hash@.take(i as int)).push(
                    self.hash@[i as int],
                ));
            }
            i += 1;
        }
        proof {
            assert(self.hash@.take(32) =~= self.hash@);
        }
        let mut i: usize = 0;
        let ghost pre2 = out@;
        while i < 32
            invariant
                i <= 32,
                self.z@.len() == 32,
                out@ == pre2 + self.z@.take(i as int),
            decreases 32 - i,
        {
            out.push(self.z[i]);
            proof {
                assert(pre2 + self.z@.take(i + 1) =~= (pre2 + self.z@.take(i as int)).push(
                    self.z@[i as int],
                ));
            }
            i += 1;
        }
        proof {
            assert(self.z@.take(32) =~= self.z@);
            assert(out@ =~= dk_bytes(*self));
        }
        out
    }

    /// Parses a decapsulation key from its fixed byte layout, rejecting any
    /// byte string whose length is not exactly `768 * k + 96`.
    pub fn deserialize(bytes: &Vec<u8>, k: usize) -> (r: Result<MlkemDecapsulationKey, MlKemError>)
        requires
            2 <= k <= 4,
        ensures
            bytes@.len() == 768 * k + 96 ==> r is Ok,
            bytes@.len() != 768 * k + 96 ==> r == Err::<MlkemDecapsulationKey, MlKemError>(
                MlKemError::MalformedInput,
            ),
            r matches Ok(dk) ==> dk.wf(k as int) && dk.ek.t.data@.len() == k && (forall|i: int|
                0 <= i < k ==> #[trigger] vecv(dk.dk_pke)[i] == byte_decode_spec(
                    bytes@.subrange(384 * i, 384 * (i + 1)),
                    12,
                )) && (forall|i: int|
                0 <= i < k ==> #[trigger] vecv(dk.ek.t)[i] == byte_decode_spec(
                    bytes@.subrange(384 * k + 384 * i, 384 * k + 384 * (i + 1)),
                    12,
                )) && dk.ek.rho@ == bytes@.subrange(768 * k as int, 768 * k + 32) && dk.hash@
                == bytes@.subrange(768 * k + 32, 768 * k + 64) && dk.z@ == bytes@.subrange(
                768 * k + 64,
                768 * k + 96,
            ),
    {
        if bytes.len() != 768 * k + 96 {
            return Err(MlKemError::MalformedInput);
        }
        let mut data: Vec<Ring> = Vec::new();
        let mut i: usize = 0;
        while i < k
            invariant
                i <= k,
                2 <= k <= 4,
                bytes@.len() == 768 * k + 96,
                data@.len() == i,
                forall|j: int| 0 <= j < i ==> (#[trigger] data@[j]).wf() && data@[j].t
                    == RingRepresentation::NTT,
                forall|j: int| 0 <= j < i ==> (#[trigger] data@[j]).data@ == byte_decode_spec(
                    bytes@.subrange(384 * j, 384 * (j + 1)),
                    12,
                ),
            decreases k - i,
        {
            data.push(byte_decode(bytes, 384 * i, 12, RingRepresentation::NTT));
            i += 1;
        }
        let dk_pke = Vector { data };
        let base = 384 * k;
        let sub_len = 384 * k + 32;
        let mut ek_region: Vec<u8> = Vec::new();
        let mut i: usize = 0;
        while i < sub_len
            invariant
                i <= sub_len,
                2 <= k <= 4,
                base == 384 * k,
                sub_len == 384 * k + 32,
                bytes@.len() == 768 * k + 96,
                ek_region@.len() == i,
                forall|j: int| 0 <= j < i ==> ek_region@[j] == bytes@[base + j],
            decreases sub_len - i,
        {
            ek_region.push(bytes[base + i]);
            i += 1;
        }
        let ek = match KpkeEncryptionKey::deserialize(&ek_region, k) {
            Ok(ek) => ek,
            Err(_) => {
                proof {
                    assert(false);
                }
                return Err(MlKemError::MalformedInput);
            },
        };
        let mut hash: Vec<u8> = Vec::new();
        let hbase = 768 * k + 32;
        let mut i: usize = 0;
        while i < 32
            invariant
                i <= 32,
                2 <= k <= 4,
                hbase == 768 * k + 32,
                bytes@.len() == 768 * k + 96,
                hash@.len() == i,
                forall|j: int| 0 <= j < i ==> hash@[j] == bytes@[hbase + j],
            decreases 32 - i,
        {
            hash.push(bytes[hbase + i]);
            i += 1;
        }
        let mut z: Vec<u8> = Vec::new();
        let zbase = 768 * k + 64;
        let mut i: usize = 0;
        while i < 32
            invariant
                i <= 32,
                2 <= k <= 4,
                zbase == 768 * k + 64,
                bytes@.len() == 768 * k + 96,
                z@.len() == i,
                forall|j: int| 0 <= j < i ==> z@[j] == bytes@[zbase + j],
            decreases 32 - i,
        {
            z.push(bytes[zbase + i]);
            i += 1;
        }
        let dk = MlkemDecapsulationKey { dk_pke, ek, hash, z };
        proof {
            assert forall|i: int| 0 <= i < k implies #[trigger] vecv(dk.dk_pke)[i]
                == byte_decode_spec(bytes@.subrange(384 * i, 384 * (i + 1)), 12) by {
                assert(vecv(dk.dk_pke)[i] == dk.dk_pke.data@[i].data@);
            }
            assert forall|i: int| 0 <= i < k implies #[trigger] vecv(dk.ek.t)[i]
                == byte_decode_spec(
                bytes@.subrange(384 * k + 384 * i, 384 * k + 384 * (i + 1)),
                12,
            ) by {
                assert(ek_region@.subrange(384 * i, 384 * (i + 1)) =~= bytes@.subrange(
                    384 * k + 384 * i,
                    384 * k + 384 * (i + 1),
                ));
            }
            assert(dk.ek.rho@ =~= bytes@.subrange(768 * k as int, 768 * k + 32)) by {
                assert(ek_region@.subrange(384 * k as int, 384 * k + 32) =~= bytes@.subrange(
                    768 * k as int,
                    768 * k + 32,
                ));
            }
            assert(dk.hash@ =~= bytes@.subrange(768 * k + 32, 768 * k + 64));
            assert(dk.z@ =~= bytes@.subrange(768 * k + 64, 768 * k + 96));
        }
        Ok(dk)
    }
}

/// Serialization round trip for the decapsulation key: parsing the
/// serialized byte string at the field boundaries recovers every field.
pub proof fn lemma_dk_round_trip(dk: MlkemDecapsulationKey, k: int)
    requires
        dk.wf(k),
        dk.ek.t.data@.len() == k,
    ensures
        dk_bytes(dk).len() == 768 * k + 96,
        forall|i: int|
            0 <= i < k ==> byte_decode_spec(
                dk_bytes(dk).subrange(384 * i, 384 * (i + 1)),
                12,
            ) == vecv(dk.dk_pke)[i],
        forall|i: int|
            0 <= i < k ==> byte_decode_spec(
                dk_bytes(dk).subrange(384 * k + 384 * i, 384 * k + 384 * (i + 1)),
                12,
            ) == vecv(dk.ek.t)[i],
        dk_bytes(dk).subrange(768 * k, 768 * k + 32) == dk.ek.rho@,
        dk_bytes(dk).subrange(768 * k + 32, 768 * k + 64) == dk.hash@,
        dk_bytes(dk).subrange(768 * k + 64, 768 * k + 96) == dk.z@,
{
    vstd::arithmetic::power2::lemma2_to64();
    let rb = rings_bytes(vecv(dk.dk_pke), k, 12);
    lemma_rings_bytes_len(vecv(dk.dk_pke), k, 12);
    assert(k * 32 * 12 == 384 * k) by (nonlinear_arith);
    lemma_ek_round_trip(dk.ek, k);
    assert forall|i: int| 0 <= i < k implies byte_decode_spec(
        dk_bytes(dk).subrange(384 * i, 384 * (i + 1)),
        12,
    ) == vecv(dk.dk_pke)[i] by {
        lemma_rings_bytes_slice(vecv(dk.dk_pke), k, 12, i);
        assert(32 * 12 * i == 384 * i && 32 * 12 * (i + 1) == 384 * (i + 1)) by (nonlinear_arith);
        assert(dk_bytes(dk).subrange(384 * i, 384 * (i + 1)) =~= rb.subrange(
            384 * i,
            384 * (i + 1),
        ));
        assert(vecv(dk.dk_pke)[i] == dk.dk_pke.data@[i].data@);
        lemma_byte_round_trip(vecv(dk.dk_pke)[i], 12);
    }
    assert forall|i: int| 0 <= i < k implies byte_decode_spec(
        dk_bytes(dk).subrange(384 * k + 384 * i, 384 * k + 384 * (i + 1)),
        12,
    ) == vecv(dk.ek.t)[i] by {
        assert(dk_bytes(dk).subrange(384 * k + 384 * i, 384 * k + 384 * (i + 1)) =~= ek_bytes(
            dk.ek,
        ).subrange(384 * i, 384 * (i + 1)));
    }
    assert(dk_bytes(dk).subrange(768 * k, 768 * k + 32) =~= ek_bytes(dk.ek).subrange(
        384 * k,
        384 * k + 32,
    ));
    assert(dk_bytes(dk).subrange(768 * k + 32, 768 * k + 64) =~= dk.hash@);
    assert(dk_bytes(dk).subrange(768 * k + 64, 768 * k + 96) =~= dk.z@);
}

/// One encoded-byte partial sum over decoded bits rebuilds the low bits of
/// the original byte.
proof fn lemma_enc_partial_byte(m: Seq<u8>, s: Seq<u16>, k: int, t: int)
    requires
        0 <= t <= 8,
        0 <= k < 32,
        forall|i: int| 0 <= i < 256 ==> s[i] == bit_of(m, i) && s[i] <= 1,
    ensures
        enc_byte_partial(s, 1, k, t) == (m[k] as int) % (pow2(t as nat) as int),
    decreases t,
{
    lemma2_to64();
    if t == 0 {
        assert((m[k] as int) % 1 == 0);
    } else {
        lemma_enc_partial_byte(m, s, k, t - 1);
        lemma_pow2_unfold(t as nat);
        let g = 8 * k + (t - 1);
        crate::ring::lemma_div_exact(g, 1, g);
        assert(0 <= g < 256);
        let b = s[g];
        assert(((b >> 0u16) & 1) == b) by (bit_vector)
            requires
                b <= 1,
        ;
        assert(enc_bit(s, 1, g) == b);
        lemma_fundamental_div_mod_converse_div(g, 8, k, t - 1);
        lemma_fundamental_div_mod_converse_mod(g, 8, k, t - 1);
        assert(bit_of(m, g) == ((m[k] >> ((t - 1) as u8)) & 1) as u16);
        let pj1 = pow2((t - 1) as nat) as int;
        vstd::arithmetic::power2::lemma_pow2_strictly_increases((t - 1) as nat, 8);
        vstd::arithmetic::div_mod::lemma_breakdown(m[k] as int, pj1, 2);
        vstd::bits::lemma_u8_shr_is_div(m[k], (t - 1) as u8);
        vstd::bits::lemma_u8_low_bits_mask_is_mod(m[k] >> ((t - 1) as u8), 1);
        assert(vstd::bits::low_bits_mask(1) == 1) by {
            vstd::bits::lemma_low_bits_mask_values();
        }
        assert(b as int == ((m[k] as int) / pj1) % 2);
        assert(pj1 * (((m[k] as int) / pj1) % 2) == (((m[k] as int) / pj1) % 2) * pj1)
            by (nonlinear_arith);
    }
}

/// Re-encoding the decoded one-bit message ring gives back the original 32
/// message bytes.
pub proof fn lemma_decode_encode_bits(m: Seq<u8>)
    requires
        m.len() == 32,
    ensures
        byte_encode_spec(byte_decode_spec(m, 1), 1) == m,
{
    lemma2_to64();
    let s = byte_decode_spec(m, 1);
    assert forall|i: int| 0 <= i < 256 implies s[i] == bit_of(m, i) && s[i] <= 1 by {
        lemma_bit_of_le_one(m, i);
        crate::ring::lemma_div_exact(i, 1, i);
        assert(dec_val_partial(m, 1, i, 1) == dec_val_partial(m, 1, i, 0) + pow2(0) * bit_of(
            m,
            i,
        ));
        assert(pow2(0) * bit_of(m, i) == bit_of(m, i)) by (nonlinear_arith)
            requires
                pow2(0) == 1,
        ;
        vstd::arithmetic::div_mod::lemma_small_mod(bit_of(m, i) as nat, 3329);
    }
    assert forall|k: int| 0 <= k < 32 implies #[trigger] byte_encode_spec(s, 1)[k] == m[k] by {
        lemma_enc_partial_byte(m, s, k, 8);
        vstd::arithmetic::div_mod::lemma_small_mod(m[k] as nat, 256);
    }
    assert(byte_encode_spec(s, 1) =~= m);
}

} // verus!
