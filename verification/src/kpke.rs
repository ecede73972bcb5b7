//! The K-PKE primitive: the IND-CPA public-key encryption scheme beneath
//! the KEM.  Key generation, encryption and decryption are single-shot pure
//! computations; all randomness comes in as explicit bytes, and every
//! derived value is pinned by the contracts as a function of those bytes
//! through the named hash streams.

use vstd::prelude::*;
use crate::params::{MlKemParams, ParamSet};
use crate::ring::{
    Ring, RingRepresentation, Vector, Matrix, Compressed, ring_wf, compressed_wf, vecv, matv,
    seq_add_q, seq_sub_q, seq_compress, seq_decompress, inner_prod_spec, mat_row_prod,
    mat_col_prod, ntt_spec, inv_ntt_spec,
};
use crate::sample::{sample_ntt, sample_poly_cbd, sampled_ring, cbd_spec};
use crate::crypt::{random_bytes, g, prf, sha3_512_of, shake256_byte};

verus! {

/// A K-PKE encryption key: the vector `t = A*s + e` in the NTT domain and
/// the 32-byte seed `rho` that regenerates the matrix `A`.
#[derive(Debug)]
pub struct KpkeEncryptionKey {
    pub t: Vector,
    pub rho: Vec<u8>,
}

impl KpkeEncryptionKey {
    /// Well-formed for rank `k`: `k` reduced NTT entries and a 32-byte seed.
    pub open spec fn wf(self, k: int) -> bool {
        self.t.data@.len() == k && self.t.wf() && self.t.all_t(RingRepresentation::NTT)
            && self.rho@.len() == 32
    }

    /// A deep copy of the key: the decapsulation key keeps its own copy of
    /// the encapsulation key.
    pub fn duplicate(&self) -> (r: KpkeEncryptionKey)
        ensures
            r.t.data@.len() == self.t.data@.len(),
            vecv(r.t) == vecv(self.t),
            forall|i: int| 0 <= i < self.t.data@.len() ==> (#[trigger] r.t.data@[i]).t
                == self.t.data@[i].t,
            r.rho@ == self.rho@,
            forall|i: int| 0 <= i < self.t.data@.len() ==> (#[trigger] r.t.data@[i]).data@
                == self.t.data@[i].data@,
    {
        let n = self.t.data.len();
        let mut data: Vec<Ring> = Vec::new();
        let mut i: usize = 0;
        while i < n
            invariant
                i <= n,
                n == self.t.data@.len(),
                data@.len() == i,
                forall|j: int| 0 <= j < i ==> (#[trigger] data@[j]).data@
                    == self.t.data@[j].data@ && data@[j].t == self.t.data@[j].t,
            decreases n - i,
        {
            data.push(duplicate_ring(&self.t.data[i]));
            i += 1;
        }
        let nr = self.rho.len();
        let mut rho: Vec<u8> = Vec::new();
        let mut i: usize = 0;
        while i < nr
            invariant
                i <= nr,
                nr == self.rho@.len(),
                rho@ == self.rho@.take(i as int),
            decreases nr - i,
        {
            rho.push(self.rho[i]);
            proof {
                assert(self.rho@.take(i + 1) =~= self.rho@.take(i as int).push(
                    self.rho@[i as int],
                ));
            }
            i += 1;
        }
        proof {
            assert(self.rho@.take(nr as int) =~= self.rho@);
        }
        let r = KpkeEncryptionKey { t: Vector { data }, rho };
        proof {
            assert forall|i: int| 0 <= i < self.t.data@.len() implies #[trigger] vecv(r.t)[i]
                == vecv(self.t)[i] by {
                assert(vecv(r.t)[i] == r.t.data@[i].data@);
            }
            assert(vecv(r.t) =~= vecv(self.t));
        }
        r
    }
}

/// A K-PKE ciphertext: the compressed vector `u` and the compressed ring
/// `v`, both in the coefficient domain.
#[derive(Debug)]
pub struct Cyphertext {
    pub u: Compressed<Vector>,
    pub v: Compressed<Ring>,
}

impl Cyphertext {
    /// Well-formed for the parameter set: widths `d_u` and `d_v`, rank `k`,
    /// all entries in range and tagged with the coefficient domain.
    pub open spec fn wf(self, ps: ParamSet) -> bool {
        self.u.d == ps.d_u && self.u.wf() && self.u.value.data@.len() == ps.k && (forall|i: int|
            0 <= i < ps.k ==> (#[trigger] self.u.value.data@[i]).t
                == RingRepresentation::Degree255) && self.v.d == ps.d_v && self.v.wf()
            && self.v.value.t == RingRepresentation::Degree255
    }
}

/// The `len`-byte output of the PRF for a seed and a counter byte.
pub open spec fn prf_bytes(seed: Seq<u8>, n: u8, len: int) -> Seq<u8> {
    Seq::new(len as nat, |i: int| shake256_byte(seed.push(n), i))
}

/// The centered-binomial ring drawn from the PRF at counter `n`.
pub open spec fn cbd_ring(seed: Seq<u8>, n: u8, eta: int) -> Seq<u16> {
    cbd_spec(prf_bytes(seed, n, 64 * eta), eta)
}

/// The `k` by `k` public matrix regenerated from the seed `rho`, entry by
/// entry through the XOF.
pub open spec fn sampled_matrix(rho: Seq<u8>, k: int) -> Seq<Seq<Seq<u16>>> {
    Seq::new(k as nat, |i: int| Seq::new(k as nat, |j: int| sampled_ring(rho, i as u8, j as u8)))
}

/// `k` centered-binomial rings at consecutive counters starting at `base`.
pub open spec fn cbd_vec(seed: Seq<u8>, base: int, eta: int, k: int) -> Seq<Seq<u16>> {
    Seq::new(k as nat, |i: int| cbd_ring(seed, (base + i) as u8, eta))
}

/// The same rings transformed to the NTT domain.
pub open spec fn cbd_vec_ntt(seed: Seq<u8>, base: int, eta: int, k: int) -> Seq<Seq<u16>> {
    Seq::new(k as nat, |i: int| ntt_spec(cbd_ring(seed, (base + i) as u8, eta)))
}

/// The deterministic relation between the 32 random bytes `d` and the key
/// pair K-PKE derives from them: `(rho, sigma) = G(d)`, the matrix `A` from
/// `rho`, the secret `s` and error `e` from `sigma` at counters `0..2k`,
/// and `t = A*s + e` in the NTT domain.
pub open spec fn kpke_keys_from(d: Seq<u8>, ps: ParamSet, ek: KpkeEncryptionKey, s_hat: Vector) -> bool {
    let rho = sha3_512_of(d).take(32);
    let sigma = sha3_512_of(d).skip(32);
    let a = sampled_matrix(rho, ps.k as int);
    let s = cbd_vec_ntt(sigma, 0, ps.eta_1 as int, ps.k as int);
    let e = cbd_vec_ntt(sigma, ps.k as int, ps.eta_1 as int, ps.k as int);
    ek.rho@ == rho && vecv(s_hat) == s && vecv(ek.t) == Seq::new(
        ps.k as nat,
        |i: int| seq_add_q(mat_row_prod(a, s, i, ps.k as int), e[i]),
    )
}

/// Entry `i` of the compressed vector `u` that encryption derives from an
/// encryption key and the 32 random bytes.
pub open spec fn encrypt_u_ring(ek: KpkeEncryptionKey, rand: Seq<u8>, ps: ParamSet, i: int) -> Seq<
    u16,
> {
    let k = ps.k as int;
    let a = sampled_matrix(ek.rho@, k);
    let r = cbd_vec_ntt(rand, 0, ps.eta_1 as int, k);
    let e1 = cbd_vec(rand, k, ps.eta_2 as int, k);
    seq_compress(seq_add_q(inv_ntt_spec(mat_col_prod(a, r, i, k)), e1[i]), ps.d_u as nat)
}

/// The compressed ring `v` that encryption derives from an encryption key,
/// a message ring, and the 32 random bytes.
pub open spec fn encrypt_v_ring(
    ek: KpkeEncryptionKey,
    m_data: Seq<u16>,
    rand: Seq<u8>,
    ps: ParamSet,
) -> Seq<u16> {
    let k = ps.k as int;
    let r = cbd_vec_ntt(rand, 0, ps.eta_1 as int, k);
    let e2 = cbd_ring(rand, (2 * ps.k) as u8, ps.eta_2 as int);
    seq_compress(
        seq_add_q(
            seq_add_q(inv_ntt_spec(inner_prod_spec(r, vecv(ek.t), k)), e2),
            seq_decompress(m_data, 1),
        ),
        ps.d_v as nat,
    )
}

/// The deterministic relation between an encryption key, a message ring,
/// the 32 random bytes, and the ciphertext K-PKE derives from them.
pub open spec fn kpke_encrypt_rel(
    ek: KpkeEncryptionKey,
    m_data: Seq<u16>,
    rand: Seq<u8>,
    ps: ParamSet,
    c: Cyphertext,
) -> bool {
    let k = ps.k as int;
    c.u.d == ps.d_u && c.v.d == ps.d_v && c.u.value.data@.len() == k && (forall|i: int|
        0 <= i < k ==> (#[trigger] c.u.value.data@[i]).data@ == encrypt_u_ring(ek, rand, ps, i))
        && c.v.value.data@ == encrypt_v_ring(ek, m_data, rand, ps)
}

/// What decryption computes from the secret vector and a ciphertext:
/// `w = v - NTT^-1(s * NTT(u))`, compressed to one bit per coefficient.
pub open spec fn kpke_decrypt_spec(s_hat: Vector, c: Cyphertext, ps: ParamSet) -> Seq<u16> {
    let k = ps.k as int;
    let u = Seq::new(
        k as nat,
        |i: int| ntt_spec(seq_decompress(c.u.value.data@[i].data@, ps.d_u as nat)),
    );
    let w = seq_sub_q(
        seq_decompress(c.v.value.data@, ps.d_v as nat),
        inv_ntt_spec(inner_prod_spec(vecv(s_hat), u, k)),
    );
    seq_compress(w, 1)
}


/// A deep copy of a ring, coefficient by coefficient.
fn duplicate_ring(r: &Ring) -> (c: Ring)
    ensures
        c.data@ == r.data@,
        c.t == r.t,
{
    let n = r.data.len();
    let mut data: Vec<u16> = Vec::new();
    let mut i: usize = 0;
    while i < n
        invariant
            i <= n,
            n == r.data@.len(),
            data@ == r.data@.take(i as int),
        decreases n - i,
    {
        data.push(r.data[i]);
        proof {
            assert(r.data@.take(i + 1) =~= r.data@.take(i as int).push(r.data@[i as int]));
        }
        i += 1;
    }
    proof {
        assert(r.data@.take(n as int) =~= r.data@);
    }
    Ring { data, t: r.t }
}

/// A deep copy of a compressed ring.
fn duplicate_compressed_ring(c: &Compressed<Ring>) -> (r: Compressed<Ring>)
    ensures
        r.d == c.d,
        r.value.data@ == c.value.data@,
        r.value.t == c.value.t,
{
    let value = duplicate_ring(&c.value);
    Compressed { value, d: c.d }
}

/// A deep copy of a compressed vector.
fn duplicate_compressed_vector(c: &Compressed<Vector>) -> (r: Compressed<Vector>)
    ensures
        r.d == c.d,
        r.value.data@.len() == c.value.data@.len(),
        forall|i: int| 0 <= i < c.value.data@.len() ==> (#[trigger] r.value.data@[i]).data@
            == c.value.data@[i].data@ && r.value.data@[i].t == c.value.data@[i].t,
{
    let n = c.value.data.len();
    let mut data: Vec<Ring> = Vec::new();
    let mut i: usize = 0;
    while i < n
        invariant
            i <= n,
            n == c.value.data@.len(),
            data@.len() == i,
            forall|j: int| 0 <= j < i ==> (#[trigger] data@[j]).data@ == c.value.data@[j].data@
                && data@[j].t == c.value.data@[j].t,
        decreases n - i,
    {
        data.push(duplicate_ring(&c.value.data[i]));
        i += 1;
    }
    Compressed { value: Vector { data }, d: c.d }
}

/// Regenerates the public matrix from `rho`, row by row through the XOF.
fn expand_matrix(rho: &Vec<u8>, k: usize) -> (a: Matrix)
    ensures
        a.wf_k(k as int),
        matv(a) == sampled_matrix(rho@, k as int),
{
    let mut data: Vec<Vec<Ring>> = Vec::new();
    let mut i: usize = 0;
    while i < k
        invariant
            i <= k,
            data@.len() == i,
            forall|r: int| 0 <= r < i ==> (#[trigger] data@[r])@.len() == k,
            forall|r: int, c: int| 0 <= r < i && 0 <= c < k ==> (#[trigger] data@[r]@[c]).wf()
                && data@[r]@[c].t == RingRepresentation::NTT,
            forall|r: int, c: int| 0 <= r < i && 0 <= c < k ==> (#[trigger] data@[r]@[c]).data@
                == sampled_ring(rho@, r as u8, c as u8),
        decreases k - i,
    {
        let mut row: Vec<Ring> = Vec::new();
        let mut j: usize = 0;
        while j < k
            invariant
                i < k,
                j <= k,
                row@.len() == j,
                forall|c: int| 0 <= c < j ==> (#[trigger] row@[c]).wf() && row@[c].t
                    == RingRepresentation::NTT,
                forall|c: int| 0 <= c < j ==> (#[trigger] row@[c]).data@ == sampled_ring(
                    rho@,
                    i as u8,
                    c as u8,
                ),
            decreases k - j,
        {
            row.push(sample_ntt(rho, i as u8, j as u8));
            j += 1;
        }
        data.push(row);
        i += 1;
    }
    let a = Matrix { data };
    proof {
        assert(matv(a) =~~= sampled_matrix(rho@, k as int));
    }
    a
}

/// Draws `k` centered-binomial rings from the PRF at consecutive counters
/// starting at `base`.
fn expand_cbd_vector(seed: &Vec<u8>, base: u8, eta: usize, k: usize) -> (v: Vector)
    requires
        eta == 2 || eta == 3,
        base + k <= 255,
    ensures
        v.data@.len() == k,
        v.wf(),
        v.all_t(RingRepresentation::Degree255),
        vecv(v) == cbd_vec(seed@, base as int, eta as int, k as int),
{
    let mut data: Vec<Ring> = Vec::new();
    let mut i: usize = 0;
    while i < k
        invariant
            i <= k,
            eta == 2 || eta == 3,
            base + k <= 255,
            data@.len() == i,
            forall|r: int| 0 <= r < i ==> (#[trigger] data@[r]).wf() && data@[r].t
                == RingRepresentation::Degree255,
            forall|r: int| 0 <= r < i ==> (#[trigger] data@[r]).data@ == cbd_ring(
                seed@,
                (base + r) as u8,
                eta as int,
            ),
        decreases k - i,
    {
        let bytes = prf(seed, base + (i as u8), 64 * eta);
        proof {
            assert(bytes@ =~= prf_bytes(seed@, (base + i) as u8, 64 * (eta as int)));
        }
        data.push(sample_poly_cbd(&bytes, eta));
        i += 1;
    }
    let v = Vector { data };
    proof {
        assert(vecv(v) =~= cbd_vec(seed@, base as int, eta as int, k as int));
    }
    v
}

/// K-PKE key generation: draws 32 random bytes `d`, derives `(rho, sigma)`,
/// regenerates the matrix `A` from `rho`, samples the secret `s` and error
/// `e` from `sigma` with one counter incrementing per ring, and returns
/// `((t, rho), s)` with `t = A*s + e`, everything in the NTT domain.
pub fn key_gen<P: MlKemParams>() -> (r: (KpkeEncryptionKey, Vector))
    ensures
        r.0.wf(P::spec_params().k as int),
        r.1.data@.len() == P::spec_params().k,
        r.1.wf(),
        r.1.all_t(RingRepresentation::NTT),
        exists|d: Seq<u8>|
            d.len() == 32 && #[trigger] kpke_keys_from(d, P::spec_params(), r.0, r.1),
{
    let ps = P::params();
    let d = random_bytes(32);
    let (rho, sigma) = g(&d);
    let a = expand_matrix(&rho, ps.k);
    let ghost am = a;
    let s = expand_cbd_vector(&sigma, 0, ps.eta_1, ps.k);
    let e = expand_cbd_vector(&sigma, ps.k as u8, ps.eta_1, ps.k);
    let s_hat = s.ntt();
    let e_hat = e.ntt();
    let mut t = a.right_vector_multiply(&s_hat);
    t.add(&e_hat);
    let ek = KpkeEncryptionKey { t, rho };
    proof {
        let psg = P::spec_params();
        let kk = psg.k as int;
        let sigma_s = sha3_512_of(d@).skip(32);
        assert forall|i: int| 0 <= i < kk implies #[trigger] vecv(s_hat)[i] == cbd_vec_ntt(
            sigma_s,
            0,
            psg.eta_1 as int,
            kk,
        )[i] by {
            assert(vecv(s)[i] == cbd_vec(sigma_s, 0, psg.eta_1 as int, kk)[i]);
            assert(vecv(s)[i] == s.data@[i].data@);
            assert(vecv(s_hat)[i] == s_hat.data@[i].data@);
            assert(s_hat.data@[i].data@ == ntt_spec(s.data@[i].data@));
        }
        assert(vecv(s_hat) =~= cbd_vec_ntt(sigma_s, 0, psg.eta_1 as int, kk));
        assert forall|i: int| 0 <= i < kk implies #[trigger] vecv(e_hat)[i] == cbd_vec_ntt(
            sigma_s,
            kk,
            psg.eta_1 as int,
            kk,
        )[i] by {
            assert(vecv(e)[i] == cbd_vec(sigma_s, kk, psg.eta_1 as int, kk)[i]);
            assert(vecv(e)[i] == e.data@[i].data@);
            assert(vecv(e_hat)[i] == e_hat.data@[i].data@);
            assert(e_hat.data@[i].data@ == ntt_spec(e.data@[i].data@));
        }
        assert(vecv(e_hat) =~= cbd_vec_ntt(sigma_s, kk, psg.eta_1 as int, kk));
        assert(vecv(ek.t) =~= Seq::new(
            psg.k as nat,
            |i: int|
                seq_add_q(
                    mat_row_prod(
                        sampled_matrix(sha3_512_of(d@).take(32), kk),
                        cbd_vec_ntt(sigma_s, 0, psg.eta_1 as int, kk),
                        i,
                        kk,
                    ),
                    cbd_vec_ntt(sigma_s, kk, psg.eta_1 as int, kk)[i],
                ),
        ));
        assert(kpke_keys_from(d@, psg, ek, s_hat));
    }
    let result = (ek, s_hat);
    proof {
        let psg = P::spec_params();
        assert(kpke_keys_from(d@, psg, result.0, result.1));
        assert(exists|dd: Seq<u8>|
            dd.len() == 32 && #[trigger] kpke_keys_from(dd, psg, result.0, result.1));
    }
    result
}

/// K-PKE encryption: regenerates `A` from the key's seed, draws the vector
/// `r`, the error vector `e1` and the error ring `e2` from `rand` with one
/// global counter, and returns the compressed pair
/// `u = NTT^-1(A^T * r) + e1`, `v = NTT^-1(r * t) + e2 + Decompress(m)`.
pub fn encrypt<P: MlKemParams>(ek_pke: KpkeEncryptionKey, m: Compressed<Ring>, rand: Vec<u8>) -> (c:
    Cyphertext)
    requires
        ek_pke.wf(P::spec_params().k as int),
        m.d == 1,
        m.wf(),
        m.value.t == RingRepresentation::Degree255,
        rand@.len() == 32,
    ensures
        c.wf(P::spec_params()),
        kpke_encrypt_rel(ek_pke, m.value.data@, rand@, P::spec_params(), c),
{
    let ps = P::params();
    let a = expand_matrix(&ek_pke.rho, ps.k);
    let ghost am = a;
    let r = expand_cbd_vector(&rand, 0, ps.eta_1, ps.k);
    let e_1 = expand_cbd_vector(&rand, ps.k as u8, ps.eta_2, ps.k);
    let e2_bytes = prf(&rand, 2 * (ps.k as u8), 64 * ps.eta_2);
    proof {
        assert(e2_bytes@ =~= prf_bytes(rand@, (2 * ps.k) as u8, 64 * (ps.eta_2 as int)));
    }
    let e_2 = sample_poly_cbd(&e2_bytes, ps.eta_2);
    let r_hat = r.ntt();
    let ghost psg = P::spec_params();
    let ghost kk = psg.k as int;
    proof {
        assert forall|i: int| 0 <= i < kk implies #[trigger] vecv(r_hat)[i] == cbd_vec_ntt(
            rand@,
            0,
            psg.eta_1 as int,
            kk,
        )[i] by {
            assert(vecv(r)[i] == cbd_vec(rand@, 0, psg.eta_1 as int, kk)[i]);
            assert(vecv(r)[i] == r.data@[i].data@);
            assert(vecv(r_hat)[i] == r_hat.data@[i].data@);
            assert(r_hat.data@[i].data@ == ntt_spec(r.data@[i].data@));
        }
        assert(vecv(r_hat) =~= cbd_vec_ntt(rand@, 0, psg.eta_1 as int, kk));
    }
    let mut u = a.left_vector_multiply(&r_hat).inverse_ntt();
    u.add(&e_1);
    proof {
        assert forall|i: int| 0 <= i < kk implies (#[trigger] vecv(u)[i]) == seq_add_q(
            inv_ntt_spec(
                mat_col_prod(
                    sampled_matrix(ek_pke.rho@, kk),
                    cbd_vec_ntt(rand@, 0, psg.eta_1 as int, kk),
                    i,
                    kk,
                ),
            ),
            cbd_vec(rand@, kk, psg.eta_2 as int, kk)[i],
        ) by {
            assert(vecv(u)[i] == u.data@[i].data@);
        }
    }
    let u_compressed = Compressed::<Vector>::compress(u, ps.d_u);
    let m_dec = m.decompress();
    let mut v = r_hat.inner_product(&ek_pke.t);
    v.inverse_ntt();
    v.add(&e_2);
    v.add(&m_dec);
    let v_compressed = Compressed::<Ring>::compress(v, ps.d_v);
    let c = Cyphertext { u: u_compressed, v: v_compressed };
    proof {
        assert(c.u.value.data@.len() == kk);
        assert forall|i: int| 0 <= i < kk implies (#[trigger] c.u.value.data@[i]).data@
            == seq_compress(
            seq_add_q(
                inv_ntt_spec(
                    mat_col_prod(
                        sampled_matrix(ek_pke.rho@, kk),
                        cbd_vec_ntt(rand@, 0, psg.eta_1 as int, kk),
                        i,
                        kk,
                    ),
                ),
                cbd_vec(rand@, kk, psg.eta_2 as int, kk)[i],
            ),
            psg.d_u as nat,
        ) by {
            assert(c.u.value.data@[i].data@ == seq_compress(vecv(u)[i], psg.d_u as nat));
        }
    }
    c
}

/// K-PKE decryption: decompresses the ciphertext, removes the secret part
/// with `w = v - NTT^-1(s * NTT(u))`, and compresses the result to the one
/// bit per coefficient message ring.
pub fn decrypt<P: MlKemParams>(dk_kpe: Vector, c: &Cyphertext) -> (m: Compressed<Ring>)
    requires
        dk_kpe.data@.len() == P::spec_params().k,
        dk_kpe.wf(),
        dk_kpe.all_t(RingRepresentation::NTT),
        c.wf(P::spec_params()),
    ensures
        m.d == 1,
        m.wf(),
        m.value.t == RingRepresentation::Degree255,
        m.value.data@ == kpke_decrypt_spec(dk_kpe, *c, P::spec_params()),
{
    let ps = P::params();
    let ghost psg = P::spec_params();
    let ghost kk = psg.k as int;
    let ghost c0 = *c;
    let ghost dk0 = dk_kpe;
    let u = duplicate_compressed_vector(&c.u).decompress();
    let u_hat = u.ntt();
    proof {
        assert(vecv(u_hat) =~= Seq::new(
            kk as nat,
            |i: int| ntt_spec(seq_decompress(c0.u.value.data@[i].data@, psg.d_u as nat)),
        ));
    }
    let mut v = duplicate_compressed_ring(&c.v).decompress();
    let mut s_part = dk_kpe.inner_product(&u_hat);
    s_part.inverse_ntt();
    v.sub(&s_part);
    let m = Compressed::<Ring>::compress(v, 1);
    proof {
        assert(m.value.data@ == kpke_decrypt_spec(dk0, c0, psg));
    }
    m
}

} // verus!
