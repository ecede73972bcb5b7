//! The ML-KEM wrapper: key generation, encapsulation and decapsulation,
//! applying domain-separated hashing and implicit rejection on top of the
//! K-PKE primitive.  Decapsulation re-encrypts the decrypted message and
//! selects between the accepted key and the pseudorandom rejection key with
//! a constant-time comparison and a constant-time select, never with a
//! data-dependent branch.

use vstd::prelude::*;
use crate::params::{MlKemParams, ParamSet};
use crate::ring::{Ring, RingRepresentation, Vector, Compressed, vecv};
use crate::kpke;
use crate::kpke::{
    KpkeEncryptionKey, Cyphertext, kpke_keys_from, kpke_encrypt_rel, kpke_decrypt_spec,
    encrypt_u_ring, encrypt_v_ring,
};
use crate::serialize::{
    byte_encode, byte_decode, byte_encode_spec, byte_decode_spec, ek_bytes, ct_bytes, rings_bytes,
    lemma_decode_encode_bits,
};
use crate::crypt::{random_bytes, g, h, j, sha3_256_of, sha3_512_of, shake256_byte};

verus! {

/// The encapsulation key of the KEM is exactly the K-PKE encryption key.
pub type MlkemEncapsulationKey = KpkeEncryptionKey;

/// The decapsulation key: the K-PKE secret vector, a copy of the
/// encapsulation key, the hash of the serialized encapsulation key, and the
/// 32-byte implicit-rejection seed `z`.
#[derive(Debug)]
pub struct MlkemDecapsulationKey {
    pub dk_pke: Vector,
    pub ek: KpkeEncryptionKey,
    pub hash: Vec<u8>,
    pub z: Vec<u8>,
}

impl MlkemDecapsulationKey {
    /// Well-formed for rank `k`: a reduced NTT secret of `k` entries, a
    /// well-formed encapsulation key, and 32-byte hash and rejection seed.
    pub open spec fn wf(self, k: int) -> bool {
        self.dk_pke.data@.len() == k && self.dk_pke.wf() && self.dk_pke.all_t(
            RingRepresentation::NTT,
        ) && self.ek.wf(k) && self.hash@.len() == 32 && self.z@.len() == 32
    }
}

/// The byte string of the ciphertext that re-encrypting `m_data` under `ek`
/// with randomness `rand` produces: the serialized form of the unique
/// ciphertext satisfying the encryption relation.
pub open spec fn encrypt_ct_bytes(
    ek: KpkeEncryptionKey,
    m_data: Seq<u16>,
    rand: Seq<u8>,
    ps: ParamSet,
) -> Seq<u8> {
    let k = ps.k as int;
    rings_bytes(Seq::new(k as nat, |i: int| encrypt_u_ring(ek, rand, ps, i)), k, ps.d_u as int)
        + byte_encode_spec(encrypt_v_ring(ek, m_data, rand, ps), ps.d_v as int)
}

/// A ciphertext satisfying the encryption relation serializes to exactly
/// the re-encryption byte string.
pub proof fn lemma_encrypt_ct_bytes(
    ek: KpkeEncryptionKey,
    m_data: Seq<u16>,
    rand: Seq<u8>,
    ps: ParamSet,
    c: Cyphertext,
)
    requires
        kpke_encrypt_rel(ek, m_data, rand, ps, c),
    ensures
        ct_bytes(c) == encrypt_ct_bytes(ek, m_data, rand, ps),
{
    let k = ps.k as int;
    assert(vecv(c.u.value) =~= Seq::new(k as nat, |i: int| encrypt_u_ring(ek, rand, ps, i)));
}

/// What decapsulation returns, as a function of the ciphertext and the
/// decapsulation key: the accepted key re-derived through G when the
/// re-encryption reproduces the ciphertext bit for bit, and the implicit
/// rejection key J(z || c) otherwise.
pub open spec fn decaps_spec(c: Cyphertext, dk: MlkemDecapsulationKey, ps: ParamSet) -> Seq<u8> {
    let m = kpke_decrypt_spec(dk.dk_pke, c, ps);
    let combined = byte_encode_spec(m, 1) + dk.hash@;
    let k_acc = sha3_512_of(combined).take(32);
    let r_prime = sha3_512_of(combined).skip(32);
    let k_rej = Seq::new(32, |i: int| shake256_byte(dk.z@ + ct_bytes(c), i));
    if encrypt_ct_bytes(dk.ek, m, r_prime, ps) == ct_bytes(c) {
        k_acc
    } else {
        k_rej
    }
}

/// The relation between the 32 random message bytes `m`, the encapsulation
/// key, and the shared secret and ciphertext that encapsulation derives
/// from them: `(K, r) = G(m || H(ek))` and `c` encrypts the message ring of
/// `m` under `r`.
pub open spec fn encaps_rel(
    m: Seq<u8>,
    ek: KpkeEncryptionKey,
    key: Seq<u8>,
    c: Cyphertext,
    ps: ParamSet,
) -> bool {
    let combined = m + sha3_256_of(ek_bytes(ek));
    key == sha3_512_of(combined).take(32) && kpke_encrypt_rel(
        ek,
        byte_decode_spec(m, 1),
        sha3_512_of(combined).skip(32),
        ps,
        c,
    )
}

/// The concatenation of two byte strings.
fn concat_bytes(a: &Vec<u8>, b: &Vec<u8>) -> (r: Vec<u8>)
    ensures
        r@ == a@ + b@,
{
    let mut out: Vec<u8> = Vec::new();
    let na = a.len();
    let mut i: usize = 0;
    while i < na
        invariant
            i <= na,
            na == a@.len(),
            out@ == a@.take(i as int),
        decreases na - i,
    {
        out.push(a[i]);
        proof {
            assert(a@.take(i + 1) =~= a@.take(i as int).push(a@[i as int]));
        }
        i += 1;
    }
    let nb = b.len();
    let mut i: usize = 0;
    proof {
        assert(a@.take(na as int) =~= a@);
    }
    while i < nb
        invariant
            i <= nb,
            nb == b@.len(),
            out@ == a@ + b@.take(i as int),
        decreases nb - i,
    {
        out.push(b[i]);
        proof {
            assert(a@ + b@.take(i + 1) =~= (a@ + b@.take(i as int)).push(b@[i as int]));
        }
        i += 1;
    }
    proof {
        assert(a@ + b@.take(nb as int) =~= a@ + b@);
    }
    out
}

/// Compares two byte strings of equal length without a data-dependent
/// branch, accumulating the differences bitwise; returns one when they are
/// equal and zero otherwise.
fn bytes_eq_ct(a: &Vec<u8>, b: &Vec<u8>) -> (r: u8)
    requires
        a@.len() == b@.len(),
    ensures
        r == 0 || r == 1,
        (r == 1) <==> a@ == b@,
{
    let n = a.len();
    let mut diff: u8 = 0;
    let mut i: usize = 0;
    while i < n
        invariant
            i <= n,
            n == a@.len(),
            n == b@.len(),
            (diff == 0) <==> (forall|p: int| 0 <= p < i ==> a@[p] == b@[p]),
        decreases n - i,
    {
        let ghost d0 = diff;
        let x = a[i];
        let y = b[i];
        diff = diff | (x ^ y);
        proof {
            assert((d0 | (x ^ y)) == 0 <==> d0 == 0 && x == y) by (bit_vector);
        }
        i += 1;
    }
    let s16: u16 = (diff as u16) + 255;
    let nz: u16 = s16 >> 8;
    proof {
        vstd::bits::lemma_u16_shr_is_div(s16, 8);
        vstd::arithmetic::power2::lemma2_to64();
        if diff == 0 {
            assert(255int / 256 == 0);
            assert(a@ =~= b@);
        } else {
            assert(s16 as int / 256 == 1) by {
                vstd::arithmetic::div_mod::lemma_fundamental_div_mod_converse_div(
                    s16 as int,
                    256,
                    1,
                    s16 - 256,
                );
            }
        }
    }
    (1 - nz) as u8
}

/// Selects between two 32-byte strings by a zero-or-one flag, using a mask
/// rather than a data-dependent branch.
fn select_bytes(flag: u8, a: &Vec<u8>, b: &Vec<u8>) -> (r: Vec<u8>)
    requires
        flag == 0 || flag == 1,
        a@.len() == 32,
        b@.len() == 32,
    ensures
        r@.len() == 32,
        flag == 1 ==> r@ == a@,
        flag == 0 ==> r@ == b@,
{
    let mask: u8 = 0u8.wrapping_sub(flag);
    proof {
        assert(flag == 1 ==> mask == 0xff);
        assert(flag == 0 ==> mask == 0);
    }
    let mut out: Vec<u8> = Vec::new();
    let mut i: usize = 0;
    while i < 32
        invariant
            i <= 32,
            a@.len() == 32,
            b@.len() == 32,
            flag == 0 || flag == 1,
            mask == (if flag == 1 {
                0xffu8
            } else {
                0u8
            }),
            out@.len() == i,
            flag == 1 ==> out@ == a@.take(i as int),
            flag == 0 ==> out@ == b@.take(i as int),
        decreases 32 - i,
    {
        let x = a[i];
        let y = b[i];
        let sel = (x & mask) | (y & !mask);
        proof {
            assert((x & 0xffu8) | (y & !0xffu8) == x) by (bit_vector);
            assert((x & 0u8) | (y & !0u8) == y) by (bit_vector);
            if flag == 1 {
                assert(a@.take(i + 1) =~= a@.take(i as int).push(a@[i as int]));
            } else {
                assert(b@.take(i + 1) =~= b@.take(i as int).push(b@[i as int]));
            }
        }
        out.push(sel);
        i += 1;
    }
    proof {
        assert(a@.take(32) =~= a@);
        assert(b@.take(32) =~= b@);
    }
    out
}

/// ML-KEM key generation: draws the rejection seed `z`, runs K-PKE key
/// generation, and packages the decapsulation key with a copy of the
/// encapsulation key and the hash of its serialized form.
pub fn key_gen<P: MlKemParams>() -> (r: (MlkemEncapsulationKey, MlkemDecapsulationKey))
    ensures
        r.0.wf(P::spec_params().k as int),
        r.1.wf(P::spec_params().k as int),
        vecv(r.1.ek.t) == vecv(r.0.t),
        r.1.ek.rho@ == r.0.rho@,
        r.1.hash@ == sha3_256_of(ek_bytes(r.0)),
        exists|d: Seq<u8>|
            d.len() == 32 && #[trigger] kpke_keys_from(d, P::spec_params(), r.0, r.1.dk_pke),
{
    let z = random_bytes(32);
    let (ek, dk_pke) = kpke::key_gen::<P>();
    let serialized = ek.serialize();
    let hash = h(&serialized);
    let ek_copy = ek.duplicate();
    let dk = MlkemDecapsulationKey { dk_pke, ek: ek_copy, hash, z };
    let result = (ek, dk);
    proof {
        let psg = P::spec_params();
        let d = choose|d: Seq<u8>|
            d.len() == 32 && #[trigger] kpke_keys_from(d, psg, result.0, result.1.dk_pke);
        assert(exists|d: Seq<u8>|
            d.len() == 32 && #[trigger] kpke_keys_from(d, psg, result.0, result.1.dk_pke));
    }
    result
}

/// ML-KEM encapsulation: draws the 32 message bytes, derives the shared
/// secret and the encryption randomness as `G(m || H(ek))`, and encrypts
/// the message ring of `m` under the encapsulation key.
pub fn encaps<P: MlKemParams>(ek_mlkem: MlkemEncapsulationKey) -> (r: (Vec<u8>, Cyphertext))
    requires
        ek_mlkem.wf(P::spec_params().k as int),
    ensures
        r.0@.len() == 32,
        r.1.wf(P::spec_params()),
        exists|m: Seq<u8>|
            m.len() == 32 && #[trigger] encaps_rel(m, ek_mlkem, r.0@, r.1, P::spec_params()),
{
    let ghost ek0 = ek_mlkem;
    let m = random_bytes(32);
    let serialized = ek_mlkem.serialize();
    let ek_hash = h(&serialized);
    let combined = concat_bytes(&m, &ek_hash);
    let (key, rand) = g(&combined);
    let m_ring = byte_decode(&m, 0, 1, RingRepresentation::Degree255);
    let m_compressed = Compressed { value: m_ring, d: 1usize };
    proof {
        assert(m@.subrange(0, 32) =~= m@);
    }
    let c = kpke::encrypt::<P>(ek_mlkem, m_compressed, rand);
    let result = (key, c);
    proof {
        let psg = P::spec_params();
        assert(encaps_rel(m@, ek0, result.0@, result.1, psg));
        assert(exists|mm: Seq<u8>|
            mm.len() == 32 && #[trigger] encaps_rel(mm, ek0, result.0@, result.1, psg));
    }
    result
}

/// ML-KEM decapsulation: decrypts the ciphertext, re-derives the key and
/// randomness from the decrypted message, re-encrypts, and returns the
/// accepted key exactly when the re-encryption reproduces the ciphertext —
/// otherwise the deterministic implicit-rejection key, never an error.
pub fn decaps<P: MlKemParams>(c: Cyphertext, dk_mlkem: MlkemDecapsulationKey) -> (key: Vec<u8>)
    requires
        c.wf(P::spec_params()),
        dk_mlkem.wf(P::spec_params().k as int),
    ensures
        key@.len() == 32,
        key@ == decaps_spec(c, dk_mlkem, P::spec_params()),
{
    let ghost c0 = c;
    let ghost dk0 = dk_mlkem;
    let ghost psg = P::spec_params();
    let c_ser = c.serialize();
    let MlkemDecapsulationKey { dk_pke, ek, hash, z } = dk_mlkem;
    let m = kpke::decrypt::<P>(dk_pke, &c);
    let ghost m_spec = kpke_decrypt_spec(dk0.dk_pke, c0, psg);
    let m_bytes = byte_encode(&m.value, 1);
    let combined = concat_bytes(&m_bytes, &hash);
    let (k_acc, r_prime) = g(&combined);
    let zc = concat_bytes(&z, &c_ser);
    let k_rej = j(&zc);
    let c_prime = kpke::encrypt::<P>(ek, m, r_prime);
    let cp_ser = c_prime.serialize();
    let eq_flag = bytes_eq_ct(&cp_ser, &c_ser);
    proof {
        lemma_encrypt_ct_bytes(dk0.ek, m_spec, sha3_512_of(m_bytes@ + dk0.hash@).skip(32), psg, c_prime);
        assert(k_rej@ =~= Seq::new(32, |i: int| shake256_byte(dk0.z@ + ct_bytes(c0), i)));
    }
    let key = select_bytes(eq_flag, &k_acc, &k_rej);
    key
}

/// Two encryption keys with equal views produce the same re-encryption
/// byte string.
proof fn lemma_encrypt_ct_bytes_congruent(
    ek1: KpkeEncryptionKey,
    ek2: KpkeEncryptionKey,
    m_data: Seq<u16>,
    rand: Seq<u8>,
    ps: ParamSet,
)
    requires
        ek1.rho@ == ek2.rho@,
        vecv(ek1.t) == vecv(ek2.t),
    ensures
        encrypt_ct_bytes(ek1, m_data, rand, ps) == encrypt_ct_bytes(ek2, m_data, rand, ps),
{
    let k = ps.k as int;
    assert(Seq::new(k as nat, |i: int| encrypt_u_ring(ek1, rand, ps, i)) =~= Seq::new(
        k as nat,
        |i: int| encrypt_u_ring(ek2, rand, ps, i),
    ));
    assert(encrypt_v_ring(ek1, m_data, rand, ps) == encrypt_v_ring(ek2, m_data, rand, ps));
}

/// Honest decapsulation accepts: whenever decryption recovers the
/// encapsulated message ring — which fails only in the negligible
/// decryption-failure event — decapsulation of an honestly produced
/// ciphertext returns exactly the encapsulated shared secret.
pub proof fn lemma_honest_decaps_accepts(
    ek: KpkeEncryptionKey,
    dk: MlkemDecapsulationKey,
    m: Seq<u8>,
    key: Seq<u8>,
    c: Cyphertext,
    ps: ParamSet,
)
    requires
        ps.wf(),
        m.len() == 32,
        dk.hash@ == sha3_256_of(ek_bytes(ek)),
        vecv(dk.ek.t) == vecv(ek.t),
        dk.ek.rho@ == ek.rho@,
        encaps_rel(m, ek, key, c, ps),
        kpke_decrypt_spec(dk.dk_pke, c, ps) == byte_decode_spec(m, 1),
    ensures
        decaps_spec(c, dk, ps) == key,
{
    let mm = kpke_decrypt_spec(dk.dk_pke, c, ps);
    lemma_decode_encode_bits(m);
    assert(byte_encode_spec(mm, 1) == m);
    let combined = byte_encode_spec(mm, 1) + dk.hash@;
    assert(combined == m + sha3_256_of(ek_bytes(ek)));
    let r_prime = sha3_512_of(combined).skip(32);
    lemma_encrypt_ct_bytes(ek, mm, r_prime, ps, c);
    lemma_encrypt_ct_bytes_congruent(ek, dk.ek, mm, r_prime, ps);
    assert(encrypt_ct_bytes(dk.ek, mm, r_prime, ps) == ct_bytes(c));
}

} // verus!
