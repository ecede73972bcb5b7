//! Tests of bit-exact serialization: round trips, exact lengths per
//! parameter set, and rejection of malformed input.

use kemkem::ring::{Ring, RingRepresentation};
use kemkem::serialize::{byte_encode, byte_decode};
use kemkem::kpke::KpkeEncryptionKey;
use kemkem::mlkem::{key_gen, encaps, MlkemDecapsulationKey};
use kemkem::kpke::Cyphertext;
use kemkem::params::{MlKem512, MlKem768, MlKem1024, MlKemParams, ParamSet, MlKemError};

#[test]
fn test_byte_codec_round_trip() {
    let mut r = Ring::new(RingRepresentation::NTT);
    for i in 0..256 {
        r.data[i] = ((i as u16).wrapping_mul(2731).wrapping_add(17)) % 3329;
    }
    let bytes = byte_encode(&r, 12);
    assert_eq!(bytes.len(), 384);
    let back = byte_decode(&bytes, 0, 12, RingRepresentation::NTT);
    assert_eq!(back.data, r.data);
    assert_eq!(back.t, RingRepresentation::NTT);
}

#[test]
fn test_byte_codec_narrow_width() {
    let mut r = Ring::new(RingRepresentation::Degree255);
    for i in 0..256 {
        r.data[i] = (i as u16) % 32;
    }
    let bytes = byte_encode(&r, 5);
    assert_eq!(bytes.len(), 160);
    let back = byte_decode(&bytes, 0, 5, RingRepresentation::Degree255);
    assert_eq!(back.data, r.data);
}

fn ek_views(ek: &KpkeEncryptionKey) -> (Vec<Vec<u16>>, Vec<u8>) {
    (
        ek.t.data.iter().map(|r| r.data.clone()).collect(),
        ek.rho.clone(),
    )
}

#[test]
fn test_ek_serialization_round_trip() {
    let (ek, _dk) = key_gen::<MlKem512>();
    let bytes = ek.serialize();
    assert_eq!(bytes.len(), 384 * 2 + 32);
    let ek2 = KpkeEncryptionKey::deserialize(&bytes, 2).unwrap();
    assert_eq!(ek_views(&ek), ek_views(&ek2));
}

#[test]
fn test_dk_serialization_round_trip() {
    let (_ek, dk) = key_gen::<MlKem768>();
    let bytes = dk.serialize();
    assert_eq!(bytes.len(), 768 * 3 + 96);
    let dk2 = MlkemDecapsulationKey::deserialize(&bytes, 3).unwrap();
    let s_views: Vec<Vec<u16>> = dk.dk_pke.data.iter().map(|r| r.data.clone()).collect();
    let s2_views: Vec<Vec<u16>> = dk2.dk_pke.data.iter().map(|r| r.data.clone()).collect();
    assert_eq!(s_views, s2_views);
    assert_eq!(ek_views(&dk.ek), ek_views(&dk2.ek));
    assert_eq!(dk.hash, dk2.hash);
    assert_eq!(dk.z, dk2.z);
}

#[test]
fn test_ct_serialization_round_trip() {
    let (ek, _dk) = key_gen::<MlKem1024>();
    let (_key, c) = encaps::<MlKem1024>(ek);
    let ps = MlKem1024::params();
    let bytes = c.serialize();
    assert_eq!(bytes.len(), 32 * (ps.d_u * ps.k + ps.d_v));
    let c2 = Cyphertext::deserialize(&bytes, &ps).unwrap();
    let u_views: Vec<Vec<u16>> = c.u.value.data.iter().map(|r| r.data.clone()).collect();
    let u2_views: Vec<Vec<u16>> = c2.u.value.data.iter().map(|r| r.data.clone()).collect();
    assert_eq!(u_views, u2_views);
    assert_eq!(c.v.value.data, c2.v.value.data);
    assert_eq!(c2.u.d, ps.d_u);
    assert_eq!(c2.v.d, ps.d_v);
}

#[test]
fn test_serialized_lengths_per_level() {
    let (ek5, dk5) = key_gen::<MlKem512>();
    assert_eq!(ek5.serialize().len(), 384 * 2 + 32);
    assert_eq!(dk5.serialize().len(), 768 * 2 + 96);
    let (ek7, dk7) = key_gen::<MlKem768>();
    assert_eq!(ek7.serialize().len(), 384 * 3 + 32);
    assert_eq!(dk7.serialize().len(), 768 * 3 + 96);
    let (ek10, dk10) = key_gen::<MlKem1024>();
    assert_eq!(ek10.serialize().len(), 384 * 4 + 32);
    assert_eq!(dk10.serialize().len(), 768 * 4 + 96);
    let (_k, c5) = encaps::<MlKem512>(ek5);
    assert_eq!(c5.serialize().len(), 32 * (10 * 2 + 4));
    let (_k, c7) = encaps::<MlKem768>(ek7);
    assert_eq!(c7.serialize().len(), 32 * (10 * 3 + 4));
    let (_k, c10) = encaps::<MlKem1024>(ek10);
    assert_eq!(c10.serialize().len(), 32 * (11 * 4 + 5));
}

#[test]
fn test_deserialize_rejects_wrong_length() {
    let bad = vec![0u8; 100];
    assert_eq!(
        KpkeEncryptionKey::deserialize(&bad, 2).unwrap_err(),
        MlKemError::MalformedInput
    );
    assert_eq!(
        MlkemDecapsulationKey::deserialize(&bad, 2).unwrap_err(),
        MlKemError::MalformedInput
    );
    let ps = MlKem512::params();
    assert_eq!(
        Cyphertext::deserialize(&bad, &ps).unwrap_err(),
        MlKemError::MalformedInput
    );
}

#[test]
fn test_param_set_selector() {
    let ps = ParamSet::from_id(512).unwrap();
    assert_eq!((ps.k, ps.eta_1, ps.eta_2, ps.d_u, ps.d_v), (2, 3, 2, 10, 4));
    let ps = ParamSet::from_id(768).unwrap();
    assert_eq!((ps.k, ps.eta_1, ps.eta_2, ps.d_u, ps.d_v), (3, 2, 2, 10, 4));
    let ps = ParamSet::from_id(1024).unwrap();
    assert_eq!((ps.k, ps.eta_1, ps.eta_2, ps.d_u, ps.d_v), (4, 2, 2, 11, 5));
    assert_eq!(ParamSet::from_id(640).unwrap_err(), MlKemError::ParameterSet);
}
