//! End-to-end tests of the KEM: correctness for every parameter set, the
//! serialized flow, and tamper sensitivity of decapsulation.

use kemkem::mlkem::{key_gen, encaps, decaps, MlkemDecapsulationKey, MlkemEncapsulationKey};
use kemkem::kpke::Cyphertext;
use kemkem::params::{MlKem512, MlKem768, MlKem1024, MlKemParams};
use kemkem::crypt::j;

#[test]
fn test_512_params() {
    let (ek, _dk) = key_gen::<MlKem512>();
    assert_eq!(ek.serialize().len(), 384 * 2 + 32);
}

#[test]
fn test_mlkem() {
    let (ek, dk) = key_gen::<MlKem512>();

    let ek = ek.serialize();
    let dk = dk.serialize();

    let ek = MlkemEncapsulationKey::deserialize(&ek, 2).unwrap();

    let (key, c) = encaps::<MlKem512>(ek);

    let c = c.serialize();

    let dk = MlkemDecapsulationKey::deserialize(&dk, 2).unwrap();
    let ps = MlKem512::params();
    let c = Cyphertext::deserialize(&c, &ps).unwrap();

    let key_prime = decaps::<MlKem512>(c, dk);

    assert_eq!(key, key_prime);
}

#[test]
fn test_mlkem_768_round_trip() {
    let (ek, dk) = key_gen::<MlKem768>();
    let (key, c) = encaps::<MlKem768>(ek);
    let key_prime = decaps::<MlKem768>(c, dk);
    assert_eq!(key, key_prime);
    assert_eq!(key.len(), 32);
}

#[test]
fn test_mlkem_1024_round_trip() {
    let (ek, dk) = key_gen::<MlKem1024>();
    let (key, c) = encaps::<MlKem1024>(ek);
    let key_prime = decaps::<MlKem1024>(c, dk);
    assert_eq!(key, key_prime);
    assert_eq!(key.len(), 32);
}

#[test]
fn test_tamper_sensitivity() {
    let ps = MlKem512::params();
    let (ek, dk) = key_gen::<MlKem512>();
    let dk_ser = dk.serialize();
    let (key, c) = encaps::<MlKem512>(ek);
    let c_ser = c.serialize();
    let n = c_ser.len();
    // Flip one bit at a sample of positions across both ciphertext parts.
    let positions = [
        0usize,
        1,
        7,
        8 * 100 + 3,
        8 * 320 + 5,
        8 * 640 + 1,
        8 * (n - 1),
        8 * (n - 1) + 7,
    ];
    for &bit in &positions {
        let mut tampered = c_ser.clone();
        tampered[bit / 8] ^= 1 << (bit % 8);
        let c2 = Cyphertext::deserialize(&tampered, &ps).unwrap();
        let dk2 = MlkemDecapsulationKey::deserialize(&dk_ser, 2).unwrap();
        let z = dk2.z.clone();
        let key2 = decaps::<MlKem512>(c2, dk2);
        // The tampered ciphertext is rejected into the deterministic
        // implicit-rejection key, distinct from the agreed key.
        assert_ne!(key2, key, "bit {}", bit);
        let zc = [z, tampered].concat();
        let expected_reject = j(&zc);
        assert_eq!(key2, expected_reject, "bit {}", bit);
    }
}
