use she::cipher_g1::CipherTextG1;
use she::cipher_g2::CipherTextG2;
use she::dlog::{stride_for, within, DlogTable};
use she::engine::{GroupOps, ScalarField};
use she::exponent::{ExponentEngine, EXPONENT_ORDER};
use she::keys::{PublicKey, SecretKey};
use she::types::{CurveType, Fr, SheError, G1, G2};

const BOUND: u64 = 1 << 20;

fn keys(engine: &ExponentEngine, x: u64, y: u64) -> (SecretKey, PublicKey) {
    let secret =
        SecretKey::generate(engine, Some(Fr::from_word(x)), Some(Fr::from_word(y))).unwrap();
    let public = secret.public_key(engine);
    (secret, public)
}

#[test]
fn curve_identifiers() {
    assert_eq!(CurveType::BN254.id(), 0);
    assert_eq!(CurveType::BN381.id(), 1);
    assert_eq!(CurveType::SNARK.id(), 4);
    assert_eq!(CurveType::BLS12_381.id(), 5);
    assert_eq!(CurveType::SECP192K1.id(), 100);
    assert_eq!(CurveType::SECP224K1.id(), 101);
    assert_eq!(CurveType::SECP256K1.id(), 102);
    assert_eq!(CurveType::NIST_P192.id(), 105);
    assert_eq!(CurveType::NIST_P224.id(), 106);
    assert_eq!(CurveType::NIST_P256.id(), 107);
    assert_eq!(she::types::layout_tag(), 46);
}

#[test]
fn stride_is_least_root() {
    assert_eq!(stride_for(0), 1);
    assert_eq!(stride_for(1), 2);
    assert_eq!(stride_for(2), 2);
    assert_eq!(stride_for(8), 4);
    assert_eq!(stride_for(9), 5);
    assert_eq!(stride_for(BOUND), 1449);
}

#[test]
fn range_test_is_symmetric() {
    assert!(within(0, 0));
    assert!(within(5, 5));
    assert!(within(-5, 5));
    assert!(!within(6, 5));
    assert!(!within(-6, 5));
    assert!(!within(i64::MIN, u64::MAX >> 1));
    assert!(within(i64::MIN, 1 << 63));
}

#[test]
fn secret_key_needs_both_draws() {
    let engine = ExponentEngine::new();
    let r = SecretKey::generate(&engine, None, Some(Fr::from_word(3)));
    assert_eq!(r.err(), Some(SheError::RandomnessFailure));
    let r = SecretKey::generate(&engine, Some(Fr::from_word(3)), None);
    assert_eq!(r.err(), Some(SheError::RandomnessFailure));
    let k = SecretKey::generate(&engine, Some(Fr::from_word(3)), Some(Fr::from_word(4))).unwrap();
    assert_eq!(k.x.word(), 3);
    assert_eq!(k.y.word(), 4);
}

#[test]
fn secret_key_clears_to_zero() {
    let engine = ExponentEngine::new();
    let (mut secret, _) = keys(&engine, 77, 99);
    secret.clear();
    assert_eq!(secret.x.d, [0u64; 4]);
    assert_eq!(secret.y.d, [0u64; 4]);
    let zero = SecretKey::zero();
    assert_eq!(zero.x.d, [0u64; 4]);
}

#[test]
fn public_key_is_multiple_of_bases() {
    let engine = ExponentEngine::new();
    let (_, public) = keys(&engine, 123456, 654321);
    assert_eq!(public.xP.word(), 123456);
    assert_eq!(public.yQ.word(), 654321);
}

#[test]
fn recover_finds_every_small_plaintext() {
    let engine = ExponentEngine::new();
    let table: DlogTable<G1> = DlogTable::build(&engine, 50);
    assert_eq!(table.bound(), 50);
    assert_eq!(table.stride(), 10);
    let mut m: i64 = -50;
    while m <= 50 {
        let k = engine.scalar_from_i64(m);
        let base: G1 = engine.base();
        let v = engine.mul(&base, &k);
        assert_eq!(table.recover(&engine, &v), Ok(m));
        m += 1;
    }
}

#[test]
fn recover_rejects_beyond_bound() {
    let engine = ExponentEngine::new();
    let table: DlogTable<G1> = DlogTable::build(&engine, 50);
    for m in [51i64, -51, 60, 1000, -1000, 1 << 30] {
        let k = engine.scalar_from_i64(m);
        let base: G1 = engine.base();
        let v = engine.mul(&base, &k);
        assert_eq!(table.recover(&engine, &v), Err(SheError::PlaintextOutOfRange));
    }
}

#[test]
fn lookup_knows_baby_steps_only() {
    let engine = ExponentEngine::new();
    let table: DlogTable<G1> = DlogTable::build(&engine, 50);
    assert_eq!(table.lookup(&engine, &G1::from_word(0)), Some(0));
    assert_eq!(table.lookup(&engine, &G1::from_word(9)), Some(9));
    assert_eq!(table.lookup(&engine, &G1::from_word(10)), None);
}

#[test]
fn encrypt_rejects_out_of_range() {
    let engine = ExponentEngine::new();
    let (_, public) = keys(&engine, 11, 13);
    let r = CipherTextG1::encrypt(&engine, &public, (BOUND + 1) as i64, BOUND, Some(Fr::from_word(5)));
    assert_eq!(r.err(), Some(SheError::PlaintextRangeError));
    let r = CipherTextG1::encrypt(&engine, &public, -((BOUND + 1) as i64), BOUND, None);
    assert_eq!(r.err(), Some(SheError::PlaintextRangeError));
    let r = CipherTextG2::encrypt(&engine, &public, (BOUND + 1) as i64, BOUND, Some(Fr::from_word(5)));
    assert_eq!(r.err(), Some(SheError::PlaintextRangeError));
}

#[test]
fn encrypt_needs_blinding() {
    let engine = ExponentEngine::new();
    let (_, public) = keys(&engine, 11, 13);
    let r = CipherTextG1::encrypt(&engine, &public, 5, BOUND, None);
    assert_eq!(r.err(), Some(SheError::RandomnessFailure));
}

#[test]
fn encrypt_builds_blinded_pair() {
    let engine = ExponentEngine::new();
    let (_, public) = keys(&engine, 11, 13);
    let c = CipherTextG1::encrypt(&engine, &public, 5, BOUND, Some(Fr::from_word(100))).unwrap();
    assert_eq!(c.S.word(), 100);
    assert_eq!(c.T.word(), 5 + 100 * 11);
    let c = CipherTextG2::encrypt(&engine, &public, -5, BOUND, Some(Fr::from_word(100))).unwrap();
    assert_eq!(c.S.word(), 100);
    assert_eq!(c.T.word(), 100 * 13 - 5);
}

#[test]
fn sum_of_five_and_seven_decrypts_to_twelve() {
    let engine = ExponentEngine::new();
    let (secret, public) = keys(&engine, 1234567, 7654321);
    let table: DlogTable<G1> = DlogTable::build(&engine, BOUND);
    let a = CipherTextG1::encrypt(&engine, &public, 5, BOUND, Some(Fr::from_word(424242))).unwrap();
    let b = CipherTextG1::encrypt(&engine, &public, 7, BOUND, Some(Fr::from_word(171717))).unwrap();
    let c = a.add(&engine, &b);
    assert_eq!(c.decrypt(&engine, &secret, &table), Ok(12));
}

#[test]
fn homomorphic_operations_in_both_groups() {
    let engine = ExponentEngine::new();
    let (secret, public) = keys(&engine, 1234567, 7654321);
    let t1: DlogTable<G1> = DlogTable::build(&engine, BOUND);
    let t2: DlogTable<G2> = DlogTable::build(&engine, BOUND);
    let a = CipherTextG1::encrypt(&engine, &public, -300, BOUND, Some(Fr::from_word(9))).unwrap();
    let b = CipherTextG1::encrypt(&engine, &public, 1000, BOUND, Some(Fr::from_word(8))).unwrap();
    assert_eq!(a.decrypt(&engine, &secret, &t1), Ok(-300));
    assert_eq!(a.add(&engine, &b).decrypt(&engine, &secret, &t1), Ok(700));
    assert_eq!(a.sub(&engine, &b).decrypt(&engine, &secret, &t1), Ok(-1300));
    assert_eq!(a.neg(&engine).decrypt(&engine, &secret, &t1), Ok(300));
    assert_eq!(a.scalar_mul(&engine, -7).decrypt(&engine, &secret, &t1), Ok(2100));
    let a = CipherTextG2::encrypt(&engine, &public, -300, BOUND, Some(Fr::from_word(9))).unwrap();
    let b = CipherTextG2::encrypt(&engine, &public, 1000, BOUND, Some(Fr::from_word(8))).unwrap();
    assert_eq!(a.decrypt(&engine, &secret, &t2), Ok(-300));
    assert_eq!(a.add(&engine, &b).decrypt(&engine, &secret, &t2), Ok(700));
    assert_eq!(a.sub(&engine, &b).decrypt(&engine, &secret, &t2), Ok(-1300));
    assert_eq!(a.scalar_mul(&engine, 1000).decrypt(&engine, &secret, &t2), Ok(-300000));
}

#[test]
fn bound_itself_decrypts_and_overflow_fails() {
    let engine = ExponentEngine::new();
    let (secret, public) = keys(&engine, 31337, 271828);
    let table: DlogTable<G1> = DlogTable::build(&engine, BOUND);
    let top = CipherTextG1::encrypt(&engine, &public, BOUND as i64, BOUND, Some(Fr::from_word(3))).unwrap();
    let low = CipherTextG1::encrypt(&engine, &public, -(BOUND as i64), BOUND, Some(Fr::from_word(4))).unwrap();
    let one = CipherTextG1::encrypt(&engine, &public, 1, BOUND, Some(Fr::from_word(5))).unwrap();
    assert_eq!(top.decrypt(&engine, &secret, &table), Ok(BOUND as i64));
    assert_eq!(low.decrypt(&engine, &secret, &table), Ok(-(BOUND as i64)));
    assert_eq!(
        top.add(&engine, &one).decrypt(&engine, &secret, &table),
        Err(SheError::PlaintextOutOfRange)
    );
    assert_eq!(
        low.sub(&engine, &one).decrypt(&engine, &secret, &table),
        Err(SheError::PlaintextOutOfRange)
    );
    assert_eq!(
        top.scalar_mul(&engine, 2).decrypt(&engine, &secret, &table),
        Err(SheError::PlaintextOutOfRange)
    );
}

#[test]
fn wrong_key_does_not_open() {
    let engine = ExponentEngine::new();
    let (secret, public) = keys(&engine, 1234567, 7654321);
    let (other_secret, other_public) = keys(&engine, 2222222, 3333333);
    let table: DlogTable<G1> = DlogTable::build(&engine, BOUND);
    let a = CipherTextG1::encrypt(&engine, &public, 5, BOUND, Some(Fr::from_word(424242))).unwrap();
    let b = CipherTextG1::encrypt(&engine, &other_public, 7, BOUND, Some(Fr::from_word(171717))).unwrap();
    let c = a.add(&engine, &b);
    assert_ne!(c.decrypt(&engine, &secret, &table), Ok(12));
    assert_ne!(c.decrypt(&engine, &other_secret, &table), Ok(12));
}

#[test]
fn ciphertext_bytes_round_trip() {
    let engine = ExponentEngine::new();
    let (_, public) = keys(&engine, 11, 13);
    let c = CipherTextG1::encrypt(&engine, &public, 5, BOUND, Some(Fr::from_word(0x01020304))).unwrap();
    let bytes = c.serialize(&engine);
    assert_eq!(bytes, vec![4, 3, 2, 1, 0x31, 0x21, 0x16, 0x0b]);
    let back = CipherTextG1::deserialize(&engine, &bytes).unwrap();
    assert_eq!(back.S.word(), c.S.word());
    assert_eq!(back.T.word(), c.T.word());
    let c = CipherTextG2::encrypt(&engine, &public, 5, BOUND, Some(Fr::from_word(77))).unwrap();
    let bytes = c.serialize(&engine);
    let back = CipherTextG2::deserialize(&engine, &bytes).unwrap();
    assert_eq!(back.S.word(), c.S.word());
    assert_eq!(back.T.word(), c.T.word());
}

#[test]
fn malformed_bytes_are_refused() {
    let engine = ExponentEngine::new();
    assert_eq!(
        CipherTextG1::deserialize(&engine, &[1, 2, 3]).err(),
        Some(SheError::MalformedCiphertext)
    );
    assert_eq!(
        CipherTextG1::deserialize(&engine, &[0; 9]).err(),
        Some(SheError::MalformedCiphertext)
    );
    assert_eq!(
        CipherTextG1::deserialize(&engine, &[0, 0, 0, 0, 0xff, 0xff, 0xff, 0x7f]).err(),
        Some(SheError::MalformedCiphertext)
    );
    assert_eq!(
        CipherTextG1::deserialize(&engine, &[0xff, 0xff, 0xff, 0xff, 0, 0, 0, 0]).err(),
        Some(SheError::MalformedCiphertext)
    );
    assert!(CipherTextG1::deserialize(&engine, &[0xfe, 0xff, 0xff, 0x7f, 0, 0, 0, 0]).is_ok());
    assert_eq!(EXPONENT_ORDER, 0x7fff_ffff);
}

#[test]
fn exponent_engine_group_laws() {
    let engine = ExponentEngine::new();
    assert_eq!(ScalarField::scalar_from_i64(&engine, -1).word(), EXPONENT_ORDER - 1);
    assert_eq!(ScalarField::scalar_from_i64(&engine, i64::MIN).word(), EXPONENT_ORDER - 2);
    assert_eq!(ScalarField::scalar_from_i64(&engine, i64::MAX).word(), 1);
    let a = G1::from_word(EXPONENT_ORDER - 1);
    let b = G1::from_word(5);
    assert_eq!(engine.add(&a, &b).word(), 4);
    assert_eq!(engine.neg(&b).word(), EXPONENT_ORDER - 5);
    assert_eq!(engine.neg(&G1::from_word(0)).word(), 0);
    assert_eq!(engine.mul(&a, &Fr::from_word(2)).word(), EXPONENT_ORDER - 2);
    assert!(engine.same(&a, &G1::from_word(EXPONENT_ORDER - 1)));
    assert!(!engine.same(&a, &b));
    assert_eq!(engine.encode(&b), vec![5, 0, 0, 0]);
    assert_eq!(engine.decode(&[5, 0, 0, 0]).map(|g: G1| g.word()), Some(5));
    let q: G2 = engine.base();
    assert_eq!(q.word(), 1);
}

#[test]
fn colliding_fingerprints_still_find_every_step() {
    let engine = ExponentEngine::with_fold(7);
    let table: DlogTable<G1> = DlogTable::build(&engine, 50);
    let mut j: u64 = 0;
    while j < 10 {
        assert_eq!(table.lookup(&engine, &G1::from_word(j)), Some(j));
        j += 1;
    }
    assert_eq!(table.lookup(&engine, &G1::from_word(10)), None);
    assert_eq!(table.lookup(&engine, &G1::from_word(14)), None);
    let mut m: i64 = -50;
    while m <= 50 {
        let k = engine.scalar_from_i64(m);
        let base: G1 = engine.base();
        let v = engine.mul(&base, &k);
        assert_eq!(table.recover(&engine, &v), Ok(m));
        m += 1;
    }
    let k = engine.scalar_from_i64(-51);
    let base: G1 = engine.base();
    assert_eq!(
        table.recover(&engine, &engine.mul(&base, &k)),
        Err(SheError::PlaintextOutOfRange)
    );
}

#[test]
fn colliding_fingerprints_decrypt_the_same() {
    let engine = ExponentEngine::with_fold(1);
    let (secret, public) = keys(&engine, 1234567, 7654321);
    let table: DlogTable<G1> = DlogTable::build(&engine, 4096);
    let a = CipherTextG1::encrypt(&engine, &public, -4000, 4096, Some(Fr::from_word(9))).unwrap();
    let b = CipherTextG1::encrypt(&engine, &public, 96, 4096, Some(Fr::from_word(8))).unwrap();
    assert_eq!(a.decrypt(&engine, &secret, &table), Ok(-4000));
    assert_eq!(a.sub(&engine, &b).decrypt(&engine, &secret, &table), Ok(-4096));
    assert_eq!(
        a.sub(&engine, &b).sub(&engine, &b).decrypt(&engine, &secret, &table),
        Err(SheError::PlaintextOutOfRange)
    );
}

#[test]
fn table_is_refused_for_a_bound_it_cannot_serve() {
    let engine = ExponentEngine::new();
    let half = (EXPONENT_ORDER - 1) / 2;
    assert!(DlogTable::<G1>::try_build(&engine, half + 1).is_none());
    assert!(DlogTable::<G1>::try_build(&engine, u64::MAX).is_none());
    let table = DlogTable::<G1>::try_build(&engine, 100).unwrap();
    assert_eq!(table.bound(), 100);
    assert_eq!(table.stride(), 15);
}

#[test]
fn validity_checks_follow_the_order() {
    let engine = ExponentEngine::new();
    assert!(engine.is_scalar(&Fr::from_word(EXPONENT_ORDER - 1)));
    assert!(!engine.is_scalar(&Fr::from_word(EXPONENT_ORDER)));
    assert!(engine.is_element(&G1::from_word(0)));
    assert!(!engine.is_element(&G2::from_word(EXPONENT_ORDER)));
    assert!(engine.order_exceeds(EXPONENT_ORDER - 1));
    assert!(!engine.order_exceeds(EXPONENT_ORDER));
    let (secret, public) = keys(&engine, 11, 13);
    assert!(secret.is_wf(&engine));
    assert!(public.is_wf(&engine));
    let c = CipherTextG1 { S: G1::from_word(EXPONENT_ORDER), T: G1::from_word(0) };
    assert!(!c.is_wf(&engine));
}
