use she::cipher_g1::CipherTextG1;
use she::cipher_g2::CipherTextG2;
use she::cipher_gt::CipherTextGT;
use she::dlog::DlogTable;
use she::exponent::ExponentEngine;
use she::keys::{PublicKey, SecretKey};
use she::types::{Fr, SheError, G1, GT};

const BOUND: u64 = 1 << 20;

fn key_pair(engine: &ExponentEngine, x: u64, y: u64) -> (SecretKey, PublicKey) {
    let secret =
        SecretKey::generate(engine, Some(Fr::from_word(x)), Some(Fr::from_word(y))).unwrap();
    let public = secret.public_key(engine);
    (secret, public)
}

fn words(c: &CipherTextGT) -> [u64; 4] {
    [c.g[0].word(), c.g[1].word(), c.g[2].word(), c.g[3].word()]
}

#[test]
fn product_of_three_and_four_decrypts_to_twelve() {
    let engine = ExponentEngine::new();
    let (secret, public) = key_pair(&engine, 1234567, 7654321);
    let table: DlogTable<GT> = DlogTable::build(&engine, BOUND);
    let a = CipherTextG1::encrypt(&engine, &public, 3, BOUND, Some(Fr::from_word(424242))).unwrap();
    let b = CipherTextG2::encrypt(&engine, &public, 4, BOUND, Some(Fr::from_word(171717))).unwrap();
    let c = CipherTextGT::pairing_mul(&engine, &a, &b);
    assert_eq!(c.decrypt(&engine, &secret, &table), Ok(12));
}

#[test]
fn pairing_mul_takes_the_four_cross_terms() {
    let engine = ExponentEngine::new();
    let (_, public) = key_pair(&engine, 11, 13);
    let a = CipherTextG1::encrypt(&engine, &public, 3, BOUND, Some(Fr::from_word(10))).unwrap();
    let b = CipherTextG2::encrypt(&engine, &public, 4, BOUND, Some(Fr::from_word(20))).unwrap();
    assert_eq!((a.S.word(), a.T.word()), (10, 113));
    assert_eq!((b.S.word(), b.T.word()), (20, 264));
    let c = CipherTextGT::pairing_mul(&engine, &a, &b);
    assert_eq!(words(&c), [200, 2640, 2260, 29832]);
}

#[test]
fn target_group_bytes_round_trip() {
    let engine = ExponentEngine::new();
    let (_, public) = key_pair(&engine, 11, 13);
    let a = CipherTextG1::encrypt(&engine, &public, 3, BOUND, Some(Fr::from_word(10))).unwrap();
    let b = CipherTextG2::encrypt(&engine, &public, 4, BOUND, Some(Fr::from_word(20))).unwrap();
    let c = CipherTextGT::pairing_mul(&engine, &a, &b);
    let bytes = c.serialize(&engine);
    assert_eq!(
        bytes,
        vec![200, 0, 0, 0, 0x50, 0x0a, 0, 0, 0xd4, 0x08, 0, 0, 0x88, 0x74, 0, 0]
    );
    let back = CipherTextGT::deserialize(&engine, &bytes).unwrap();
    assert_eq!(words(&back), words(&c));
    assert_eq!(
        CipherTextGT::deserialize(&engine, &bytes[..15]).err(),
        Some(SheError::MalformedCiphertext)
    );
    let mut high = bytes.clone();
    high[11] = 0x80;
    assert_eq!(
        CipherTextGT::deserialize(&engine, &high).err(),
        Some(SheError::MalformedCiphertext)
    );
}

#[test]
fn target_group_encrypts_directly() {
    let engine = ExponentEngine::new();
    let (secret, public) = key_pair(&engine, 1234567, 7654321);
    let table: DlogTable<GT> = DlogTable::build(&engine, BOUND);
    let blinding = Some((Fr::from_word(999), Fr::from_word(31415)));
    let c = CipherTextGT::encrypt(&engine, &public, -9, BOUND, blinding).unwrap();
    assert_eq!(c.decrypt(&engine, &secret, &table), Ok(-9));
    let r = CipherTextGT::encrypt(&engine, &public, (BOUND + 1) as i64, BOUND, blinding);
    assert_eq!(r.err(), Some(SheError::PlaintextRangeError));
    let r = CipherTextGT::encrypt(&engine, &public, 7, BOUND, None);
    assert_eq!(r.err(), Some(SheError::RandomnessFailure));
    let zero_bound = CipherTextGT::encrypt(&engine, &public, 0, 0, blinding).unwrap();
    assert_eq!(zero_bound.decrypt(&engine, &secret, &table), Ok(0));
}

#[test]
fn target_group_is_additively_homomorphic() {
    let engine = ExponentEngine::new();
    let (secret, public) = key_pair(&engine, 1234567, 7654321);
    let table: DlogTable<GT> = DlogTable::build(&engine, BOUND);
    let a = CipherTextGT::encrypt(
        &engine,
        &public,
        600,
        BOUND,
        Some((Fr::from_word(1), Fr::from_word(2))),
    )
    .unwrap();
    let b = CipherTextGT::encrypt(
        &engine,
        &public,
        -1000,
        BOUND,
        Some((Fr::from_word(3), Fr::from_word(4))),
    )
    .unwrap();
    assert_eq!(a.add(&engine, &b).decrypt(&engine, &secret, &table), Ok(-400));
    assert_eq!(a.sub(&engine, &b).decrypt(&engine, &secret, &table), Ok(1600));
    assert_eq!(a.neg(&engine).decrypt(&engine, &secret, &table), Ok(-600));
    assert_eq!(a.scalar_mul(&engine, -3).decrypt(&engine, &secret, &table), Ok(-1800));
    assert_eq!(
        b.scalar_mul(&engine, 2000).decrypt(&engine, &secret, &table),
        Err(SheError::PlaintextOutOfRange)
    );
}

#[test]
fn product_beyond_bound_fails() {
    let engine = ExponentEngine::new();
    let (secret, public) = key_pair(&engine, 1234567, 7654321);
    let table: DlogTable<GT> = DlogTable::build(&engine, BOUND);
    let a = CipherTextG1::encrypt(&engine, &public, 2048, BOUND, Some(Fr::from_word(5))).unwrap();
    let b = CipherTextG2::encrypt(&engine, &public, 512, BOUND, Some(Fr::from_word(6))).unwrap();
    let c = CipherTextG2::encrypt(&engine, &public, -513, BOUND, Some(Fr::from_word(7))).unwrap();
    let at_bound = CipherTextGT::pairing_mul(&engine, &a, &b);
    assert_eq!(at_bound.decrypt(&engine, &secret, &table), Ok(BOUND as i64));
    let beyond = CipherTextGT::pairing_mul(&engine, &a, &c);
    assert_eq!(
        beyond.decrypt(&engine, &secret, &table),
        Err(SheError::PlaintextOutOfRange)
    );
}

#[test]
fn product_under_two_keys_does_not_open() {
    let engine = ExponentEngine::new();
    let (secret, public) = key_pair(&engine, 1234567, 7654321);
    let (other_secret, other_public) = key_pair(&engine, 2222222, 3333333);
    let table: DlogTable<GT> = DlogTable::build(&engine, BOUND);
    let a = CipherTextG1::encrypt(&engine, &public, 3, BOUND, Some(Fr::from_word(424242))).unwrap();
    let b = CipherTextG2::encrypt(&engine, &other_public, 4, BOUND, Some(Fr::from_word(171717)))
        .unwrap();
    let c = CipherTextGT::pairing_mul(&engine, &a, &b);
    assert_ne!(c.decrypt(&engine, &secret, &table), Ok(12));
    assert_ne!(c.decrypt(&engine, &other_secret, &table), Ok(12));
}

#[test]
fn tampered_bytes_do_not_give_the_ciphertext_back() {
    let engine = ExponentEngine::new();
    let (secret, public) = key_pair(&engine, 11, 13);
    let table: DlogTable<G1> = DlogTable::build(&engine, BOUND);
    let c = CipherTextG1::encrypt(&engine, &public, 5, BOUND, Some(Fr::from_word(100))).unwrap();
    let bytes = c.serialize(&engine);
    let mut at: usize = 0;
    while at < bytes.len() {
        let mut bit: u8 = 1;
        loop {
            let mut flipped = bytes.clone();
            flipped[at] ^= bit;
            match CipherTextG1::deserialize(&engine, &flipped) {
                Ok(back) => assert!(back.S.word() != c.S.word() || back.T.word() != c.T.word()),
                Err(e) => assert_eq!(e, SheError::MalformedCiphertext),
            }
            if bit == 0x80 {
                break;
            }
            bit <<= 1;
        }
        at += 1;
    }
    let mut flipped = bytes.clone();
    flipped[3] ^= 1;
    let back = CipherTextG1::deserialize(&engine, &flipped).unwrap();
    assert_eq!(
        back.decrypt(&engine, &secret, &table),
        Err(SheError::PlaintextOutOfRange)
    );
    let mut flipped = bytes.clone();
    flipped[3] ^= 0x80;
    assert_eq!(
        CipherTextG1::deserialize(&engine, &flipped).err(),
        Some(SheError::MalformedCiphertext)
    );
}

#[test]
fn key_bytes_round_trip() {
    let engine = ExponentEngine::new();
    let (secret, public) = key_pair(&engine, 0x01020304, 5);
    let bytes = secret.serialize(&engine);
    assert_eq!(bytes, vec![4, 3, 2, 1, 5, 0, 0, 0]);
    let back = SecretKey::deserialize(&engine, &bytes).unwrap();
    assert_eq!((back.x.word(), back.y.word()), (0x01020304, 5));
    let bytes = public.serialize(&engine);
    assert_eq!(bytes, vec![4, 3, 2, 1, 5, 0, 0, 0]);
    let back = PublicKey::deserialize(&engine, &bytes).unwrap();
    assert_eq!((back.xP.word(), back.yQ.word()), (0x01020304, 5));
}

#[test]
fn malformed_keys_are_refused() {
    let engine = ExponentEngine::new();
    assert_eq!(
        SecretKey::deserialize(&engine, &[0; 7]).err(),
        Some(SheError::MalformedKey)
    );
    assert_eq!(
        SecretKey::deserialize(&engine, &[0, 0, 0, 0, 0xff, 0xff, 0xff, 0x7f]).err(),
        Some(SheError::MalformedKey)
    );
    assert_eq!(
        PublicKey::deserialize(&engine, &[]).err(),
        Some(SheError::MalformedKey)
    );
    assert_eq!(
        PublicKey::deserialize(&engine, &[0xff, 0xff, 0xff, 0x7f, 0, 0, 0, 0]).err(),
        Some(SheError::MalformedKey)
    );
    assert!(PublicKey::deserialize(&engine, &[0; 8]).is_ok());
}

#[test]
fn first_group_table_serves_only_its_bound() {
    let engine = ExponentEngine::new();
    let (secret, public) = key_pair(&engine, 11, 13);
    let small: DlogTable<G1> = DlogTable::build(&engine, 0);
    assert_eq!(small.stride(), 1);
    let zero = CipherTextG1::encrypt(&engine, &public, 0, 0, Some(Fr::from_word(100))).unwrap();
    let one = CipherTextG1::encrypt(&engine, &public, 1, 1, Some(Fr::from_word(100))).unwrap();
    assert_eq!(zero.decrypt(&engine, &secret, &small), Ok(0));
    assert_eq!(
        one.decrypt(&engine, &secret, &small),
        Err(SheError::PlaintextOutOfRange)
    );
}

#[test]
fn secret_key_is_copied_only_on_request() {
    let engine = ExponentEngine::new();
    let (secret, _) = key_pair(&engine, 31337, 271828);
    let second = secret.duplicate();
    assert_eq!((second.x.word(), second.y.word()), (31337, 271828));
    assert_eq!(second.x.d, [31337, 0, 0, 0]);
}

#[test]
fn target_group_validity_looks_at_every_component() {
    let engine = ExponentEngine::new();
    let good = CipherTextGT {
        g: [GT::from_word(1), GT::from_word(2), GT::from_word(3), GT::from_word(4)],
    };
    assert!(good.is_wf(&engine));
    let bad = CipherTextGT {
        g: [GT::from_word(1), GT::from_word(2), GT::from_word(3), GT::from_word(u64::MAX)],
    };
    assert!(!bad.is_wf(&engine));
    assert_eq!(GT::from_word(9).d[0].d, [9, 0, 0, 0, 0, 0]);
    assert_eq!(GT::from_word(9).d[11].d, [0; 6]);
    assert_eq!(G1::from_word(9).y.d, [0; 6]);
}
