use vstd::prelude::*;
use vstd::arithmetic::div_mod::lemma_small_mod;
use vstd::slice::slice_subrange;
use crate::engine::{GroupOps, ScalarField};
use crate::types::{Fr, G1, G2, SheError};

verus! {

/// The two secret scalars: `x` opens ciphertexts of the first group, `y`
/// those of the second, both together those of the target group.
#[derive(Debug, Default)]
pub struct SecretKey {
    pub x: Fr,
    pub y: Fr,
}

/// The multiples of the two bases by the secret scalars.
#[allow(non_snake_case)]
#[derive(Clone, Copy, Debug, Default)]
pub struct PublicKey {
    pub xP: G1,
    pub yQ: G2,
}

impl SecretKey {
    /// Whether both halves hold scalars of `engine`.
    pub open spec fn wf<E: ScalarField>(&self, engine: &E) -> bool {
        engine.scalar_valid(&self.x) && engine.scalar_valid(&self.y)
    }

    /// Whether both halves hold scalars of `engine`.
    pub fn is_wf<E: ScalarField>(&self, engine: &E) -> (r: bool)
        ensures
            r == self.wf(engine),
    {
        engine.is_scalar(&self.x) && engine.is_scalar(&self.y)
    }

    /// A second copy of the key, for the one who owns the first.
    pub fn duplicate(&self) -> (k: SecretKey)
        ensures
            k.x == self.x,
            k.y == self.y,
    {
        SecretKey { x: self.x, y: self.y }
    }

    /// The key whose storage is all zero.
    pub fn zero() -> (k: SecretKey)
        ensures
            k.x.holds_word(0),
            k.y.holds_word(0),
    {
        SecretKey { x: Fr::from_word(0), y: Fr::from_word(0) }
    }

    /// Overwrites the key with zeros.
    pub fn clear(&mut self)
        ensures
            final(self).x.holds_word(0),
            final(self).y.holds_word(0),
    {
        *self = SecretKey::zero();
    }

    /// Makes a secret key of two scalars drawn from an entropy source, each
    /// `None` where the source gave nothing.
    pub fn generate<E: ScalarField>(engine: &E, x: Option<Fr>, y: Option<Fr>) -> (r: Result<
        SecretKey,
        SheError,
    >)
        requires
            x matches Some(k) ==> engine.scalar_valid(&k),
            y matches Some(k) ==> engine.scalar_valid(&k),
        ensures
            match r {
                Ok(key) => x == Some(key.x) && y == Some(key.y) && key.wf(engine),
                Err(e) => e == SheError::RandomnessFailure && (x is None || y is None),
            },
    {
        match (x, y) {
            (Some(a), Some(b)) => Ok(SecretKey { x: a, y: b }),
            _ => Err(SheError::RandomnessFailure),
        }
    }

    /// The bytes of the key: those of `x`, then those of `y`.
    pub open spec fn spec_bytes<E: ScalarField>(&self, engine: &E) -> Seq<u8> {
        engine.scalar_encoding(engine.scalar(&self.x)) + engine.scalar_encoding(
            engine.scalar(&self.y),
        )
    }

    /// What parsing `bytes` owes: the key with these bytes, or the error
    /// where no key has them.
    pub open spec fn parsed<E: ScalarField>(
        engine: &E,
        outcome: Result<SecretKey, SheError>,
        bytes: Seq<u8>,
    ) -> bool {
        match outcome {
            Ok(k) => k.wf(engine) && k.spec_bytes(engine) == bytes,
            Err(e) => e == SheError::MalformedKey && forall|k: SecretKey|
                k.wf(engine) ==> #[trigger] k.spec_bytes(engine) != bytes,
        }
    }

    /// The bytes of a key fall into the encodings of its scalars.
    pub proof fn lemma_bytes_split<E: ScalarField>(&self, engine: &E)
        requires
            self.wf(engine),
        ensures
            self.spec_bytes(engine).len() == 2 * engine.scalar_width(),
            self.spec_bytes(engine).subrange(0, engine.scalar_width() as int)
                == engine.scalar_encoding(engine.scalar(&self.x)),
            self.spec_bytes(engine).subrange(
                engine.scalar_width() as int,
                2 * (engine.scalar_width() as int),
            ) == engine.scalar_encoding(engine.scalar(&self.y)),
            0 <= engine.scalar(&self.x) < engine.order(),
            0 <= engine.scalar(&self.y) < engine.order(),
    {
        let w = engine.scalar_width() as int;
        engine.lemma_scalar_range(&self.x);
        engine.lemma_scalar_range(&self.y);
        engine.lemma_scalar_encoding_width(engine.scalar(&self.x));
        engine.lemma_scalar_encoding_width(engine.scalar(&self.y));
        assert(self.spec_bytes(engine).subrange(0, w) =~= engine.scalar_encoding(
            engine.scalar(&self.x),
        ));
        assert(self.spec_bytes(engine).subrange(w, 2 * w) =~= engine.scalar_encoding(
            engine.scalar(&self.y),
        ));
    }

    /// The bytes of the key: those of `x`, then those of `y`.
    pub fn serialize<E: ScalarField>(&self, engine: &E) -> (bytes: Vec<u8>)
        requires
            self.wf(engine),
        ensures
            bytes@ == self.spec_bytes(engine),
            bytes@.len() == 2 * engine.scalar_width(),
    {
        let mut bytes = engine.encode_scalar(&self.x);
        let mut tail = engine.encode_scalar(&self.y);
        bytes.append(&mut tail);
        bytes
    }

    /// The key that `bytes` spell, if they spell one.
    pub fn deserialize<E: ScalarField>(engine: &E, bytes: &[u8]) -> (r: Result<SecretKey, SheError>)
        ensures
            SecretKey::parsed(engine, r, bytes@),
    {
        let w = engine.scalar_byte_width();
        if bytes.len() < w || bytes.len() - w != w {
            proof {
                assert forall|k: SecretKey| k.wf(engine) implies #[trigger] k.spec_bytes(engine)
                    != bytes@ by {
                    k.lemma_bytes_split(engine);
                }
            }
            return Err(SheError::MalformedKey);
        }
        let head = engine.decode_scalar(slice_subrange(bytes, 0, w));
        let tail = engine.decode_scalar(slice_subrange(bytes, w, bytes.len()));
        match (head, tail) {
            (Some(x), Some(y)) => {
                let key = SecretKey { x, y };
                assert(key.spec_bytes(engine) =~= bytes@);
                Ok(key)
            },
            _ => {
                proof {
                    assert forall|k: SecretKey| k.wf(engine) implies #[trigger] k.spec_bytes(engine)
                        != bytes@ by {
                        k.lemma_bytes_split(engine);
                    }
                }
                Err(SheError::MalformedKey)
            },
        }
    }

    /// Parsing the bytes of a key gives that key back.
    pub proof fn lemma_round_trip<E: ScalarField>(
        &self,
        engine: &E,
        outcome: Result<SecretKey, SheError>,
    )
        requires
            self.wf(engine),
            SecretKey::parsed(engine, outcome, self.spec_bytes(engine)),
        ensures
            outcome matches Ok(k) && engine.scalar(&k.x) == engine.scalar(&self.x) && engine.scalar(
                &k.y,
            ) == engine.scalar(&self.y),
    {
        match outcome {
            Ok(k) => {
                k.lemma_bytes_split(engine);
                self.lemma_bytes_split(engine);
                engine.lemma_scalar_encoding_injective(
                    engine.scalar(&k.x),
                    engine.scalar(&self.x),
                );
                engine.lemma_scalar_encoding_injective(
                    engine.scalar(&k.y),
                    engine.scalar(&self.y),
                );
            },
            Err(_) => {
                assert(self.spec_bytes(engine) == self.spec_bytes(engine));
            },
        }
    }

    /// The public key of this secret key.
    pub fn public_key<E: GroupOps<G1> + GroupOps<G2>>(&self, engine: &E) -> (public: PublicKey)
        requires
            self.wf(engine),
        ensures
            public.wf(engine),
            public.matches_secret(engine, self),
    {
        let p: G1 = engine.base();
        let q: G2 = engine.base();
        proof {
            engine.lemma_scalar_range(&self.x);
            engine.lemma_scalar_range(&self.y);
            lemma_small_mod(engine.scalar(&self.x) as nat, engine.order() as nat);
            lemma_small_mod(engine.scalar(&self.y) as nat, engine.order() as nat);
        }
        PublicKey { xP: engine.mul(&p, &self.x), yQ: engine.mul(&q, &self.y) }
    }
}

impl PublicKey {
    /// Whether both halves hold elements of their groups.
    pub open spec fn wf<E: GroupOps<G1> + GroupOps<G2>>(&self, engine: &E) -> bool {
        engine.valid(&self.xP) && engine.valid(&self.yQ)
    }

    /// Whether both halves hold elements of their groups.
    pub fn is_wf<E: GroupOps<G1> + GroupOps<G2>>(&self, engine: &E) -> (r: bool)
        ensures
            r == self.wf(engine),
    {
        engine.is_element(&self.xP) && engine.is_element(&self.yQ)
    }

    /// Whether this is the public key of `secret`.
    pub open spec fn matches_secret<E: GroupOps<G1> + GroupOps<G2>>(
        &self,
        engine: &E,
        secret: &SecretKey,
    ) -> bool {
        engine.log(&self.xP) == engine.scalar(&secret.x) && engine.log(&self.yQ) == engine.scalar(
            &secret.y,
        )
    }

    /// The bytes of the key: those of `xP`, then those of `yQ`.
    pub open spec fn spec_bytes<E: GroupOps<G1> + GroupOps<G2>>(&self, engine: &E) -> Seq<u8> {
        GroupOps::<G1>::encoding(engine, engine.log(&self.xP)) + GroupOps::<G2>::encoding(
            engine,
            engine.log(&self.yQ),
        )
    }

    /// What parsing `bytes` owes: the key with these bytes, or the error
    /// where no key has them.
    pub open spec fn parsed<E: GroupOps<G1> + GroupOps<G2>>(
        engine: &E,
        outcome: Result<PublicKey, SheError>,
        bytes: Seq<u8>,
    ) -> bool {
        match outcome {
            Ok(k) => k.wf(engine) && k.spec_bytes(engine) == bytes,
            Err(e) => e == SheError::MalformedKey && forall|k: PublicKey|
                k.wf(engine) ==> #[trigger] k.spec_bytes(engine) != bytes,
        }
    }

    /// The bytes of a key fall into the encodings of its halves.
    pub proof fn lemma_bytes_split<E: GroupOps<G1> + GroupOps<G2>>(&self, engine: &E)
        requires
            self.wf(engine),
        ensures
            self.spec_bytes(engine).len() == GroupOps::<G1>::width(engine) + GroupOps::<G2>::width(
                engine,
            ),
            self.spec_bytes(engine).subrange(0, GroupOps::<G1>::width(engine) as int)
                == GroupOps::<G1>::encoding(engine, engine.log(&self.xP)),
            self.spec_bytes(engine).subrange(
                GroupOps::<G1>::width(engine) as int,
                (GroupOps::<G1>::width(engine) + GroupOps::<G2>::width(engine)) as int,
            ) == GroupOps::<G2>::encoding(engine, engine.log(&self.yQ)),
            0 <= engine.log(&self.xP) < engine.order(),
            0 <= engine.log(&self.yQ) < engine.order(),
    {
        let w1 = GroupOps::<G1>::width(engine) as int;
        let w2 = GroupOps::<G2>::width(engine) as int;
        engine.lemma_log_range(&self.xP);
        engine.lemma_log_range(&self.yQ);
        GroupOps::<G1>::lemma_encoding_width(engine, engine.log(&self.xP));
        GroupOps::<G2>::lemma_encoding_width(engine, engine.log(&self.yQ));
        assert(self.spec_bytes(engine).subrange(0, w1) =~= GroupOps::<G1>::encoding(
            engine,
            engine.log(&self.xP),
        ));
        assert(self.spec_bytes(engine).subrange(w1, w1 + w2) =~= GroupOps::<G2>::encoding(
            engine,
            engine.log(&self.yQ),
        ));
    }

    /// The bytes of the key: those of `xP`, then those of `yQ`.
    pub fn serialize<E: GroupOps<G1> + GroupOps<G2>>(&self, engine: &E) -> (bytes: Vec<u8>)
        requires
            self.wf(engine),
        ensures
            bytes@ == self.spec_bytes(engine),
            bytes@.len() == GroupOps::<G1>::width(engine) + GroupOps::<G2>::width(engine),
    {
        let mut bytes = engine.encode(&self.xP);
        let mut tail = engine.encode(&self.yQ);
        bytes.append(&mut tail);
        bytes
    }

    /// The key that `bytes` spell, if they spell one.
    pub fn deserialize<E: GroupOps<G1> + GroupOps<G2>>(engine: &E, bytes: &[u8]) -> (r: Result<
        PublicKey,
        SheError,
    >)
        ensures
            PublicKey::parsed(engine, r, bytes@),
    {
        let w1 = GroupOps::<G1>::byte_width(engine);
        let w2 = GroupOps::<G2>::byte_width(engine);
        if bytes.len() < w1 || bytes.len() - w1 != w2 {
            proof {
                assert forall|k: PublicKey| k.wf(engine) implies #[trigger] k.spec_bytes(engine)
                    != bytes@ by {
                    k.lemma_bytes_split(engine);
                }
            }
            return Err(SheError::MalformedKey);
        }
        let head: Option<G1> = engine.decode(slice_subrange(bytes, 0, w1));
        let tail: Option<G2> = engine.decode(slice_subrange(bytes, w1, bytes.len()));
        match (head, tail) {
            (Some(p), Some(q)) => {
                let key = PublicKey { xP: p, yQ: q };
                assert(key.spec_bytes(engine) =~= bytes@);
                Ok(key)
            },
            _ => {
                proof {
                    assert forall|k: PublicKey| k.wf(engine) implies #[trigger] k.spec_bytes(engine)
                        != bytes@ by {
                        k.lemma_bytes_split(engine);
                    }
                }
                Err(SheError::MalformedKey)
            },
        }
    }

    /// Parsing the bytes of a key gives that key back.
    pub proof fn lemma_round_trip<E: GroupOps<G1> + GroupOps<G2>>(
        &self,
        engine: &E,
        outcome: Result<PublicKey, SheError>,
    )
        requires
            self.wf(engine),
            PublicKey::parsed(engine, outcome, self.spec_bytes(engine)),
        ensures
            outcome matches Ok(k) && engine.log(&k.xP) == engine.log(&self.xP) && engine.log(&k.yQ)
                == engine.log(&self.yQ),
    {
        match outcome {
            Ok(k) => {
                k.lemma_bytes_split(engine);
                self.lemma_bytes_split(engine);
                GroupOps::<G1>::lemma_encoding_injective(
                    engine,
                    engine.log(&k.xP),
                    engine.log(&self.xP),
                );
                GroupOps::<G2>::lemma_encoding_injective(
                    engine,
                    engine.log(&k.yQ),
                    engine.log(&self.yQ),
                );
            },
            Err(_) => {
                assert(self.spec_bytes(engine) == self.spec_bytes(engine));
            },
        }
    }
}

} // verus!
