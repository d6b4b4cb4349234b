use vstd::prelude::*;
use vstd::arithmetic::div_mod::{lemma_add_mod_noop, lemma_mod_twice, lemma_small_mod};
use vstd::slice::slice_subrange;
use crate::dlog::{in_range, lemma_add_negated, recovered, within, DlogTable};
use crate::engine::GroupOps;
use crate::keys::{PublicKey, SecretKey};
use crate::plain::{
    lemma_difference_opens,
    lemma_fresh_opens,
    lemma_multiple_opens,
    lemma_negation_opens,
    lemma_sum_opens,
    opened,
};
use crate::types::{Fr, G2, SheError};

verus! {

/// A ciphertext of the second group: the blinding `S` and the blinded
/// message `T`.
#[allow(non_snake_case)]
#[derive(Clone, Copy, Debug, Default)]
pub struct CipherTextG2 {
    pub S: G2,
    pub T: G2,
}

impl CipherTextG2 {
    /// Whether both halves hold elements of the group.
    pub open spec fn wf<E: GroupOps<G2>>(&self, engine: &E) -> bool {
        engine.valid(&self.S) && engine.valid(&self.T)
    }

    /// Whether both halves hold elements of the group.
    pub fn is_wf<E: GroupOps<G2>>(&self, engine: &E) -> (r: bool)
        ensures
            r == self.wf(engine),
    {
        engine.is_element(&self.S) && engine.is_element(&self.T)
    }

    /// The residue that the ciphertext holds under `secret`.
    pub open spec fn plain<E: GroupOps<G2>>(&self, engine: &E, secret: &SecretKey) -> int {
        opened(
            engine.log(&self.T),
            engine.log(&self.S),
            engine.scalar(&secret.y),
            engine.order(),
        )
    }

    /// The bytes of the ciphertext: those of `S`, then those of `T`.
    pub open spec fn spec_bytes<E: GroupOps<G2>>(&self, engine: &E) -> Seq<u8> {
        engine.encoding(engine.log(&self.S)) + engine.encoding(engine.log(&self.T))
    }

    /// Whether the ciphertext is the encryption of `m` to the public half
    /// with logarithm `x`, blinded by `k`.
    pub open spec fn fresh<E: GroupOps<G2>>(&self, engine: &E, m: int, k: int, x: int) -> bool {
        &&& engine.log(&self.S) == k
        &&& engine.log(&self.T) == (m + k * x) % engine.order()
    }

    /// What parsing `bytes` owes: the ciphertext with these bytes, or the
    /// error where no ciphertext has them.
    pub open spec fn parsed<E: GroupOps<G2>>(
        engine: &E,
        outcome: Result<CipherTextG2, SheError>,
        bytes: Seq<u8>,
    ) -> bool {
        match outcome {
            Ok(c) => c.wf(engine) && c.spec_bytes(engine) == bytes,
            Err(e) => e == SheError::MalformedCiphertext && forall|c: CipherTextG2|
                c.wf(engine) ==> #[trigger] c.spec_bytes(engine) != bytes,
        }
    }

    /// Encrypts `m` to `public` with the blinding scalar drawn by the caller,
    /// `None` where the entropy source gave nothing. A message outside
    /// `[-bound, bound]` is refused before the blinding is looked at.
    pub fn encrypt<E: GroupOps<G2>>(
        engine: &E,
        public: &PublicKey,
        m: i64,
        bound: u64,
        blinding: Option<Fr>,
    ) -> (r: Result<CipherTextG2, SheError>)
        requires
            engine.valid(&public.yQ),
            blinding matches Some(k) ==> engine.scalar_valid(&k),
        ensures
            match r {
                Ok(c) => {
                    &&& in_range(m as int, bound as int)
                    &&& blinding is Some
                    &&& c.wf(engine)
                    &&& c.fresh(
                        engine,
                        m as int,
                        engine.scalar(&blinding->0),
                        engine.log(&public.yQ),
                    )
                    &&& forall|secret: SecretKey|
                        engine.log(&public.yQ) == engine.scalar(&secret.y) ==> #[trigger] c.plain(
                            engine,
                            &secret,
                        ) == (m as int) % engine.order()
                },
                Err(e) => if !in_range(m as int, bound as int) {
                    e == SheError::PlaintextRangeError
                } else {
                    e == SheError::RandomnessFailure && blinding is None
                },
            },
    {
        if !within(m, bound) {
            return Err(SheError::PlaintextRangeError);
        }
        match blinding {
            None => Err(SheError::RandomnessFailure),
            Some(k) => {
                let base: G2 = engine.base();
                let s = engine.mul(&base, &k);
                let message = engine.scalar_from_i64(m);
                let clear = engine.mul(&base, &message);
                let mask = engine.mul(&public.yQ, &k);
                let t = engine.add(&clear, &mask);
                let c = CipherTextG2 { S: s, T: t };
                proof {
                    let q = engine.order();
                    let kv = engine.scalar(&k);
                    let x = engine.log(&public.yQ);
                    engine.lemma_order();
                    engine.lemma_scalar_range(&k);
                    lemma_small_mod(kv as nat, q as nat);
                    lemma_mod_twice(m as int, q);
                    lemma_add_mod_noop(m as int, kv * x, q);
                    assert forall|secret: SecretKey|
                        engine.log(&public.yQ) == engine.scalar(&secret.y) implies #[trigger] c.plain(
                        engine,
                        &secret,
                    ) == (m as int) % q by {
                        lemma_fresh_opens(m as int, kv, x, q);
                    }
                }
                Ok(c)
            },
        }
    }

    /// Decrypts with the secret scalar `y`: removes the blinding, then
    /// searches the plaintext in `table`.
    pub fn decrypt<E: GroupOps<G2>>(
        &self,
        engine: &E,
        secret: &SecretKey,
        table: &DlogTable<G2>,
    ) -> (r: Result<i64, SheError>)
        requires
            self.wf(engine),
            engine.scalar_valid(&secret.y),
            table.wf(engine),
        ensures
            recovered(r, self.plain(engine, secret), table.spec_bound(), engine.order()),
    {
        let blind = engine.mul(&self.S, &secret.y);
        let unblind = engine.neg(&blind);
        let v = engine.add(&self.T, &unblind);
        proof {
            engine.lemma_order();
            lemma_add_negated(
                engine.log(&self.T),
                engine.scalar(&secret.y) * engine.log(&self.S),
                engine.order(),
            );
        }
        table.recover(engine, &v)
    }

    /// The sum of two ciphertexts, which holds the sum of what they hold.
    pub fn add<E: GroupOps<G2>>(&self, engine: &E, other: &CipherTextG2) -> (c: CipherTextG2)
        requires
            self.wf(engine),
            other.wf(engine),
        ensures
            c.wf(engine),
            engine.log(&c.S) == (engine.log(&self.S) + engine.log(&other.S)) % engine.order(),
            engine.log(&c.T) == (engine.log(&self.T) + engine.log(&other.T)) % engine.order(),
            forall|secret: SecretKey| #[trigger]
                c.plain(engine, &secret) == (self.plain(engine, &secret) + other.plain(
                    engine,
                    &secret,
                )) % engine.order(),
    {
        let c = CipherTextG2 { S: engine.add(&self.S, &other.S), T: engine.add(&self.T, &other.T) };
        proof {
            engine.lemma_order();
            assert forall|secret: SecretKey| #[trigger]
                c.plain(engine, &secret) == (self.plain(engine, &secret) + other.plain(
                    engine,
                    &secret,
                )) % engine.order() by {
                lemma_sum_opens(
                    engine.log(&self.T),
                    engine.log(&self.S),
                    engine.log(&other.T),
                    engine.log(&other.S),
                    engine.scalar(&secret.y),
                    engine.order(),
                );
            }
        }
        c
    }

    /// The negation of a ciphertext, which holds the negation of what it holds.
    pub fn neg<E: GroupOps<G2>>(&self, engine: &E) -> (c: CipherTextG2)
        requires
            self.wf(engine),
        ensures
            c.wf(engine),
            engine.log(&c.S) == (-engine.log(&self.S)) % engine.order(),
            engine.log(&c.T) == (-engine.log(&self.T)) % engine.order(),
            forall|secret: SecretKey| #[trigger]
                c.plain(engine, &secret) == (-self.plain(engine, &secret)) % engine.order(),
    {
        let c = CipherTextG2 { S: engine.neg(&self.S), T: engine.neg(&self.T) };
        proof {
            engine.lemma_order();
            assert forall|secret: SecretKey| #[trigger]
                c.plain(engine, &secret) == (-self.plain(engine, &secret)) % engine.order() by {
                lemma_negation_opens(
                    engine.log(&self.T),
                    engine.log(&self.S),
                    engine.scalar(&secret.y),
                    engine.order(),
                );
            }
        }
        c
    }

    /// The difference of two ciphertexts: the sum of the first and the
    /// negation of the second. It holds the difference of what they hold.
    pub fn sub<E: GroupOps<G2>>(&self, engine: &E, other: &CipherTextG2) -> (c: CipherTextG2)
        requires
            self.wf(engine),
            other.wf(engine),
        ensures
            c.wf(engine),
            engine.log(&c.S) == (engine.log(&self.S) + (-engine.log(&other.S)) % engine.order())
                % engine.order(),
            engine.log(&c.T) == (engine.log(&self.T) + (-engine.log(&other.T)) % engine.order())
                % engine.order(),
            forall|secret: SecretKey| #[trigger]
                c.plain(engine, &secret) == (self.plain(engine, &secret) - other.plain(
                    engine,
                    &secret,
                )) % engine.order(),
    {
        let back = other.neg(engine);
        let c = self.add(engine, &back);
        proof {
            engine.lemma_order();
            assert forall|secret: SecretKey| #[trigger]
                c.plain(engine, &secret) == (self.plain(engine, &secret) - other.plain(
                    engine,
                    &secret,
                )) % engine.order() by {
                lemma_difference_opens(
                    engine.log(&self.T),
                    engine.log(&self.S),
                    engine.log(&other.T),
                    engine.log(&other.S),
                    engine.scalar(&secret.y),
                    engine.order(),
                );
            }
        }
        c
    }

    /// The multiple of a ciphertext by the integer `k`, which holds `k` times
    /// what it holds.
    pub fn scalar_mul<E: GroupOps<G2>>(&self, engine: &E, k: i64) -> (c: CipherTextG2)
        requires
            self.wf(engine),
        ensures
            c.wf(engine),
            engine.log(&c.S) == (((k as int) % engine.order()) * engine.log(&self.S))
                % engine.order(),
            engine.log(&c.T) == (((k as int) % engine.order()) * engine.log(&self.T))
                % engine.order(),
            forall|secret: SecretKey| #[trigger]
                c.plain(engine, &secret) == ((k as int) * self.plain(engine, &secret))
                    % engine.order(),
    {
        let factor = engine.scalar_from_i64(k);
        let c = CipherTextG2 { S: engine.mul(&self.S, &factor), T: engine.mul(&self.T, &factor) };
        proof {
            engine.lemma_order();
            assert forall|secret: SecretKey| #[trigger]
                c.plain(engine, &secret) == ((k as int) * self.plain(engine, &secret))
                    % engine.order() by {
                lemma_multiple_opens(
                    engine.log(&self.T),
                    engine.log(&self.S),
                    k as int,
                    engine.scalar(&secret.y),
                    engine.order(),
                );
            }
        }
        c
    }

    /// The bytes of the ciphertext: those of `S`, then those of `T`.
    pub fn serialize<E: GroupOps<G2>>(&self, engine: &E) -> (bytes: Vec<u8>)
        requires
            self.wf(engine),
        ensures
            bytes@ == self.spec_bytes(engine),
            bytes@.len() == 2 * engine.width(),
    {
        let mut bytes = engine.encode(&self.S);
        let mut tail = engine.encode(&self.T);
        bytes.append(&mut tail);
        bytes
    }

    /// The ciphertext that `bytes` spell, if they spell one.
    pub fn deserialize<E: GroupOps<G2>>(engine: &E, bytes: &[u8]) -> (r: Result<
        CipherTextG2,
        SheError,
    >)
        ensures
            CipherTextG2::parsed(engine, r, bytes@),
    {
        let w = engine.byte_width();
        proof {
            assert forall|c: CipherTextG2| c.wf(engine) implies (#[trigger] c.spec_bytes(
                engine,
            )).len() == 2 * w && c.spec_bytes(engine).subrange(0, w as int) == engine.encoding(
                engine.log(&c.S),
            ) && c.spec_bytes(engine).subrange(w as int, 2 * w) == engine.encoding(
                engine.log(&c.T),
            ) by {
                engine.lemma_log_range(&c.S);
                engine.lemma_log_range(&c.T);
                engine.lemma_encoding_width(engine.log(&c.S));
                engine.lemma_encoding_width(engine.log(&c.T));
                assert(c.spec_bytes(engine).subrange(0, w as int) =~= engine.encoding(
                    engine.log(&c.S),
                ));
                assert(c.spec_bytes(engine).subrange(w as int, 2 * w) =~= engine.encoding(
                    engine.log(&c.T),
                ));
            }
        }
        if bytes.len() < w || bytes.len() - w != w {
            return Err(SheError::MalformedCiphertext);
        }
        let head = slice_subrange(bytes, 0, w);
        let tail = slice_subrange(bytes, w, bytes.len());
        match engine.decode(head) {
            None => {
                proof {
                    assert forall|c: CipherTextG2| c.wf(engine) implies #[trigger] c.spec_bytes(
                        engine,
                    ) != bytes@ by {
                        engine.lemma_log_range(&c.S);
                    }
                }
                Err(SheError::MalformedCiphertext)
            },
            Some(s) => match engine.decode(tail) {
                None => {
                    proof {
                        assert forall|c: CipherTextG2| c.wf(engine) implies #[trigger] c.spec_bytes(
                            engine,
                        ) != bytes@ by {
                            engine.lemma_log_range(&c.T);
                        }
                    }
                    Err(SheError::MalformedCiphertext)
                },
                Some(t) => {
                    assert(bytes@ =~= head@ + tail@);
                    Ok(CipherTextG2 { S: s, T: t })
                },
            },
        }
    }

    /// Parsing the bytes of a ciphertext gives that ciphertext back.
    pub proof fn lemma_round_trip<E: GroupOps<G2>>(
        &self,
        engine: &E,
        outcome: Result<CipherTextG2, SheError>,
    )
        requires
            self.wf(engine),
            CipherTextG2::parsed(engine, outcome, self.spec_bytes(engine)),
        ensures
            outcome matches Ok(c) && engine.log(&c.S) == engine.log(&self.S) && engine.log(&c.T)
                == engine.log(&self.T),
    {
        match outcome {
            Ok(c) => {
                let w = engine.width() as int;
                engine.lemma_log_range(&c.S);
                engine.lemma_log_range(&c.T);
                engine.lemma_log_range(&self.S);
                engine.lemma_log_range(&self.T);
                engine.lemma_encoding_width(engine.log(&c.S));
                engine.lemma_encoding_width(engine.log(&c.T));
                engine.lemma_encoding_width(engine.log(&self.S));
                engine.lemma_encoding_width(engine.log(&self.T));
                assert(c.spec_bytes(engine).subrange(0, w) =~= engine.encoding(engine.log(&c.S)));
                assert(c.spec_bytes(engine).subrange(w, 2 * w) =~= engine.encoding(
                    engine.log(&c.T),
                ));
                assert(self.spec_bytes(engine).subrange(0, w) =~= engine.encoding(
                    engine.log(&self.S),
                ));
                assert(self.spec_bytes(engine).subrange(w, 2 * w) =~= engine.encoding(
                    engine.log(&self.T),
                ));
                engine.lemma_encoding_injective(engine.log(&c.S), engine.log(&self.S));
                engine.lemma_encoding_injective(engine.log(&c.T), engine.log(&self.T));
            },
            Err(_) => {
                assert(self.spec_bytes(engine) == self.spec_bytes(engine));
            },
        }
    }

    /// Bytes other than those of a ciphertext never parse to that ciphertext.
    pub proof fn lemma_other_bytes_differ<E: GroupOps<G2>>(
        &self,
        engine: &E,
        bytes: Seq<u8>,
        outcome: Result<CipherTextG2, SheError>,
    )
        requires
            self.wf(engine),
            bytes != self.spec_bytes(engine),
            CipherTextG2::parsed(engine, outcome, bytes),
        ensures
            outcome matches Ok(c) ==> engine.log(&c.S) != engine.log(&self.S) || engine.log(&c.T)
                != engine.log(&self.T),
    {
    }
}

} // verus!
