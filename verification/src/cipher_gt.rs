use vstd::prelude::*;
use vstd::arithmetic::div_mod::{lemma_mul_mod_noop_right, lemma_small_mod};
use vstd::slice::slice_subrange;
use crate::cipher_g1::CipherTextG1;
use crate::cipher_g2::CipherTextG2;
use crate::dlog::{in_range, recovered, within, DlogTable};
use crate::engine::{GroupOps, PairingEngine};
use crate::keys::{PublicKey, SecretKey};
use crate::plain::{
    lemma_difference_lifts,
    lemma_multiple_lifts,
    lemma_negation_lifts,
    lemma_product_lifts,
    lemma_sum_lifts,
    lemma_unblinded,
    lifted,
};
use crate::types::{Fr, SheError, G1, G2, GT};

verus! {

/// A ciphertext of the target group: the pairings of the blindings, of each
/// blinding with the other blinded message, and of the blinded messages.
#[derive(Clone, Copy, Debug, Default)]
pub struct CipherTextGT {
    pub g: [GT; 4],
}

impl CipherTextGT {
    /// Whether all four components hold elements of the group.
    pub open spec fn wf<E: GroupOps<GT>>(&self, engine: &E) -> bool {
        forall|i: int| 0 <= i < 4 ==> engine.valid(&#[trigger] self.g[i])
    }

    /// Whether all four components hold elements of the group.
    pub fn is_wf<E: GroupOps<GT>>(&self, engine: &E) -> (r: bool)
        ensures
            r == self.wf(engine),
    {
        engine.is_element(&self.g[0]) && engine.is_element(&self.g[1]) && engine.is_element(
            &self.g[2],
        ) && engine.is_element(&self.g[3])
    }

    /// The logarithm of component `i`.
    pub open spec fn part<E: GroupOps<GT>>(&self, engine: &E, i: int) -> int {
        engine.log(&self.g[i])
    }

    /// The residue that the ciphertext holds under `secret`.
    pub open spec fn plain<E: GroupOps<GT>>(&self, engine: &E, secret: &SecretKey) -> int {
        lifted(
            self.part(engine, 0),
            self.part(engine, 1),
            self.part(engine, 2),
            self.part(engine, 3),
            engine.scalar(&secret.x),
            engine.scalar(&secret.y),
            engine.order(),
        )
    }

    /// The bytes of the ciphertext: those of its components in order.
    pub open spec fn spec_bytes<E: GroupOps<GT>>(&self, engine: &E) -> Seq<u8> {
        engine.encoding(self.part(engine, 0)) + engine.encoding(self.part(engine, 1))
            + engine.encoding(self.part(engine, 2)) + engine.encoding(self.part(engine, 3))
    }

    /// Whether the components are the four pairings of the pairs with
    /// logarithms `(s1, t1)` and `(s2, t2)`.
    pub open spec fn paired<E: GroupOps<GT>>(
        &self,
        engine: &E,
        s1: int,
        t1: int,
        s2: int,
        t2: int,
    ) -> bool {
        &&& self.part(engine, 0) == (s1 * s2) % engine.order()
        &&& self.part(engine, 1) == (s1 * t2) % engine.order()
        &&& self.part(engine, 2) == (t1 * s2) % engine.order()
        &&& self.part(engine, 3) == (t1 * t2) % engine.order()
    }

    /// What parsing `bytes` owes: the ciphertext with these bytes, or the
    /// error where no ciphertext has them.
    pub open spec fn parsed<E: GroupOps<GT>>(
        engine: &E,
        outcome: Result<CipherTextGT, SheError>,
        bytes: Seq<u8>,
    ) -> bool {
        match outcome {
            Ok(c) => c.wf(engine) && c.spec_bytes(engine) == bytes,
            Err(e) => e == SheError::MalformedCiphertext && forall|c: CipherTextGT|
                c.wf(engine) ==> #[trigger] c.spec_bytes(engine) != bytes,
        }
    }

    /// The product of a ciphertext of the first group and one of the second:
    /// the four pairings of their halves. It holds the product of what they
    /// hold.
    pub fn pairing_mul<E: PairingEngine>(engine: &E, x: &CipherTextG1, y: &CipherTextG2) -> (c:
        CipherTextGT)
        requires
            x.wf(engine),
            y.wf(engine),
        ensures
            c.wf(engine),
            c.paired(
                engine,
                engine.log(&x.S),
                engine.log(&x.T),
                engine.log(&y.S),
                engine.log(&y.T),
            ),
            forall|secret: SecretKey| #[trigger]
                c.plain(engine, &secret) == (x.plain(engine, &secret) * y.plain(engine, &secret))
                    % engine.order(),
    {
        let c = CipherTextGT {
            g: [
                engine.pairing(&x.S, &y.S),
                engine.pairing(&x.S, &y.T),
                engine.pairing(&x.T, &y.S),
                engine.pairing(&x.T, &y.T),
            ],
        };
        proof {
            engine.lemma_order();
            assert forall|secret: SecretKey| #[trigger]
                c.plain(engine, &secret) == (x.plain(engine, &secret) * y.plain(engine, &secret))
                    % engine.order() by {
                lemma_product_lifts(
                    engine.log(&x.S),
                    engine.log(&x.T),
                    engine.log(&y.S),
                    engine.log(&y.T),
                    engine.scalar(&secret.x),
                    engine.scalar(&secret.y),
                    engine.order(),
                );
            }
        }
        c
    }

    /// Encrypts `m` to `public` in the target group: the product of an
    /// encryption of `m` in the first group and one of 1 in the second, each
    /// with a blinding scalar drawn by the caller, `None` where the entropy
    /// source gave nothing. A message outside `[-bound, bound]` is refused
    /// before the blinding is looked at.
    pub fn encrypt<E: PairingEngine>(
        engine: &E,
        public: &PublicKey,
        m: i64,
        bound: u64,
        blinding: Option<(Fr, Fr)>,
    ) -> (r: Result<CipherTextGT, SheError>)
        requires
            public.wf(engine),
            blinding matches Some(k) ==> engine.scalar_valid(&k.0) && engine.scalar_valid(&k.1),
        ensures
            match r {
                Ok(c) => match blinding {
                    Some(k) => {
                        &&& in_range(m as int, bound as int)
                        &&& c.wf(engine)
                        &&& c.paired(
                            engine,
                            engine.scalar(&k.0),
                            (m + engine.scalar(&k.0) * engine.log(&public.xP)) % engine.order(),
                            engine.scalar(&k.1),
                            (1 + engine.scalar(&k.1) * engine.log(&public.yQ)) % engine.order(),
                        )
                        &&& forall|secret: SecretKey|
                            public.matches_secret(engine, &secret) ==> #[trigger] c.plain(
                                engine,
                                &secret,
                            ) == (m as int) % engine.order()
                    },
                    None => false,
                },
                Err(e) => if !in_range(m as int, bound as int) {
                    e == SheError::PlaintextRangeError
                } else {
                    e == SheError::RandomnessFailure && blinding is None
                },
            },
    {
        if !within(m, bound) {
            return Err(SheError::PlaintextRangeError);
        }
        match blinding {
            None => Err(SheError::RandomnessFailure),
            Some(k) => {
                let first = CipherTextG1::encrypt(engine, public, m, bound, Some(k.0));
                let second = CipherTextG2::encrypt(engine, public, 1, 1, Some(k.1));
                match (first, second) {
                    (Ok(a), Ok(b)) => {
                        let c = CipherTextGT::pairing_mul(engine, &a, &b);
                        proof {
                            let q = engine.order();
                            engine.lemma_order();
                            lemma_small_mod(1, q as nat);
                            assert forall|secret: SecretKey|
                                public.matches_secret(engine, &secret) implies #[trigger] c.plain(
                                engine,
                                &secret,
                            ) == (m as int) % q by {
                                assert(a.plain(engine, &secret) == (m as int) % q);
                                assert(b.plain(engine, &secret) == 1);
                                lemma_small_mod(((m as int) % q) as nat, q as nat);
                            }
                        }
                        Ok(c)
                    },
                    _ => {
                        proof {
                            assert(false);
                        }
                        Err(SheError::RandomnessFailure)
                    },
                }
            },
        }
    }

    /// Decrypts with both secret scalars: removes the blinding, then searches
    /// the plaintext in `table`.
    pub fn decrypt<E: GroupOps<GT>>(
        &self,
        engine: &E,
        secret: &SecretKey,
        table: &DlogTable<GT>,
    ) -> (r: Result<i64, SheError>)
        requires
            self.wf(engine),
            secret.wf(engine),
            table.wf(engine),
        ensures
            recovered(r, self.plain(engine, secret), table.spec_bound(), engine.order()),
    {
        let by_x = engine.mul(&self.g[1], &secret.x);
        let by_y = engine.mul(&self.g[2], &secret.y);
        let by_xy = engine.mul(&engine.mul(&self.g[0], &secret.x), &secret.y);
        let v = engine.add(&self.g[3], &engine.neg(&by_x));
        let v = engine.add(&v, &engine.neg(&by_y));
        let v = engine.add(&v, &by_xy);
        proof {
            engine.lemma_order();
            lemma_unblinded(
                self.part(engine, 0),
                self.part(engine, 1),
                self.part(engine, 2),
                self.part(engine, 3),
                engine.scalar(&secret.x),
                engine.scalar(&secret.y),
                engine.order(),
            );
        }
        table.recover(engine, &v)
    }

    /// The sum of two ciphertexts, which holds the sum of what they hold.
    pub fn add<E: GroupOps<GT>>(&self, engine: &E, other: &CipherTextGT) -> (c: CipherTextGT)
        requires
            self.wf(engine),
            other.wf(engine),
        ensures
            c.wf(engine),
            forall|i: int|
                0 <= i < 4 ==> #[trigger] c.part(engine, i) == (self.part(engine, i) + other.part(
                    engine,
                    i,
                )) % engine.order(),
            forall|secret: SecretKey| #[trigger]
                c.plain(engine, &secret) == (self.plain(engine, &secret) + other.plain(
                    engine,
                    &secret,
                )) % engine.order(),
    {
        let c = CipherTextGT {
            g: [
                engine.add(&self.g[0], &other.g[0]),
                engine.add(&self.g[1], &other.g[1]),
                engine.add(&self.g[2], &other.g[2]),
                engine.add(&self.g[3], &other.g[3]),
            ],
        };
        proof {
            engine.lemma_order();
            assert forall|secret: SecretKey| #[trigger]
                c.plain(engine, &secret) == (self.plain(engine, &secret) + other.plain(
                    engine,
                    &secret,
                )) % engine.order() by {
                lemma_sum_lifts(
                    self.part(engine, 0),
                    self.part(engine, 1),
                    self.part(engine, 2),
                    self.part(engine, 3),
                    other.part(engine, 0),
                    other.part(engine, 1),
                    other.part(engine, 2),
                    other.part(engine, 3),
                    engine.scalar(&secret.x),
                    engine.scalar(&secret.y),
                    engine.order(),
                );
            }
        }
        c
    }

    /// The negation of a ciphertext, which holds the negation of what it holds.
    pub fn neg<E: GroupOps<GT>>(&self, engine: &E) -> (c: CipherTextGT)
        requires
            self.wf(engine),
        ensures
            c.wf(engine),
            forall|i: int|
                0 <= i < 4 ==> #[trigger] c.part(engine, i) == (-self.part(engine, i))
                    % engine.order(),
            forall|secret: SecretKey| #[trigger]
                c.plain(engine, &secret) == (-self.plain(engine, &secret)) % engine.order(),
    {
        let c = CipherTextGT {
            g: [
                engine.neg(&self.g[0]),
                engine.neg(&self.g[1]),
                engine.neg(&self.g[2]),
                engine.neg(&self.g[3]),
            ],
        };
        proof {
            engine.lemma_order();
            assert forall|secret: SecretKey| #[trigger]
                c.plain(engine, &secret) == (-self.plain(engine, &secret)) % engine.order() by {
                lemma_negation_lifts(
                    self.part(engine, 0),
                    self.part(engine, 1),
                    self.part(engine, 2),
                    self.part(engine, 3),
                    engine.scalar(&secret.x),
                    engine.scalar(&secret.y),
                    engine.order(),
                );
            }
        }
        c
    }

    /// The difference of two ciphertexts: the sum of the first and the
    /// negation of the second. It holds the difference of what they hold.
    pub fn sub<E: GroupOps<GT>>(&self, engine: &E, other: &CipherTextGT) -> (c: CipherTextGT)
        requires
            self.wf(engine),
            other.wf(engine),
        ensures
            c.wf(engine),
            forall|i: int|
                0 <= i < 4 ==> #[trigger] c.part(engine, i) == (self.part(engine, i) + (-other.part(
                    engine,
                    i,
                )) % engine.order()) % engine.order(),
            forall|secret: SecretKey| #[trigger]
                c.plain(engine, &secret) == (self.plain(engine, &secret) - other.plain(
                    engine,
                    &secret,
                )) % engine.order(),
    {
        let back = other.neg(engine);
        let c = self.add(engine, &back);
        proof {
            engine.lemma_order();
            assert forall|i: int| 0 <= i < 4 implies #[trigger] c.part(engine, i) == (self.part(
                engine,
                i,
            ) + (-other.part(engine, i)) % engine.order()) % engine.order() by {
                assert(back.part(engine, i) == (-other.part(engine, i)) % engine.order());
            }
            assert forall|secret: SecretKey| #[trigger]
                c.plain(engine, &secret) == (self.plain(engine, &secret) - other.plain(
                    engine,
                    &secret,
                )) % engine.order() by {
                assert(back.part(engine, 0) == (-other.part(engine, 0)) % engine.order());
                assert(back.part(engine, 1) == (-other.part(engine, 1)) % engine.order());
                assert(back.part(engine, 2) == (-other.part(engine, 2)) % engine.order());
                assert(back.part(engine, 3) == (-other.part(engine, 3)) % engine.order());
                lemma_difference_lifts(
                    self.part(engine, 0),
                    self.part(engine, 1),
                    self.part(engine, 2),
                    self.part(engine, 3),
                    other.part(engine, 0),
                    other.part(engine, 1),
                    other.part(engine, 2),
                    other.part(engine, 3),
                    engine.scalar(&secret.x),
                    engine.scalar(&secret.y),
                    engine.order(),
                );
            }
        }
        c
    }

    /// The multiple of a ciphertext by the integer `k`, which holds `k` times
    /// what it holds.
    pub fn scalar_mul<E: GroupOps<GT>>(&self, engine: &E, k: i64) -> (c: CipherTextGT)
        requires
            self.wf(engine),
        ensures
            c.wf(engine),
            forall|i: int|
                0 <= i < 4 ==> #[trigger] c.part(engine, i) == (((k as int) % engine.order())
                    * self.part(engine, i)) % engine.order(),
            forall|secret: SecretKey| #[trigger]
                c.plain(engine, &secret) == ((k as int) * self.plain(engine, &secret))
                    % engine.order(),
    {
        let factor = engine.scalar_from_i64(k);
        let c = CipherTextGT {
            g: [
                engine.mul(&self.g[0], &factor),
                engine.mul(&self.g[1], &factor),
                engine.mul(&self.g[2], &factor),
                engine.mul(&self.g[3], &factor),
            ],
        };
        proof {
            engine.lemma_order();
            assert forall|secret: SecretKey| #[trigger]
                c.plain(engine, &secret) == ((k as int) * self.plain(engine, &secret))
                    % engine.order() by {
                lemma_multiple_lifts(
                    self.part(engine, 0),
                    self.part(engine, 1),
                    self.part(engine, 2),
                    self.part(engine, 3),
                    k as int,
                    engine.scalar(&secret.x),
                    engine.scalar(&secret.y),
                    engine.order(),
                );
            }
        }
        c
    }

    /// The bytes of the ciphertext: those of its components in order.
    pub fn serialize<E: GroupOps<GT>>(&self, engine: &E) -> (bytes: Vec<u8>)
        requires
            self.wf(engine),
        ensures
            bytes@ == self.spec_bytes(engine),
            bytes@.len() == 4 * engine.width(),
    {
        let mut bytes = engine.encode(&self.g[0]);
        let mut second = engine.encode(&self.g[1]);
        let mut third = engine.encode(&self.g[2]);
        let mut fourth = engine.encode(&self.g[3]);
        bytes.append(&mut second);
        bytes.append(&mut third);
        bytes.append(&mut fourth);
        bytes
    }

    /// The bytes of a ciphertext fall into the encodings of its components.
    pub proof fn lemma_bytes_split<E: GroupOps<GT>>(&self, engine: &E)
        requires
            self.wf(engine),
        ensures
            self.spec_bytes(engine).len() == 4 * engine.width(),
            self.spec_bytes(engine).subrange(0, engine.width() as int) == engine.encoding(
                self.part(engine, 0),
            ),
            self.spec_bytes(engine).subrange(engine.width() as int, 2 * (engine.width() as int))
                == engine.encoding(self.part(engine, 1)),
            self.spec_bytes(engine).subrange(
                2 * (engine.width() as int),
                3 * (engine.width() as int),
            )
                == engine.encoding(self.part(engine, 2)),
            self.spec_bytes(engine).subrange(
                3 * (engine.width() as int),
                4 * (engine.width() as int),
            )
                == engine.encoding(self.part(engine, 3)),
            forall|i: int| 0 <= i < 4 ==> 0 <= #[trigger] self.part(engine, i) < engine.order(),
    {
        let w = engine.width() as int;
        assert forall|i: int| 0 <= i < 4 implies (#[trigger] engine.encoding(
            self.part(engine, i),
        )).len() == w && 0 <= self.part(engine, i) < engine.order() by {
            engine.lemma_log_range(&self.g[i]);
            engine.lemma_encoding_width(self.part(engine, i));
        }
        assert(engine.encoding(self.part(engine, 0)).len() == w);
        assert(engine.encoding(self.part(engine, 1)).len() == w);
        assert(engine.encoding(self.part(engine, 2)).len() == w);
        assert(engine.encoding(self.part(engine, 3)).len() == w);
        assert(self.spec_bytes(engine).subrange(0, w) =~= engine.encoding(self.part(engine, 0)));
        assert(self.spec_bytes(engine).subrange(w, 2 * w) =~= engine.encoding(
            self.part(engine, 1),
        ));
        assert(self.spec_bytes(engine).subrange(2 * w, 3 * w) =~= engine.encoding(
            self.part(engine, 2),
        ));
        assert(self.spec_bytes(engine).subrange(3 * w, 4 * w) =~= engine.encoding(
            self.part(engine, 3),
        ));
    }

    /// The ciphertext that `bytes` spell, if they spell one.
    pub fn deserialize<E: GroupOps<GT>>(engine: &E, bytes: &[u8]) -> (r: Result<
        CipherTextGT,
        SheError,
    >)
        ensures
            CipherTextGT::parsed(engine, r, bytes@),
    {
        let w = engine.byte_width();
        if bytes.len() % 4 != 0 || bytes.len() / 4 != w {
            proof {
                assert forall|c: CipherTextGT| c.wf(engine) implies #[trigger] c.spec_bytes(engine)
                    != bytes@ by {
                    c.lemma_bytes_split(engine);
                }
            }
            return Err(SheError::MalformedCiphertext);
        }
        let first = engine.decode(slice_subrange(bytes, 0, w));
        let second = engine.decode(slice_subrange(bytes, w, 2 * w));
        let third = engine.decode(slice_subrange(bytes, 2 * w, 3 * w));
        let fourth = engine.decode(slice_subrange(bytes, 3 * w, bytes.len()));
        match (first, second, third, fourth) {
            (Some(g0), Some(g1), Some(g2), Some(g3)) => {
                let c = CipherTextGT { g: [g0, g1, g2, g3] };
                assert(c.part(engine, 0) == engine.log(&g0));
                assert(c.part(engine, 1) == engine.log(&g1));
                assert(c.part(engine, 2) == engine.log(&g2));
                assert(c.part(engine, 3) == engine.log(&g3));
                assert(c.spec_bytes(engine) =~= bytes@);
                Ok(c)
            },
            _ => {
                proof {
                    assert forall|c: CipherTextGT| c.wf(engine) implies #[trigger] c.spec_bytes(
                        engine,
                    ) != bytes@ by {
                        c.lemma_bytes_split(engine);
                    }
                }
                Err(SheError::MalformedCiphertext)
            },
        }
    }

    /// Parsing the bytes of a ciphertext gives that ciphertext back.
    pub proof fn lemma_round_trip<E: GroupOps<GT>>(
        &self,
        engine: &E,
        outcome: Result<CipherTextGT, SheError>,
    )
        requires
            self.wf(engine),
            CipherTextGT::parsed(engine, outcome, self.spec_bytes(engine)),
        ensures
            outcome matches Ok(c) && (forall|i: int|
                0 <= i < 4 ==> #[trigger] c.part(engine, i) == self.part(engine, i)),
    {
        match outcome {
            Ok(c) => {
                c.lemma_bytes_split(engine);
                self.lemma_bytes_split(engine);
                engine.lemma_encoding_injective(c.part(engine, 0), self.part(engine, 0));
                engine.lemma_encoding_injective(c.part(engine, 1), self.part(engine, 1));
                engine.lemma_encoding_injective(c.part(engine, 2), self.part(engine, 2));
                engine.lemma_encoding_injective(c.part(engine, 3), self.part(engine, 3));
            },
            Err(_) => {
                assert(self.spec_bytes(engine) == self.spec_bytes(engine));
            },
        }
    }

    /// Bytes other than those of a ciphertext never parse to that ciphertext.
    pub proof fn lemma_other_bytes_differ<E: GroupOps<GT>>(
        &self,
        engine: &E,
        bytes: Seq<u8>,
        outcome: Result<CipherTextGT, SheError>,
    )
        requires
            self.wf(engine),
            bytes != self.spec_bytes(engine),
            CipherTextGT::parsed(engine, outcome, bytes),
        ensures
            outcome matches Ok(c) ==> exists|i: int|
                0 <= i < 4 && #[trigger] c.part(engine, i) != self.part(engine, i),
    {
    }
}

} // verus!
