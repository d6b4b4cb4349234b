use vstd::prelude::*;
use crate::types::{Fr, G1, G2, GT};

verus! {

/// The scalars of a pairing engine: the integers modulo the prime order that
/// its three groups share.
pub trait ScalarField {
    /// The common order of the groups.
    spec fn order(&self) -> int;

    /// Whether `k` holds a scalar of this engine.
    spec fn scalar_valid(&self, k: &Fr) -> bool;

    /// The integer in `[0, order)` that `k` stands for.
    spec fn scalar(&self, k: &Fr) -> int;

    proof fn lemma_order(&self)
        ensures
            self.order() >= 2,
    ;

    proof fn lemma_scalar_range(&self, k: &Fr)
        requires
            self.scalar_valid(k),
        ensures
            0 <= self.scalar(k) < self.order(),
    ;

    /// The number of bytes of an encoded scalar.
    spec fn scalar_width(&self) -> nat;

    /// The canonical bytes of the scalar `v`.
    spec fn scalar_encoding(&self, v: int) -> Seq<u8>;

    /// Every scalar encoding has the scalar width.
    proof fn lemma_scalar_encoding_width(&self, v: int)
        requires
            0 <= v < self.order(),
        ensures
            self.scalar_encoding(v).len() == self.scalar_width(),
    ;

    /// Distinct scalars have distinct encodings.
    proof fn lemma_scalar_encoding_injective(&self, v1: int, v2: int)
        requires
            0 <= v1 < self.order(),
            0 <= v2 < self.order(),
            self.scalar_encoding(v1) == self.scalar_encoding(v2),
        ensures
            v1 == v2,
    ;

    /// The number of bytes of an encoded scalar.
    fn scalar_byte_width(&self) -> (w: usize)
        ensures
            w == self.scalar_width(),
    ;

    fn encode_scalar(&self, k: &Fr) -> (bytes: Vec<u8>)
        requires
            self.scalar_valid(k),
        ensures
            bytes@ == self.scalar_encoding(self.scalar(k)),
            bytes@.len() == self.scalar_width(),
    ;

    /// The scalar that `bytes` encode, if they encode one.
    fn decode_scalar(&self, bytes: &[u8]) -> (r: Option<Fr>)
        ensures
            match r {
                Some(k) => self.scalar_valid(&k) && self.scalar_encoding(self.scalar(&k)) == bytes@,
                None => forall|v: int|
                    0 <= v < self.order() ==> #[trigger] self.scalar_encoding(v) != bytes@,
            },
    ;

    /// Whether `v` lies below the order.
    fn order_exceeds(&self, v: u64) -> (r: bool)
        ensures
            r == (v < self.order()),
    ;

    /// Whether `k` holds a scalar of this engine.
    fn is_scalar(&self, k: &Fr) -> (r: bool)
        ensures
            r == self.scalar_valid(k),
    ;

    /// The scalar congruent to `v`.
    fn scalar_from_i64(&self, v: i64) -> (k: Fr)
        ensures
            self.scalar_valid(&k),
            self.scalar(&k) == (v as int) % self.order(),
    ;
}

/// What an engine can do in one of its groups, whose elements are stored in `G`.
///
/// The group is cyclic of order `order()`, so an element is `l` times the base
/// for exactly one `l` in `[0, order)`: its `log`. Every contract is stated
/// over logs, where the group law is addition modulo the order.
pub trait GroupOps<G>: ScalarField {
    /// Whether `a` holds an element of the group.
    spec fn valid(&self, a: &G) -> bool;

    /// The discrete logarithm of `a` to the base.
    spec fn log(&self, a: &G) -> int;

    /// The fingerprint of the element with logarithm `l`. It need not be
    /// injective.
    spec fn digest(&self, l: int) -> u64;

    /// The number of bytes of an encoded element.
    spec fn width(&self) -> nat;

    /// The canonical bytes of the element with logarithm `l`.
    spec fn encoding(&self, l: int) -> Seq<u8>;

    proof fn lemma_log_range(&self, a: &G)
        requires
            self.valid(a),
        ensures
            0 <= self.log(a) < self.order(),
    ;

    /// Distinct elements have distinct encodings.
    proof fn lemma_encoding_injective(&self, l1: int, l2: int)
        requires
            0 <= l1 < self.order(),
            0 <= l2 < self.order(),
            self.encoding(l1) == self.encoding(l2),
        ensures
            l1 == l2,
    ;

    /// Every encoding has the width of the group.
    proof fn lemma_encoding_width(&self, l: int)
        requires
            0 <= l < self.order(),
        ensures
            self.encoding(l).len() == self.width(),
    ;

    /// The number of bytes of an encoded element.
    fn byte_width(&self) -> (w: usize)
        ensures
            w == self.width(),
    ;

    /// Whether `a` holds an element of the group.
    fn is_element(&self, a: &G) -> (r: bool)
        ensures
            r == self.valid(a),
    ;

    /// The base of the group.
    fn base(&self) -> (g: G)
        ensures
            self.valid(&g),
            self.log(&g) == 1,
    ;

    fn add(&self, a: &G, b: &G) -> (c: G)
        requires
            self.valid(a),
            self.valid(b),
        ensures
            self.valid(&c),
            self.log(&c) == (self.log(a) + self.log(b)) % self.order(),
    ;

    fn neg(&self, a: &G) -> (c: G)
        requires
            self.valid(a),
        ensures
            self.valid(&c),
            self.log(&c) == (-self.log(a)) % self.order(),
    ;

    fn mul(&self, a: &G, k: &Fr) -> (c: G)
        requires
            self.valid(a),
            self.scalar_valid(k),
        ensures
            self.valid(&c),
            self.log(&c) == (self.scalar(k) * self.log(a)) % self.order(),
    ;

    /// Whether `a` and `b` hold the same element.
    fn same(&self, a: &G, b: &G) -> (r: bool)
        requires
            self.valid(a),
            self.valid(b),
        ensures
            r == (self.log(a) == self.log(b)),
    ;

    fn fingerprint(&self, a: &G) -> (d: u64)
        requires
            self.valid(a),
        ensures
            d == self.digest(self.log(a)),
    ;

    fn encode(&self, a: &G) -> (bytes: Vec<u8>)
        requires
            self.valid(a),
        ensures
            bytes@ == self.encoding(self.log(a)),
            bytes@.len() == self.width(),
    ;

    /// The element that `bytes` encode, if they encode one.
    fn decode(&self, bytes: &[u8]) -> (r: Option<G>)
        ensures
            match r {
                Some(a) => self.valid(&a) && self.encoding(self.log(&a)) == bytes@,
                None => forall|l: int| 0 <= l < self.order() ==> #[trigger] self.encoding(l) != bytes@,
            },
    ;
}

/// An engine with three groups of one order and a bilinear map from the first
/// two into the third.
pub trait PairingEngine: GroupOps<G1> + GroupOps<G2> + GroupOps<GT> {
    fn pairing(&self, a: &G1, b: &G2) -> (c: GT)
        requires
            GroupOps::<G1>::valid(self, a),
            GroupOps::<G2>::valid(self, b),
        ensures
            GroupOps::<GT>::valid(self, &c),
            GroupOps::<GT>::log(self, &c) == (GroupOps::<G1>::log(self, a) * GroupOps::<G2>::log(
                self,
                b,
            )) % self.order(),
    ;
}

} // verus!
