use vstd::prelude::*;
use vstd::arithmetic::div_mod::lemma_fundamental_div_mod_converse;
use crate::engine::{GroupOps, PairingEngine, ScalarField};
use crate::types::{Fr, G1, G2, GT};

verus! {

/// The order of the groups of [`ExponentEngine`]: the prime `2^31 - 1`.
pub const EXPONENT_ORDER: u64 = 2147483647;

/// The pairing engine in the exponent: each of its three groups is the
/// integers modulo [`EXPONENT_ORDER`] under addition, with base 1, and the
/// pairing is multiplication. An element is stored as its own logarithm, in
/// the lowest limb of its storage, so the engine hides nothing and protects
/// nothing. It shows that the contract of an engine can be met, and it lets
/// the scheme run without a curve.
///
/// The fingerprint of an element is its logarithm, or, where `fold` is not
/// zero, the logarithm modulo `fold`: a fold makes fingerprints collide as
/// those of a curve engine may.
#[derive(Clone, Copy, Debug)]
pub struct ExponentEngine {
    pub fold: u64,
}

/// The fingerprint of the logarithm `l` under `fold`.
pub open spec fn folded(fold: u64, l: int) -> u64 {
    if fold == 0 {
        l as u64
    } else {
        (l % (fold as int)) as u64
    }
}

/// The fingerprint of a logarithm under `fold`.
pub fn exponent_digest(fold: u64, w: u64) -> (d: u64)
    ensures
        d == folded(fold, w as int),
{
    if fold == 0 {
        w
    } else {
        w % fold
    }
}

/// The four bytes of `l`, lowest first.
pub open spec fn word_bytes(l: int) -> Seq<u8> {
    seq![
        (l % 256) as u8,
        ((l / 256) % 256) as u8,
        ((l / 65536) % 256) as u8,
        ((l / 16777216) % 256) as u8,
    ]
}

/// The integer whose bytes, lowest first, are `b`.
pub open spec fn bytes_word(b: Seq<u8>) -> int {
    b[0] + 256 * b[1] + 65536 * b[2] + 16777216 * b[3]
}

/// An integer below `2^32` is the one its four bytes spell.
pub proof fn lemma_word_bytes(l: int)
    requires
        0 <= l < 0x1_0000_0000,
    ensures
        bytes_word(word_bytes(l)) == l,
        word_bytes(l).len() == 4,
{
}

/// Four bytes are the bytes of the integer they spell.
pub proof fn lemma_bytes_word(b: Seq<u8>)
    requires
        b.len() == 4,
    ensures
        word_bytes(bytes_word(b)) =~= b,
        0 <= bytes_word(b) < 0x1_0000_0000,
{
    let w = bytes_word(b);
    let b0 = b[0] as int;
    let b1 = b[1] as int;
    let b2 = b[2] as int;
    let b3 = b[3] as int;
    lemma_fundamental_div_mod_converse(w, 256, b1 + 256 * b2 + 65536 * b3, b0);
    lemma_fundamental_div_mod_converse(b1 + 256 * b2 + 65536 * b3, 256, b2 + 256 * b3, b1);
    lemma_fundamental_div_mod_converse(w, 65536, b2 + 256 * b3, b0 + 256 * b1);
    lemma_fundamental_div_mod_converse(b2 + 256 * b3, 256, b3, b2);
    lemma_fundamental_div_mod_converse(w, 16777216, b3, b0 + 256 * b1 + 65536 * b2);
    lemma_fundamental_div_mod_converse(b3, 256, 0, b3);
}

/// Addition modulo the order.
pub fn exponent_add(a: u64, b: u64) -> (c: u64)
    requires
        a < EXPONENT_ORDER,
        b < EXPONENT_ORDER,
    ensures
        c < EXPONENT_ORDER,
        c == (a + b) % (EXPONENT_ORDER as int),
{
    (a + b) % EXPONENT_ORDER
}

/// Negation modulo the order.
pub fn exponent_neg(a: u64) -> (c: u64)
    requires
        a < EXPONENT_ORDER,
    ensures
        c < EXPONENT_ORDER,
        c == (-(a as int)) % (EXPONENT_ORDER as int),
{
    if a == 0 {
        0
    } else {
        EXPONENT_ORDER - a
    }
}

/// Multiplication modulo the order.
pub fn exponent_mul(k: u64, a: u64) -> (c: u64)
    requires
        a < EXPONENT_ORDER,
        k < EXPONENT_ORDER,
    ensures
        c < EXPONENT_ORDER,
        c == (k * a) % (EXPONENT_ORDER as int),
{
    assert(k * a <= 2147483647 * 2147483647) by (nonlinear_arith)
        requires
            0 <= a <= 2147483647,
            0 <= k <= 2147483647,
    ;
    (k * a) % EXPONENT_ORDER
}

/// The residue of a signed integer modulo the order.
pub fn exponent_reduce(v: i64) -> (c: u64)
    ensures
        c < EXPONENT_ORDER,
        c == (v as int) % (EXPONENT_ORDER as int),
{
    if v >= 0 {
        (v as u64) % EXPONENT_ORDER
    } else {
        let below: u64 = (-(v + 1)) as u64;
        EXPONENT_ORDER - 1 - below % EXPONENT_ORDER
    }
}

/// The four bytes of a logarithm, lowest first.
pub fn exponent_encode(w: u64) -> (bytes: Vec<u8>)
    requires
        w < EXPONENT_ORDER,
    ensures
        bytes@ == word_bytes(w as int),
        bytes@.len() == 4,
{
    let mut bytes: Vec<u8> = Vec::new();
    bytes.push((w % 256) as u8);
    bytes.push(((w / 256) % 256) as u8);
    bytes.push(((w / 65536) % 256) as u8);
    bytes.push(((w / 16777216) % 256) as u8);
    assert(bytes@ =~= word_bytes(w as int));
    bytes
}

/// The logarithm that four bytes spell, if it lies below the order.
pub fn exponent_decode(bytes: &[u8]) -> (r: Option<u64>)
    ensures
        match r {
            Some(w) => w < EXPONENT_ORDER && word_bytes(w as int) == bytes@,
            None => forall|l: int| 0 <= l < EXPONENT_ORDER ==> #[trigger] word_bytes(l) != bytes@,
        },
{
    if bytes.len() != 4 {
        return None;
    }
    let w: u64 = bytes[0] as u64 + 256 * (bytes[1] as u64) + 65536 * (bytes[2] as u64) + 16777216
        * (bytes[3] as u64);
    proof {
        lemma_bytes_word(bytes@);
    }
    if w >= EXPONENT_ORDER {
        proof {
            assert forall|l: int| 0 <= l < EXPONENT_ORDER implies #[trigger] word_bytes(l)
                != bytes@ by {
                lemma_word_bytes(l);
            }
        }
        return None;
    }
    Some(w)
}

impl ExponentEngine {
    /// The engine whose fingerprints never collide.
    pub fn new() -> (e: ExponentEngine)
        ensures
            e.fold == 0,
    {
        ExponentEngine { fold: 0 }
    }

    /// The engine whose fingerprints are logarithms modulo `fold`.
    pub fn with_fold(fold: u64) -> (e: ExponentEngine)
        ensures
            e.fold == fold,
    {
        ExponentEngine { fold }
    }
}

impl ScalarField for ExponentEngine {
    open spec fn order(&self) -> int {
        EXPONENT_ORDER as int
    }

    open spec fn scalar_valid(&self, k: &Fr) -> bool {
        k.spec_word() < EXPONENT_ORDER
    }

    open spec fn scalar(&self, k: &Fr) -> int {
        k.spec_word() as int
    }

    proof fn lemma_order(&self) {
    }

    proof fn lemma_scalar_range(&self, k: &Fr) {
    }

    open spec fn scalar_width(&self) -> nat {
        4
    }

    open spec fn scalar_encoding(&self, v: int) -> Seq<u8> {
        word_bytes(v)
    }

    proof fn lemma_scalar_encoding_width(&self, v: int) {
    }

    proof fn lemma_scalar_encoding_injective(&self, v1: int, v2: int) {
        lemma_word_bytes(v1);
        lemma_word_bytes(v2);
    }

    fn scalar_byte_width(&self) -> (w: usize) {
        4
    }

    fn encode_scalar(&self, k: &Fr) -> (bytes: Vec<u8>) {
        exponent_encode(k.word())
    }

    fn decode_scalar(&self, bytes: &[u8]) -> (r: Option<Fr>) {
        match exponent_decode(bytes) {
            Some(w) => Some(Fr::from_word(w)),
            None => None,
        }
    }

    fn order_exceeds(&self, v: u64) -> (r: bool) {
        v < EXPONENT_ORDER
    }

    fn is_scalar(&self, k: &Fr) -> (r: bool) {
        k.word() < EXPONENT_ORDER
    }

    fn scalar_from_i64(&self, v: i64) -> (k: Fr) {
        Fr::from_word(exponent_reduce(v))
    }
}

impl GroupOps<G1> for ExponentEngine {
    open spec fn valid(&self, a: &G1) -> bool {
        a.spec_word() < EXPONENT_ORDER
    }

    open spec fn log(&self, a: &G1) -> int {
        a.spec_word() as int
    }

    open spec fn digest(&self, l: int) -> u64 {
        folded(self.fold, l)
    }

    open spec fn width(&self) -> nat {
        4
    }

    open spec fn encoding(&self, l: int) -> Seq<u8> {
        word_bytes(l)
    }

    proof fn lemma_log_range(&self, a: &G1) {
    }

    proof fn lemma_encoding_injective(&self, l1: int, l2: int) {
        lemma_word_bytes(l1);
        lemma_word_bytes(l2);
    }

    proof fn lemma_encoding_width(&self, l: int) {
    }

    fn byte_width(&self) -> (w: usize) {
        4
    }

    fn is_element(&self, a: &G1) -> (r: bool) {
        a.word() < EXPONENT_ORDER
    }

    fn base(&self) -> (g: G1) {
        G1::from_word(1)
    }

    fn add(&self, a: &G1, b: &G1) -> (c: G1) {
        G1::from_word(exponent_add(a.word(), b.word()))
    }

    fn neg(&self, a: &G1) -> (c: G1) {
        G1::from_word(exponent_neg(a.word()))
    }

    fn mul(&self, a: &G1, k: &Fr) -> (c: G1) {
        G1::from_word(exponent_mul(k.word(), a.word()))
    }

    fn same(&self, a: &G1, b: &G1) -> (r: bool) {
        a.word() == b.word()
    }

    fn fingerprint(&self, a: &G1) -> (d: u64) {
        exponent_digest(self.fold, a.word())
    }

    fn encode(&self, a: &G1) -> (bytes: Vec<u8>) {
        exponent_encode(a.word())
    }

    fn decode(&self, bytes: &[u8]) -> (r: Option<G1>) {
        match exponent_decode(bytes) {
            Some(w) => Some(G1::from_word(w)),
            None => None,
        }
    }
}

impl GroupOps<G2> for ExponentEngine {
    open spec fn valid(&self, a: &G2) -> bool {
        a.spec_word() < EXPONENT_ORDER
    }

    open spec fn log(&self, a: &G2) -> int {
        a.spec_word() as int
    }

    open spec fn digest(&self, l: int) -> u64 {
        folded(self.fold, l)
    }

    open spec fn width(&self) -> nat {
        4
    }

    open spec fn encoding(&self, l: int) -> Seq<u8> {
        word_bytes(l)
    }

    proof fn lemma_log_range(&self, a: &G2) {
    }

    proof fn lemma_encoding_injective(&self, l1: int, l2: int) {
        lemma_word_bytes(l1);
        lemma_word_bytes(l2);
    }

    proof fn lemma_encoding_width(&self, l: int) {
    }

    fn byte_width(&self) -> (w: usize) {
        4
    }

    fn is_element(&self, a: &G2) -> (r: bool) {
        a.word() < EXPONENT_ORDER
    }

    fn base(&self) -> (g: G2) {
        G2::from_word(1)
    }

    fn add(&self, a: &G2, b: &G2) -> (c: G2) {
        G2::from_word(exponent_add(a.word(), b.word()))
    }

    fn neg(&self, a: &G2) -> (c: G2) {
        G2::from_word(exponent_neg(a.word()))
    }

    fn mul(&self, a: &G2, k: &Fr) -> (c: G2) {
        G2::from_word(exponent_mul(k.word(), a.word()))
    }

    fn same(&self, a: &G2, b: &G2) -> (r: bool) {
        a.word() == b.word()
    }

    fn fingerprint(&self, a: &G2) -> (d: u64) {
        exponent_digest(self.fold, a.word())
    }

    fn encode(&self, a: &G2) -> (bytes: Vec<u8>) {
        exponent_encode(a.word())
    }

    fn decode(&self, bytes: &[u8]) -> (r: Option<G2>) {
        match exponent_decode(bytes) {
            Some(w) => Some(G2::from_word(w)),
            None => None,
        }
    }
}

impl GroupOps<GT> for ExponentEngine {
    open spec fn valid(&self, a: &GT) -> bool {
        a.spec_word() < EXPONENT_ORDER
    }

    open spec fn log(&self, a: &GT) -> int {
        a.spec_word() as int
    }

    open spec fn digest(&self, l: int) -> u64 {
        folded(self.fold, l)
    }

    open spec fn width(&self) -> nat {
        4
    }

    open spec fn encoding(&self, l: int) -> Seq<u8> {
        word_bytes(l)
    }

    proof fn lemma_log_range(&self, a: &GT) {
    }

    proof fn lemma_encoding_injective(&self, l1: int, l2: int) {
        lemma_word_bytes(l1);
        lemma_word_bytes(l2);
    }

    proof fn lemma_encoding_width(&self, l: int) {
    }

    fn byte_width(&self) -> (w: usize) {
        4
    }

    fn is_element(&self, a: &GT) -> (r: bool) {
        a.word() < EXPONENT_ORDER
    }

    fn base(&self) -> (g: GT) {
        GT::from_word(1)
    }

    fn add(&self, a: &GT, b: &GT) -> (c: GT) {
        GT::from_word(exponent_add(a.word(), b.word()))
    }

    fn neg(&self, a: &GT) -> (c: GT) {
        GT::from_word(exponent_neg(a.word()))
    }

    fn mul(&self, a: &GT, k: &Fr) -> (c: GT) {
        GT::from_word(exponent_mul(k.word(), a.word()))
    }

    fn same(&self, a: &GT, b: &GT) -> (r: bool) {
        a.word() == b.word()
    }

    fn fingerprint(&self, a: &GT) -> (d: u64) {
        exponent_digest(self.fold, a.word())
    }

    fn encode(&self, a: &GT) -> (bytes: Vec<u8>) {
        exponent_encode(a.word())
    }

    fn decode(&self, bytes: &[u8]) -> (r: Option<GT>) {
        match exponent_decode(bytes) {
            Some(w) => Some(GT::from_word(w)),
            None => None,
        }
    }
}

impl PairingEngine for ExponentEngine {
    fn pairing(&self, a: &G1, b: &G2) -> (c: GT) {
        GT::from_word(exponent_mul(a.word(), b.word()))
    }
}

} // verus!
