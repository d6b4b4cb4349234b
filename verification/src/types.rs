use vstd::prelude::*;

verus! {

/// Number of 64-bit limbs of a base-field element.
pub const FP_UNIT_SIZE: usize = 6;

/// Number of 64-bit limbs of a scalar.
pub const FR_UNIT_SIZE: usize = 4;

/// The named curves an engine can be initialised with.
#[allow(non_camel_case_types)]
#[derive(Clone, Copy, Debug, PartialEq, Eq, Structural)]
pub enum CurveType {
    BN254,
    BN381,
    SNARK,
    BLS12_381,
    SECP192K1,
    SECP224K1,
    SECP256K1,
    NIST_P192,
    NIST_P224,
    NIST_P256,
}

impl CurveType {
    /// The numeric identifier by which engines know the curve.
    pub open spec fn spec_id(self) -> int {
        match self {
            CurveType::BN254 => 0,
            CurveType::BN381 => 1,
            CurveType::SNARK => 4,
            CurveType::BLS12_381 => 5,
            CurveType::SECP192K1 => 100,
            CurveType::SECP224K1 => 101,
            CurveType::SECP256K1 => 102,
            CurveType::NIST_P192 => 105,
            CurveType::NIST_P224 => 106,
            CurveType::NIST_P256 => 107,
        }
    }

    /// The numeric identifier by which engines know the curve.
    pub fn id(self) -> (r: i32)
        ensures
            r == self.spec_id(),
    {
        match self {
            CurveType::BN254 => 0,
            CurveType::BN381 => 1,
            CurveType::SNARK => 4,
            CurveType::BLS12_381 => 5,
            CurveType::SECP192K1 => 100,
            CurveType::SECP224K1 => 101,
            CurveType::SECP256K1 => 102,
            CurveType::NIST_P192 => 105,
            CurveType::NIST_P224 => 106,
            CurveType::NIST_P256 => 107,
        }
    }
}

/// The word that tells an engine which limb counts its caller was built for.
pub fn layout_tag() -> (r: i32)
    ensures
        r == FR_UNIT_SIZE * 10 + FP_UNIT_SIZE,
{
    46
}

/// Storage of one base-field element. Its limbs mean what the engine says.
#[derive(Clone, Copy, Debug, Default)]
pub struct Fp {
    pub d: [u64; 6],
}

/// Storage of one scalar. Its limbs mean what the engine says.
#[derive(Clone, Copy, Debug, Default)]
pub struct Fr {
    pub d: [u64; 4],
}

/// Storage of one element of the quadratic extension field.
#[derive(Clone, Copy, Debug, Default)]
pub struct Fp2 {
    pub d: [Fp; 2],
}

/// Storage of one element of the first source group.
#[derive(Clone, Copy, Debug, Default)]
pub struct G1 {
    pub x: Fp,
    pub y: Fp,
    pub z: Fp,
}

/// Storage of one element of the second source group.
#[derive(Clone, Copy, Debug, Default)]
pub struct G2 {
    pub x: Fp2,
    pub y: Fp2,
    pub z: Fp2,
}

/// Storage of one element of the target group.
#[derive(Clone, Copy, Debug, Default)]
pub struct GT {
    pub d: [Fp; 12],
}

impl Fp {
    /// The lowest limb.
    pub open spec fn spec_word(self) -> u64 {
        self.d[0]
    }

    /// Whether the lowest limb is `w` and the other limbs are zero.
    pub open spec fn holds_word(self, w: u64) -> bool {
        self.d@ == seq![w, 0u64, 0u64, 0u64, 0u64, 0u64]
    }

    /// The element whose lowest limb is `w` and whose other limbs are zero.
    pub fn from_word(w: u64) -> (r: Fp)
        ensures
            r.holds_word(w),
            r.spec_word() == w,
    {
        let r = Fp { d: [w, 0, 0, 0, 0, 0] };
        assert(r.d@ =~= seq![w, 0u64, 0u64, 0u64, 0u64, 0u64]);
        r
    }

    /// The lowest limb.
    pub fn word(&self) -> (w: u64)
        ensures
            w == self.spec_word(),
    {
        self.d[0]
    }
}

impl Fr {
    /// The lowest limb.
    pub open spec fn spec_word(self) -> u64 {
        self.d[0]
    }

    /// Whether the lowest limb is `w` and the other limbs are zero.
    pub open spec fn holds_word(self, w: u64) -> bool {
        self.d@ == seq![w, 0u64, 0u64, 0u64]
    }

    /// The scalar storage whose lowest limb is `w` and whose other limbs are zero.
    pub fn from_word(w: u64) -> (r: Fr)
        ensures
            r.holds_word(w),
            r.spec_word() == w,
    {
        let r = Fr { d: [w, 0, 0, 0] };
        assert(r.d@ =~= seq![w, 0u64, 0u64, 0u64]);
        r
    }

    /// The lowest limb.
    pub fn word(&self) -> (w: u64)
        ensures
            w == self.spec_word(),
    {
        self.d[0]
    }
}

impl Fp2 {
    /// The lowest limb.
    pub open spec fn spec_word(self) -> u64 {
        self.d[0].spec_word()
    }

    /// Whether the lowest limb is `w` and the other limbs are zero.
    pub open spec fn holds_word(self, w: u64) -> bool {
        self.d[0].holds_word(w) && self.d[1].holds_word(0)
    }

    /// The storage whose lowest limb is `w` and whose other limbs are zero.
    pub fn from_word(w: u64) -> (r: Fp2)
        ensures
            r.holds_word(w),
            r.spec_word() == w,
    {
        Fp2 { d: [Fp::from_word(w), Fp::from_word(0)] }
    }

    /// The lowest limb.
    pub fn word(&self) -> (w: u64)
        ensures
            w == self.spec_word(),
    {
        self.d[0].word()
    }
}

impl G1 {
    /// The lowest limb.
    pub open spec fn spec_word(self) -> u64 {
        self.x.spec_word()
    }

    /// Whether the lowest limb is `w` and the other limbs are zero.
    pub open spec fn holds_word(self, w: u64) -> bool {
        self.x.holds_word(w) && self.y.holds_word(0) && self.z.holds_word(0)
    }

    /// The storage whose lowest limb is `w` and whose other limbs are zero.
    pub fn from_word(w: u64) -> (r: G1)
        ensures
            r.holds_word(w),
            r.spec_word() == w,
    {
        G1 { x: Fp::from_word(w), y: Fp::from_word(0), z: Fp::from_word(0) }
    }

    /// The lowest limb.
    pub fn word(&self) -> (w: u64)
        ensures
            w == self.spec_word(),
    {
        self.x.word()
    }
}

impl G2 {
    /// The lowest limb.
    pub open spec fn spec_word(self) -> u64 {
        self.x.spec_word()
    }

    /// Whether the lowest limb is `w` and the other limbs are zero.
    pub open spec fn holds_word(self, w: u64) -> bool {
        self.x.holds_word(w) && self.y.holds_word(0) && self.z.holds_word(0)
    }

    /// The storage whose lowest limb is `w` and whose other limbs are zero.
    pub fn from_word(w: u64) -> (r: G2)
        ensures
            r.holds_word(w),
            r.spec_word() == w,
    {
        G2 { x: Fp2::from_word(w), y: Fp2::from_word(0), z: Fp2::from_word(0) }
    }

    /// The lowest limb.
    pub fn word(&self) -> (w: u64)
        ensures
            w == self.spec_word(),
    {
        self.x.word()
    }
}

impl GT {
    /// The lowest limb.
    pub open spec fn spec_word(self) -> u64 {
        self.d[0].spec_word()
    }

    /// Whether the lowest limb is `w` and the other limbs are zero.
    pub open spec fn holds_word(self, w: u64) -> bool {
        self.d[0].holds_word(w) && forall|i: int| 1 <= i < 12 ==> (#[trigger] self.d[i]).holds_word(0)
    }

    /// The storage whose lowest limb is `w` and whose other limbs are zero.
    pub fn from_word(w: u64) -> (r: GT)
        ensures
            r.holds_word(w),
            r.spec_word() == w,
    {
        let z = Fp::from_word(0);
        GT { d: [Fp::from_word(w), z, z, z, z, z, z, z, z, z, z, z] }
    }

    /// The lowest limb.
    pub fn word(&self) -> (w: u64)
        ensures
            w == self.spec_word(),
    {
        self.d[0].word()
    }
}

/// Why an operation of the scheme was refused.
#[derive(Clone, Copy, Debug, PartialEq, Eq, Structural)]
pub enum SheError {
    /// The entropy source gave nothing.
    RandomnessFailure,
    /// A message to encrypt lies outside the supported range.
    PlaintextRangeError,
    /// Bytes of the wrong length, or bytes that decode to no group element.
    MalformedCiphertext,
    /// Key bytes of the wrong length, or that decode to no key.
    MalformedKey,
    /// The discrete-logarithm search ended without a match.
    PlaintextOutOfRange,
}

} // verus!
