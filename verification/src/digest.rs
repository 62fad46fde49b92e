use vstd::prelude::*;

verus! {

/// A fixed-size hash digest: four 64-bit limbs, 32 bytes in all.
#[derive(Clone, Copy, PartialEq, Eq, Hash, Structural, Debug)]
pub struct Digest {
    pub e0: u64,
    pub e1: u64,
    pub e2: u64,
    pub e3: u64,
}

impl Digest {
    /// The all-zero digest.
    pub open spec fn spec_zero() -> Digest {
        Digest { e0: 0, e1: 0, e2: 0, e3: 0 }
    }

    /// The default "zero" digest value.
    pub fn zero() -> (r: Digest)
        ensures
            r == Digest::spec_zero(),
    {
        Digest { e0: 0, e1: 0, e2: 0, e3: 0 }
    }

    /// Builds a digest from its four limbs.
    pub fn from_limbs(e0: u64, e1: u64, e2: u64, e3: u64) -> (r: Digest)
        ensures
            r == (Digest { e0, e1, e2, e3 }),
    {
        Digest { e0, e1, e2, e3 }
    }
}

/// The two-to-one combination of two child digests into their parent's
/// digest. The concrete hash is supplied by an outside crate; its value on
/// given inputs is not specified here, only that it is a function of the
/// two inputs.
pub uninterp spec fn combine_of(left: Digest, right: Digest) -> Digest;

/// Relies on sha2's `Sha256`: one SHA-256 evaluation of the 64 bytes of the
/// two input digests (little-endian limbs); the result depends on the two
/// input digests alone.
#[verifier::external_body]
pub(crate) fn combine(left: &Digest, right: &Digest) -> (r: Digest)
    ensures
        r == combine_of(*left, *right),
{
    let mut hasher = <sha2::Sha256 as sha2::Digest>::new();
    for v in [left.e0, left.e1, left.e2, left.e3, right.e0, right.e1, right.e2, right.e3] {
        sha2::Digest::update(&mut hasher, v.to_le_bytes());
    }
    let out = <sha2::Sha256 as sha2::Digest>::finalize(hasher);
    Digest {
        e0: u64::from_le_bytes(out[0..8].try_into().unwrap()),
        e1: u64::from_le_bytes(out[8..16].try_into().unwrap()),
        e2: u64::from_le_bytes(out[16..24].try_into().unwrap()),
        e3: u64::from_le_bytes(out[24..32].try_into().unwrap()),
    }
}

} // verus!
