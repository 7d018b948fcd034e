//! Elements that can be inserted into a sketch.
//!
//! An element wraps the 32-bit sparse (index, rank) codeword derived from a
//! 64-bit hash of the caller's value.  All tiers of the sketch consume this
//! codeword uniformly.

use vstd::prelude::*;

verus! {

use vstd::std_specs::bits::u64_trailing_zeros;

/// The compile-time parameters the sketch accepts: `p` is the number of
/// register index bits, `w` the register width in bits.
pub open spec fn valid_params(p: nat, w: nat) -> bool {
    4 <= p <= 18 && 4 <= w <= 6
}

/// The codeword an element carries: the low `31 - w` bits of the hash as the
/// sparse index, and `trailing_zeros(!hash >> p) + 1` as the rank, packed as
/// `(index << w) | rank`.
pub open spec fn spec_encode(hash: u64, p: nat, w: nat) -> u32
    recommends
        valid_params(p, w),
{
    let idx = (hash as u32) & (((1u32 << ((31 - w) as u32)) - 1) as u32);
    let rank = ((u64_trailing_zeros((!hash) >> (p as u64)) + 1) as u32);
    (idx << (w as u32)) | rank
}

/// A member that can be inserted into a sketch.
///
/// All elements inserted into one sketch must be built with the same hash
/// configuration: the estimator relies on a random-like distribution of the
/// bits of the element's hash.
#[derive(Debug, Clone, Copy, PartialEq, Eq)]
pub struct Element<const P: usize, const W: usize>(pub u32);

impl<const P: usize, const W: usize> View for Element<P, W> {
    type V = u32;

    open spec fn view(&self) -> u32 {
        self.0
    }
}

impl<const P: usize, const W: usize> Element<P, W> {
    /// A codeword is well formed when the parameters are in range and the
    /// packed word is a non-zero 31-bit value, as every encoded hash is.
    pub open spec fn wf(self) -> bool {
        valid_params(P as nat, W as nat) && self@ != 0 && self@ < 0x8000_0000u32
    }

    /// Wrap an already-hashed element for insertion.
    ///
    /// For advanced use cases: if the input value is not hashable by the
    /// standard machinery, or some other hash family is wanted, callers can
    /// hash elements themselves and wrap the result here.  Hashing can almost
    /// never be skipped: the estimator relies on a random-like distribution
    /// of the bits of the hash.
    pub fn from_hashed(hashed: u64) -> (r: Self)
        requires
            valid_params(P as nat, W as nat),
        ensures
            r@ == spec_encode(hashed, P as nat, W as nat),
            r.wf(),
    {
        let w: u32 = W as u32;
        let p: u32 = P as u32;
        assert((1u32 << ((31 - w) as u32)) >= 1 && ((hashed as u32) & (((1u32 << ((31 - w) as u32))
            - 1) as u32)) << w < 0x8000_0000u32) by (bit_vector)
            requires
                4 <= w <= 6,
        ;
        let idx: u32 = #[verifier::truncate] (hashed as u32) & ((1u32 << (31 - w)) - 1);
        let tz: u32 = ((!hashed) >> (p as u64)).trailing_zeros();
        proof {
            vstd::std_specs::bits::axiom_u64_trailing_zeros((!hashed) >> (p as u64));
        }
        let rank: u32 = tz + 1;
        let code: u32 = (idx << w) | rank;
        proof {
            lemma_encode_in_range(hashed as u32, code, idx, rank, w);
        }
        Element(code)
    }

    /// Wrap a hashable element, hashed by the given build-hasher.
    ///
    /// The build-hasher can carry keyed state for salting if the caller
    /// needs protection against adversarial element choices.
    pub fn from_hasher<T: core::hash::Hash, B: core::hash::BuildHasher>(element: T, hasher: B) -> (
        r: Self)
        requires
            valid_params(P as nat, W as nat),
        ensures
            exists|h: u64| r@ == #[trigger] spec_encode(h, P as nat, W as nat),
            r.wf(),
    {
        let hashed = hash_one_of(&hasher, &element);
        let r = Self::from_hashed(hashed);
        proof {
            assert(r@ == spec_encode(hashed, P as nat, W as nat));
        }
        r
    }

    /// Wrap a hashable element, hashed by a default-constructed hasher of
    /// family `H`.
    pub fn from_hasher_default<H: core::hash::Hasher + Default, T: core::hash::Hash>(element: T) -> (
        r: Self)
        requires
            valid_params(P as nat, W as nat),
        ensures
            exists|h: u64| r@ == #[trigger] spec_encode(h, P as nat, W as nat),
            r.wf(),
    {
        let hashed = hash_one_default::<H, _>(&element);
        let r = Self::from_hashed(hashed);
        proof {
            assert(r@ == spec_encode(hashed, P as nat, W as nat));
        }
        r
    }
}

/// The packed codeword is a non-zero 31-bit value whenever the rank field is
/// non-zero and small and the index was masked to `31 - w` bits.
proof fn lemma_encode_in_range(h32: u32, code: u32, idx: u32, rank: u32, w: u32)
    by (bit_vector)
    requires
        4 <= w <= 6,
        idx == h32 & (((1u32 << ((31 - w) as u32)) - 1) as u32),
        1 <= rank <= 65,
        code == (idx << w) | rank,
    ensures
        code != 0,
        code < 0x8000_0000u32,
{
}

/// Relies on `core::hash::BuildHasher::hash_one`: hash the value with one
/// freshly built hasher of the given family.  Nothing is assumed of the
/// digest; which 64-bit value comes back depends on the hasher
/// implementation.
#[verifier::external_body]
fn hash_one_of<T: core::hash::Hash, B: core::hash::BuildHasher>(hasher: &B, element: &T) -> u64 {
    hasher.hash_one(element)
}

/// Relies on `core::hash::BuildHasher::hash_one` through a default-built
/// `core::hash::BuildHasherDefault<H>`: hash the value with a
/// default-constructed hasher of family `H`.  Nothing is assumed of the
/// digest.
#[verifier::external_body]
fn hash_one_default<H: core::hash::Hasher + Default, T: core::hash::Hash>(element: &T) -> u64 {
    core::hash::BuildHasher::hash_one(&core::hash::BuildHasherDefault::<H>::default(), element)
}

} // verus!
