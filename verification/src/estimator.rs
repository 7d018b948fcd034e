//! The hashing estimator facade: counts distinct hashable items.
//!
//! The estimator owns a representation and hashes each inserted item with
//! a default-built hasher of the caller's chosen family before handing the
//! codeword to the tiers.

use vstd::prelude::*;

verus! {

use crate::element::Element;
use crate::element::valid_params;
use crate::element::spec_encode;
use crate::representation::Representation;
use crate::representation::RepView;
use crate::representation::spec_insert;
use crate::representation::spec_merge;
use crate::representation::spec_estimate;
use crate::representation::spec_size_of;

/// A distinct-count estimator for items of type `T`, hashed by family `H`,
/// with `2^P` registers of `W` bits once promoted to the largest tier.
pub struct CardinalityEstimator<
    T: core::hash::Hash + ?Sized,
    H: core::hash::Hasher + Default,
    const P: usize,
    const W: usize,
> {
    /// The current representation of the observed stream.
    pub data: Representation<P, W>,
    /// Zero-sized stand-in for the hasher family.
    pub build_hasher: core::marker::PhantomData<H>,
    /// Zero-sized stand-in for the item type.
    pub _phantom_data: core::marker::PhantomData<T>,
}

impl<
    T: core::hash::Hash + ?Sized,
    H: core::hash::Hasher + Default,
    const P: usize,
    const W: usize,
> View for CardinalityEstimator<T, H, P, W> {
    type V = RepView;

    open spec fn view(&self) -> RepView {
        self.data@
    }
}

impl<
    T: core::hash::Hash + ?Sized,
    H: core::hash::Hasher + Default,
    const P: usize,
    const W: usize,
> CardinalityEstimator<T, H, P, W> {
    /// Structural soundness of the current tier.
    pub open spec fn wf(&self) -> bool {
        self.data.wf()
    }

    /// A fresh estimator: the empty small representation.
    pub fn new() -> (r: Self)
        ensures
            r.wf(),
            r@ == (RepView::Small { data: 0u64 }),
    {
        CardinalityEstimator {
            data: Representation::default(),
            build_hasher: core::marker::PhantomData,
            _phantom_data: core::marker::PhantomData,
        }
    }

    /// Wrap an existing representation, as deserialization hands one over.
    pub fn from_representation(rep: Representation<P, W>) -> (r: Self)
        requires
            rep.wf(),
        ensures
            r.wf(),
            r@ == rep@,
    {
        CardinalityEstimator {
            data: rep,
            build_hasher: core::marker::PhantomData,
            _phantom_data: core::marker::PhantomData,
        }
    }

    /// Insert one item: hash it with a default-built hasher of family `H`
    /// and insert the encoded codeword.  Which codeword that is depends on
    /// the hasher implementation; the state moves by one encoded insert
    /// for some 64-bit hash.
    pub fn insert(&mut self, item: &T)
        requires
            old(self).wf(),
            valid_params(P as nat, W as nat),
        ensures
            final(self).wf(),
            exists|hash: u64|
                final(self)@ == spec_insert(
                    old(self)@,
                    #[trigger] spec_encode(hash, P as nat, W as nat),
                    P as nat,
                    W as nat,
                ),
    {
        let hash = hash_one_default_of::<H, T>(item);
        self.insert_hash(hash);
    }

    /// Insert a pre-hashed item.
    pub fn insert_hash(&mut self, hash: u64)
        requires
            old(self).wf(),
            valid_params(P as nat, W as nat),
        ensures
            final(self).wf(),
            final(self)@ == spec_insert(
                old(self)@,
                spec_encode(hash, P as nat, W as nat),
                P as nat,
                W as nat,
            ),
    {
        let element = Element::<P, W>::from_hashed(hash);
        self.data.iec(element.0);
    }

    /// The cardinality estimate of the current state.
    pub fn estimate(&self) -> (r: usize)
        requires
            self.wf(),
            valid_params(P as nat, W as nat),
        ensures
            r as int == spec_estimate(self@, P as nat, W as nat),
    {
        self.data.estimate()
    }

    /// Merge another estimator into this one.
    pub fn merge(&mut self, rhs: &Self)
        requires
            old(self).wf(),
            rhs.wf(),
            valid_params(P as nat, W as nat),
        ensures
            final(self).wf(),
            final(self)@ == spec_merge(old(self)@, rhs@, P as nat, W as nat),
    {
        self.data.merge(&rhs.data)
    }

    /// The current representation, for callers that inspect the tier.
    pub fn representation(&self) -> (r: &Representation<P, W>)
        ensures
            r == &self.data,
    {
        &self.data
    }

    /// A deep copy: a fresh estimator merged with this one.
    pub fn duplicate(&self) -> (r: Self)
        requires
            self.wf(),
            valid_params(P as nat, W as nat),
        ensures
            r.wf(),
            r@ == spec_merge(RepView::Small { data: 0u64 }, self@, P as nat, W as nat),
    {
        let mut estimator = Self::new();
        estimator.merge(self);
        estimator
    }

    /// Shallow memory footprint of the current representation.
    pub fn size_of(&self) -> (r: usize)
        ensures
            r as int == spec_size_of(self@),
    {
        self.data.size_of()
    }
}

impl<
    T: core::hash::Hash + ?Sized,
    H: core::hash::Hasher + Default,
    const P: usize,
    const W: usize,
> Default for CardinalityEstimator<T, H, P, W> {
    /// A fresh estimator.
    fn default() -> (r: Self)
        ensures
            r.wf(),
            r@ == (RepView::Small { data: 0u64 }),
    {
        Self::new()
    }
}

/// Relies on `core::hash::BuildHasher::hash_one` through a default-built
/// `core::hash::BuildHasherDefault<H>`: hash the item with a
/// default-constructed hasher of family `H`.  Nothing is assumed of the
/// digest.
#[verifier::external_body]
fn hash_one_default_of<H: core::hash::Hasher + Default, T: core::hash::Hash + ?Sized>(
    item: &T,
) -> u64 {
    core::hash::BuildHasher::hash_one(&core::hash::BuildHasherDefault::<H>::default(), &item)
}


} // verus!
