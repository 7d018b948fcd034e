//! The sketch facade: the public distinct-count surface.
//!
//! A sketch owns one representation and forwards insert, estimate and
//! merge to it, applying tier promotions as they are reported.

use vstd::prelude::*;

verus! {

use crate::element::Element;
use crate::element::valid_params;
use crate::representation::Representation;
use crate::representation::RepView;
use crate::representation::spec_insert;
use crate::representation::spec_merge;
use crate::representation::spec_estimate;
use crate::representation::spec_size_of;

/// A cardinality sketch with `2^P` registers of `W` bits once promoted to
/// its largest tier.
#[derive(Debug)]
pub struct Sketch<const P: usize, const W: usize> {
    pub rep: Representation<P, W>,
}

impl<const P: usize, const W: usize> View for Sketch<P, W> {
    type V = RepView;

    open spec fn view(&self) -> RepView {
        self.rep@
    }
}

impl<const P: usize, const W: usize> Sketch<P, W> {
    /// Structural soundness of the current tier.
    pub open spec fn wf(&self) -> bool {
        self.rep.wf()
    }

    /// Insert one element.  The representation absorbs the element's
    /// codeword, promoting itself when the current tier is full.
    pub fn insert(&mut self, element: Element<P, W>)
        requires
            old(self).wf(),
            element.wf(),
        ensures
            final(self).wf(),
            final(self)@ == spec_insert(old(self)@, element@, P as nat, W as nat),
    {
        self.rep.iec(element.0)
    }

    /// The cardinality estimate of the current state: exact while the
    /// sketch holds at most `MAX_CAPACITY` distinct codewords, the
    /// LogLog-beta approximation beyond.
    pub fn estimate(&self) -> (r: usize)
        requires
            self.wf(),
            valid_params(P as nat, W as nat),
        ensures
            r as int == spec_estimate(self@, P as nat, W as nat),
    {
        self.rep.estimate()
    }

    /// Merge another sketch into this one.  The other sketch is read only;
    /// the result covers the union of both element streams.
    pub fn merge(&mut self, rhs: &Sketch<P, W>)
        requires
            old(self).wf(),
            rhs.wf(),
            valid_params(P as nat, W as nat),
        ensures
            final(self).wf(),
            final(self)@ == spec_merge(old(self)@, rhs@, P as nat, W as nat),
    {
        self.rep.merge(&rhs.rep)
    }

    /// A deep copy: a fresh sketch merged with this one.
    pub fn duplicate(&self) -> (r: Self)
        requires
            self.wf(),
            valid_params(P as nat, W as nat),
        ensures
            r.wf(),
            r@ == spec_merge(RepView::Small { data: 0u64 }, self@, P as nat, W as nat),
    {
        let mut copy = Self::default();
        copy.merge(self);
        copy
    }

    /// The current representation, for callers that inspect the tier.
    pub fn representation(&self) -> (r: &Representation<P, W>)
        ensures
            r == &self.rep,
    {
        &self.rep
    }

    /// Shallow memory footprint of the current representation.
    pub fn size_of(&self) -> (r: usize)
        ensures
            r as int == spec_size_of(self@),
    {
        self.rep.size_of()
    }
}

impl<const P: usize, const W: usize> Default for Sketch<P, W> {
    /// A fresh sketch: the empty small tier.
    fn default() -> (r: Self)
        ensures
            r.wf(),
            r@ == (RepView::Small { data: 0u64 }),
    {
        Sketch { rep: Representation::default() }
    }
}


} // verus!
