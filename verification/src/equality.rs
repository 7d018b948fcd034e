//! Equality of sketches and their representations.
//!
//! Two small words are equal as words; two arrays are equal when their
//! used prefixes match pointwise; two register files are equal when their
//! packed words match, as the serialized form sees them.  The dispatch and
//! facade types compare tier by tier.

use vstd::prelude::*;

verus! {

use crate::array::Array;
use crate::hyperloglog::HyperLogLog;
use crate::representation::Representation;
use crate::sketch::Sketch;
use crate::estimator::CardinalityEstimator;

impl<const P: usize, const W: usize> PartialEq for Array<P, W> {
    /// Content equality: same codewords in the same order, however the two
    /// storages are padded.
    fn eq(&self, other: &Self) -> (r: bool) {
        if self.0.len() < self.1 || other.0.len() < other.1 {
            return false;
        }
        let a_used = self.0.len() - self.1;
        let b_used = other.0.len() - other.1;
        if a_used != b_used {
            proof {
                assert(self@.len() != other@.len());
                assert(self@ != other@);
            }
            return false;
        }
        let mut i: usize = 0;
        while i < a_used
            invariant
                self.1 <= self.0@.len(),
                other.1 <= other.0@.len(),
                a_used == self.0@.len() - self.1,
                a_used == other.0@.len() - other.1,
                a_used == self@.len(),
                a_used == other@.len(),
                i <= a_used,
                forall|j: int| 0 <= j < i ==> self@[j] == other@[j],
            decreases a_used - i,
        {
            proof {
                assert(self@[i as int] == self.0@[i as int]);
                assert(other@[i as int] == other.0@[i as int]);
            }
            if self.0[i] != other.0[i] {
                proof {
                    assert(self@[i as int] != other@[i as int]);
                }
                return false;
            }
            i += 1;
        }
        proof {
            assert(self@ =~= other@);
        }
        true
    }
}

impl<const P: usize, const W: usize> vstd::std_specs::cmp::PartialEqSpecImpl for Array<P, W> {
    open spec fn obeys_eq_spec() -> bool {
        true
    }

    open spec fn eq_spec(&self, other: &Self) -> bool {
        self.0@.len() >= self.1 && other.0@.len() >= other.1 && self@ == other@
    }
}

impl<const P: usize, const W: usize> PartialEq for HyperLogLog<P, W> {
    /// Equality by the packed register words, as the serialized form sees
    /// them.
    fn eq(&self, other: &Self) -> (r: bool)
        ensures
            r == (self.registers@ == other.registers@),
    {
        if self.registers.len() != other.registers.len() {
            proof {
                assert(self.registers@ != other.registers@);
            }
            return false;
        }
        let n = self.registers.len();
        let mut i: usize = 0;
        while i < n
            invariant
                n == self.registers@.len(),
                n == other.registers@.len(),
                i <= n,
                forall|j: int| 0 <= j < i ==> self.registers@[j] == other.registers@[j],
            decreases n - i,
        {
            if self.registers[i] != other.registers[i] {
                return false;
            }
            i += 1;
        }
        proof {
            assert(self.registers@ =~= other.registers@);
        }
        true
    }
}

impl<const P: usize, const W: usize> vstd::std_specs::cmp::PartialEqSpecImpl for HyperLogLog<P, W> {
    open spec fn obeys_eq_spec() -> bool {
        true
    }

    open spec fn eq_spec(&self, other: &Self) -> bool {
        self.registers@ == other.registers@
    }
}

impl<const P: usize, const W: usize> PartialEq for Representation<P, W> {
    /// Equality: same tier, and tier contents equal in that tier's own
    /// sense (packed word, used prefix, register words).
    fn eq(&self, other: &Self) -> (r: bool) {
        match (self, other) {
            (Representation::Small(a), Representation::Small(b)) => a.0 == b.0,
            (Representation::Array(a), Representation::Array(b)) => a == b,
            (Representation::Hll(a), Representation::Hll(b)) => a == b,
            _ => false,
        }
    }
}

impl<const P: usize, const W: usize> vstd::std_specs::cmp::PartialEqSpecImpl for Representation<P, W> {
    open spec fn obeys_eq_spec() -> bool {
        true
    }

    open spec fn eq_spec(&self, other: &Self) -> bool {
        match (self, other) {
            (Representation::Small(a), Representation::Small(b)) => a@ == b@,
            (Representation::Array(a), Representation::Array(b)) => a.0@.len() >= a.1 && b.0@.len()
                >= b.1 && a@ == b@,
            (Representation::Hll(a), Representation::Hll(b)) => a.registers@ == b.registers@,
            _ => false,
        }
    }
}

impl<const P: usize, const W: usize> PartialEq for Sketch<P, W> {
    /// Equality of the owned representations.
    fn eq(&self, other: &Self) -> (r: bool) {
        self.rep == other.rep
    }
}

impl<const P: usize, const W: usize> vstd::std_specs::cmp::PartialEqSpecImpl for Sketch<P, W> {
    open spec fn obeys_eq_spec() -> bool {
        true
    }

    open spec fn eq_spec(&self, other: &Self) -> bool {
        vstd::std_specs::cmp::PartialEqSpec::eq_spec(&self.rep, &other.rep)
    }
}

impl<
    T: core::hash::Hash + ?Sized,
    H: core::hash::Hasher + Default,
    const P: usize,
    const W: usize,
> PartialEq for CardinalityEstimator<T, H, P, W> {
    /// Equality of the owned representations.
    fn eq(&self, other: &Self) -> (r: bool) {
        self.data == other.data
    }
}

impl<
    T: core::hash::Hash + ?Sized,
    H: core::hash::Hasher + Default,
    const P: usize,
    const W: usize,
> vstd::std_specs::cmp::PartialEqSpecImpl for CardinalityEstimator<T, H, P, W> {
    open spec fn obeys_eq_spec() -> bool {
        true
    }

    open spec fn eq_spec(&self, other: &Self) -> bool {
        vstd::std_specs::cmp::PartialEqSpec::eq_spec(&self.data, &other.data)
    }
}

} // verus!
