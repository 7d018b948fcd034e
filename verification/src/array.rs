//! The array tier: exact medium cardinalities, 3 to `MAX_CAPACITY` codewords.
//!
//! Storage is a vector grown by doubling, so the vector length runs through
//! 4, 8, 16, ..., 128; a trailing region of `unused` slots is not yet
//! occupied.  The logical content is the used prefix, which holds no
//! duplicate codeword as long as only `insert` extends it.

use vstd::prelude::*;

verus! {

/// Maximum number of codewords stored in the array representation.
pub const MAX_CAPACITY: usize = 128;

/// The allowed physical vector lengths: powers of two from the initial
/// allocation up to the capacity limit.
pub open spec fn spec_array_storage_len(n: int) -> bool {
    n == 4 || n == 8 || n == 16 || n == 32 || n == 64 || n == 128
}

/// The content after inserting codeword `h` into content `s`, provided the
/// tier keeps it: unchanged when present, appended otherwise.
pub open spec fn spec_array_insert(s: Seq<u32>, h: u32) -> Seq<u32> {
    if s.contains(h) {
        s
    } else {
        s.push(h)
    }
}

/// Whether the array tier can keep codeword `h` without promotion.
pub open spec fn spec_array_fits(s: Seq<u32>, h: u32) -> bool {
    s.contains(h) || s.len() < MAX_CAPACITY
}

/// Array representation container: the backing vector and the count of
/// trailing unused slots.
#[derive(Debug)]
pub struct Array<const P: usize, const W: usize>(pub Vec<u32>, pub usize);

impl<const P: usize, const W: usize> View for Array<P, W> {
    type V = Seq<u32>;

    /// The logical content: the used prefix of the backing vector.
    open spec fn view(&self) -> Seq<u32> {
        self.0@.take(self.0@.len() - self.1)
    }
}

impl<const P: usize, const W: usize> Array<P, W> {
    /// Structural soundness of the storage: a doubling-grown vector with a
    /// used prefix of at least 3 codewords.
    pub open spec fn wf(&self) -> bool {
        &&& spec_array_storage_len(self.0@.len() as int)
        &&& self.1 < self.0@.len()
        &&& 3 <= self@.len() <= MAX_CAPACITY
    }

    /// Number of stored codewords.
    pub fn len(&self) -> (r: usize)
        requires
            self.wf(),
        ensures
            r == self@.len(),
    {
        self.0.len() - self.1
    }

    /// The stored codeword at position `i`.
    pub fn get(&self, i: usize) -> (r: u32)
        requires
            self.wf(),
            i < self@.len(),
        ensures
            r == self@[i as int],
    {
        self.0[i]
    }

    /// Whether codeword `h` is already stored: a linear scan of the used
    /// prefix.
    pub fn contains(&self, h: u32) -> (r: bool)
        requires
            self.wf(),
        ensures
            r == self@.contains(h),
    {
        let used = self.0.len() - self.1;
        let mut i: usize = 0;
        while i < used
            invariant
                used == self@.len(),
                self.wf(),
                i <= used,
                forall|j: int| 0 <= j < i ==> self@[j] != h,
            decreases used - i,
        {
            if self.0[i] == h {
                assert(self@[i as int] == h);
                return true;
            }
            i += 1;
        }
        assert(!self@.contains(h)) by {
            if self@.contains(h) {
                let j = choose|j: int| 0 <= j < self@.len() && self@[j] == h;
                assert(self@[j] != h);
            }
        }
        false
    }

    /// Insert codeword `h`.  Returns true when it is now (or already was)
    /// stored, false when the array is full of other codewords and the
    /// representation must be promoted.
    pub fn insert(&mut self, h: u32) -> (ok: bool)
        requires
            old(self).wf(),
        ensures
            final(self).wf(),
            ok == spec_array_fits(old(self)@, h),
            ok ==> final(self)@ == spec_array_insert(old(self)@, h),
            !ok ==> final(self)@ == old(self)@,
    {
        if self.contains(h) {
            return true;
        }
        let l = self.0.len();
        if self.1 > 0 {
            let used = l - self.1;
            self.0[used] = h;
            self.1 = self.1 - 1;
            proof {
                assert(final(self)@ =~= old(self)@.push(h));
            }
            true
        } else if l < MAX_CAPACITY {
            self.0.resize(2 * l, 0);
            self.0[l] = h;
            self.1 = l - 1;
            proof {
                assert(final(self)@ =~= old(self)@.push(h));
            }
            true
        } else {
            false
        }
    }

    /// Build the three-codeword array that a promoted small tier seeds:
    /// `a`, `b`, `c` come from the two occupied slots and the new insert.
    pub fn from_small(a: u32, b: u32, c: u32) -> (r: Self)
        ensures
            r.wf(),
            r@ =~= seq![a, b, c],
    {
        let mut v: Vec<u32> = Vec::new();
        v.push(a);
        v.push(b);
        v.push(c);
        v.push(0);
        Array(v, 1)
    }

    /// Rebuild an array tier from its serialized content, padding the
    /// storage back to the doubling shape.
    pub fn from_items(items: Vec<u32>) -> (r: Self)
        requires
            3 <= items@.len() <= MAX_CAPACITY,
        ensures
            r.wf(),
            r@ == items@,
    {
        let n = items.len();
        let mut target: usize = 4;
        while target < n
            invariant
                n <= MAX_CAPACITY,
                spec_array_storage_len(target as int),
                target < 2 * MAX_CAPACITY,
            decreases MAX_CAPACITY + 1 - target,
        {
            target = target * 2;
        }
        let mut v = items;
        let ghost content = v@;
        let mut pad = target - n;
        let unused = pad;
        while pad > 0
            invariant
                v@.len() == content.len() + unused - pad,
                pad <= unused,
                v@.take(content.len() as int) == content,
            decreases pad,
        {
            v.push(0);
            pad = pad - 1;
            proof {
                assert(v@.take(content.len() as int) =~= content);
            }
        }
        let r = Array(v, unused);
        proof {
            assert(r@ =~= content);
        }
        r
    }

    /// Exact cardinality estimate of this tier: the number of stored
    /// codewords.
    pub fn estimate(&self) -> (r: usize)
        requires
            self.wf(),
        ensures
            r == self@.len(),
    {
        self.0.len() - self.1
    }

    /// Shallow memory footprint of this representation: the vector header
    /// and the unused-slot counter.
    pub fn size_of(&self) -> (r: usize)
        ensures
            r == 32,
    {
        32
    }

    /// Content equality with another array: same codewords in the same
    /// order, however the two storages are padded.
    pub fn content_eq(&self, other: &Self) -> (r: bool)
        requires
            self.wf(),
            other.wf(),
        ensures
            r == (self@ == other@),
    {
        if self.len() != other.len() {
            proof {
                assert(self@ != other@);
            }
            return false;
        }
        let n = self.len();
        let mut i: usize = 0;
        while i < n
            invariant
                self.wf(),
                other.wf(),
                n == self@.len(),
                n == other@.len(),
                i <= n,
                forall|j: int| 0 <= j < i ==> self@[j] == other@[j],
            decreases n - i,
        {
            if self.get(i) != other.get(i) {
                return false;
            }
            i += 1;
        }
        proof {
            assert(self@ =~= other@);
        }
        true
    }
}


} // verus!
