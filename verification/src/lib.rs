//! A persistent, relative-indexed, concatenable and sliceable sequence — a
//! "cat-vector".  The container stores an ordered sequence of elements in a
//! balanced B+tree with fanout `ORD` and supports random access by position,
//! positional insertion, truncation from either end, and concatenation.
//! Cloning shares structure: the tree nodes are held through
//! reference-counted handles, and a mutation copies only the nodes on its
//! path, so independent clones never observe each other's changes.

mod btree;

pub use btree::Internal;
pub use btree::Tree;
pub use btree::lemma_seq_insert_left;
pub use btree::lemma_seq_insert_right;
pub use btree::lemma_seq_skip_concat;
pub use btree::lemma_seq_take_concat;

use vstd::prelude::*;

use btree::Tree as Node;

verus! {

use vstd::std_specs::cmp::PartialEqSpec;

/// A persistent, efficiently concatenable and sliceable vector.  The
/// const-generic parameter `ORD` is the maximum fanout of the underlying
/// tree; a value from 32 to 128 usually works well, and it must be at
/// least 4 for the split and merge rules to be well-defined.
#[derive(Debug)]
pub struct CatVec<T, const ORD: usize> {
    inner: Box<Node<T, ORD>>,
}

impl<T, const ORD: usize> CatVec<T, ORD> {
    /// The tree behind the vector is well-formed: every constructor
    /// establishes this and every operation preserves it.
    pub closed spec fn well_formed(self) -> bool {
        self.inner.wf_root()
    }
}

impl<T, const ORD: usize> View for CatVec<T, ORD> {
    type V = Seq<T>;

    closed spec fn view(&self) -> Seq<T> {
        self.inner.seqv()
    }
}

impl<T: Copy, const ORD: usize> CatVec<T, ORD> {
    /// Creates a new empty vector.
    pub fn new() -> (r: Self)
        requires
            4 <= ORD,
        ensures
            r.well_formed(),
            r@ == Seq::<T>::empty(),
    {
        CatVec { inner: Box::new(Node::new()) }
    }

    /// Number of elements.
    pub fn len(&self) -> (r: usize)
        requires
            self.well_formed(),
        ensures
            r == self@.len(),
    {
        self.inner.len()
    }

    /// A reference to the element at position `i`, or nothing when `i` is
    /// out of range.
    pub fn get(&self, i: usize) -> (r: Option<&T>)
        requires
            self.well_formed(),
        ensures
            match r {
                Some(v) => i < self@.len() && *v == self@[i as int],
                None => i >= self@.len(),
            },
    {
        self.inner.get(i)
    }

    /// Inserts `val` at position `idx`, shifting all later elements one
    /// place to the right.
    pub fn insert(&mut self, idx: usize, val: T)
        requires
            old(self).well_formed(),
            idx <= old(self)@.len(),
            old(self)@.len() < usize::MAX,
        ensures
            final(self).well_formed(),
            final(self)@ == old(self)@.insert(idx as int, val),
    {
        self.inner.insert(idx, val);
    }

    /// Appends `val` at the end of the vector.
    pub fn push_back(&mut self, val: T)
        requires
            old(self).well_formed(),
            old(self)@.len() < usize::MAX,
        ensures
            final(self).well_formed(),
            final(self)@ == old(self)@.push(val),
    {
        let ghost sv = self@;
        let len = self.len();
        self.insert(len, val);
        proof {
            assert(sv.insert(sv.len() as int, val) =~= sv.push(val));
        }
    }

    /// Keeps only the elements of the half-open range `[lo, hi)`: the vector
    /// "zooms into" that part of itself.
    pub fn slice_into(&mut self, lo: usize, hi: usize)
        requires
            old(self).well_formed(),
            lo <= hi <= old(self)@.len(),
        ensures
            final(self).well_formed(),
            final(self)@ == old(self)@.subrange(lo as int, hi as int),
    {
        let ghost sv = self@;
        self.inner.take_head(hi);
        self.inner.drop_head(lo);
        proof {
            assert(sv.take(hi as int).skip(lo as int) =~= sv.subrange(lo as int, hi as int));
        }
    }

    /// Appends all elements of `other`, consuming it.
    pub fn append(&mut self, other: Self)
        requires
            old(self).well_formed(),
            other.well_formed(),
            old(self)@.len() + other@.len() <= usize::MAX,
        ensures
            final(self).well_formed(),
            final(self)@ == old(self)@ + other@,
    {
        self.inner.concat(*other.inner);
    }

    /// Walks the whole tree and re-checks every structural invariant:
    /// occupancy bounds, cached subtree counts, uniform leaf depth, and the
    /// placement of the root marker.  For a value of this type the result is
    /// always `true`; the point is that it is established by running the
    /// check, not by trusting it.
    pub fn check_invariants(&self) -> (r: bool)
        requires
            self.well_formed(),
        ensures
            r,
    {
        self.inner.check_invariants()
    }

    /// Builds a vector from a dense slice by repeated `push_back`.
    pub fn from_slice(s: &[T]) -> (r: Self)
        requires
            4 <= ORD,
            s@.len() < usize::MAX,
        ensures
            r.well_formed(),
            r@ == s@,
    {
        let mut out = CatVec::new();
        let mut i: usize = 0;
        while i < s.len()
            invariant
                4 <= ORD,
                out.well_formed(),
                i <= s@.len() < usize::MAX,
                out@ == s@.take(i as int),
            decreases s@.len() - i,
        {
            let ghost before = out@;
            let x = s[i];
            out.push_back(x);
            i = i + 1;
            proof {
                assert(before.push(s@[i - 1]) =~= s@.take(i as int));
            }
        }
        proof {
            assert(s@.take(s@.len() as int) =~= s@);
        }
        out
    }

    /// Overwrites the element at position `i`, returning whether the
    /// position was in range.  This is the writing counterpart of `get`:
    /// the path down to the element is made uniquely owned before the
    /// write, so clones of the vector keep their old value.
    pub fn set(&mut self, i: usize, val: T) -> (r: bool)
        requires
            old(self).well_formed(),
        ensures
            final(self).well_formed(),
            r <==> i < old(self)@.len(),
            r ==> final(self)@ == old(self)@.update(i as int, val),
            !r ==> final(self)@ == old(self)@,
    {
        self.inner.set(i, val)
    }

    /// The underlying tree, for diagnostic inspection and rendering.
    pub fn tree(&self) -> (r: &Node<T, ORD>)
        ensures
            r.seqv() == self@,
            self.well_formed() ==> r.wf_root(),
    {
        &self.inner
    }

    /// Drains the vector into a dense `Vec` by indexed reads.
    pub fn to_vec(&self) -> (r: Vec<T>)
        requires
            self.well_formed(),
        ensures
            r@ == self@,
    {
        let mut out: Vec<T> = Vec::new();
        let n = self.len();
        let mut i: usize = 0;
        while i < n
            invariant
                self.well_formed(),
                n == self@.len(),
                i <= n,
                out@ == self@.take(i as int),
            decreases n - i,
        {
            let ghost before = out@;
            match self.get(i) {
                Some(v) => out.push(*v),
                None => vstd::pervasive::unreached(),
            }
            i = i + 1;
            proof {
                assert(before.push(self@[i - 1]) =~= self@.take(i as int));
            }
        }
        proof {
            assert(self@.take(n as int) =~= self@);
        }
        out
    }
}

impl<T: Copy + PartialEq, const ORD: usize> CatVec<T, ORD> {
    /// True exactly when the lengths match and the elements at every
    /// position compare equal, position by position.
    pub fn equals(&self, other: &Self) -> (r: bool)
        requires
            self.well_formed(),
            other.well_formed(),
        ensures
            T::obeys_eq_spec() ==> (r <==> (self@.len() == other@.len() && (forall|i: int|
                0 <= i < self@.len() ==> self@[i].eq_spec(&other@[i])))),
    {
        let n = self.len();
        if n != other.len() {
            return false;
        }
        let mut i: usize = 0;
        while i < n
            invariant
                self.well_formed(),
                other.well_formed(),
                n == self@.len(),
                n == other@.len(),
                i <= n,
                T::obeys_eq_spec() ==> forall|j: int|
                    0 <= j < i ==> self@[j].eq_spec(&other@[j]),
            decreases n - i,
        {
            let a = match self.get(i) {
                Some(v) => v,
                None => vstd::pervasive::unreached(),
            };
            let b = match other.get(i) {
                Some(v) => v,
                None => vstd::pervasive::unreached(),
            };
            if !(*a == *b) {
                return false;
            }
            i = i + 1;
        }
        true
    }
}

/// The insert-shift law: after inserting `v` at position `i`, position `i`
/// holds `v`, every earlier position is unchanged, and every element from
/// position `i` on moves one place to the right.
pub proof fn lemma_insert_shift<A>(s: Seq<A>, i: int, v: A)
    requires
        0 <= i <= s.len(),
    ensures
        s.insert(i, v).len() == s.len() + 1,
        s.insert(i, v)[i] == v,
        forall|j: int| 0 <= j < i ==> s.insert(i, v)[j] == s[j],
        forall|j: int| i <= j < s.len() ==> s.insert(i, v)[j + 1] == s[j],
{
    s.insert_ensures(i, v);
}

/// The equality law: whenever the element equality agrees with logical
/// equality, position-wise comparison of two vectors (what `equals`
/// computes) holds exactly when their dense forms are equal — from which
/// reflexivity and symmetry follow.
pub proof fn lemma_equals_is_dense_equality<T: Copy + PartialEq, const ORD: usize>(
    a: CatVec<T, ORD>,
    b: CatVec<T, ORD>,
)
    requires
        forall|x: T, y: T| #[trigger] x.eq_spec(&y) <==> x == y,
    ensures
        (a@.len() == b@.len() && (forall|i: int| 0 <= i < a@.len() ==> a@[i].eq_spec(&b@[i])))
            <==> a@ == b@,
        a@ == a@,
        (a@ == b@) <==> (b@ == a@),
{
    if a@.len() == b@.len() && (forall|i: int|
        0 <= i < a@.len() ==> a@[i].eq_spec(&b@[i])) {
        assert forall|i: int| 0 <= i < a@.len() implies a@[i] == b@[i] by {
            assert(a@[i].eq_spec(&b@[i]));
        }
        assert(a@ =~= b@);
    }
}

impl<T: Copy, const ORD: usize> Clone for CatVec<T, ORD> {
    /// A structural-sharing clone: only the root node is copied, the
    /// subtrees below it are shared, and the copy-on-write discipline keeps
    /// later mutations of either side invisible to the other.
    fn clone(&self) -> (r: Self)
        ensures
            self.well_formed() ==> r.well_formed(),
            r@ == self@,
    {
        CatVec { inner: Box::new((*self.inner).clone()) }
    }
}

} // verus!
