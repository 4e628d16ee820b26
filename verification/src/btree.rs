use vstd::prelude::*;

use std::sync::Arc;

verus! {

use vstd::pervasive::cloned;

/// A node of a relative-indexed B+tree with fanout `ORD`: either an internal
/// routing node or a leaf holding a bounded array of elements.  All elements
/// live in the leaves; internal nodes cache the element count of their
/// subtree, so a position can be resolved by scanning prefix sums.
#[derive(Debug)]
pub enum Tree<T, const ORD: usize> {
    Internal(Internal<T, ORD>),
    Array(Vec<T>),
}

/// An internal node: the cached subtree element count, the ordered list of
/// child handles (reference-counted, so whole subtrees can be shared between
/// clones), and a flag marking the unique root of the tree.
#[derive(Debug)]
pub struct Internal<T, const ORD: usize> {
    pub length: usize,
    pub children: Vec<Arc<Tree<T, ORD>>>,
    pub root: bool,
}

impl<T, const ORD: usize> Tree<T, ORD> {
    /// The logical sequence stored in this subtree.
    pub open spec fn seqv(self) -> Seq<T>
        decreases self,
    {
        match self {
            Tree::Array(items) => items@,
            Tree::Internal(node) => Tree::seq_pre(node.children@, node.children@.len() as int),
        }
    }

    /// Concatenation of the sequences of the first `n` children.
    pub open spec fn seq_pre(cs: Seq<Arc<Tree<T, ORD>>>, n: int) -> Seq<T>
        decreases cs, n,
    {
        if n <= 0 {
            Seq::empty()
        } else {
            Tree::seq_pre(cs, n - 1) + (if n <= cs.len() {
                cs[n - 1].seqv()
            } else {
                Seq::empty()
            })
        }
    }

    /// Height of the node: 0 for a leaf, one more than the leftmost child
    /// otherwise.  Well-formed trees keep every leaf at the same depth, so the
    /// leftmost spine determines the height of the whole subtree.
    pub open spec fn hgt(self) -> nat
        decreases self,
    {
        match self {
            Tree::Array(_) => 0,
            Tree::Internal(node) => 1 + (if node.children@.len() > 0 {
                node.children@[0].hgt()
            } else {
                0
            }),
        }
    }

    /// Number of immediate children (elements, for a leaf).
    pub open spec fn cnt(self) -> nat {
        match self {
            Tree::Array(items) => items@.len(),
            Tree::Internal(node) => node.children@.len(),
        }
    }

    pub open spec fn is_leaf(self) -> bool {
        self is Array
    }

    /// Minimum occupancy required of child `i` out of `cnt`, when the left
    /// (`l`) or right (`r`) spine of the subtree is allowed to be under-full.
    pub open spec fn cmin(l: bool, r: bool, i: int, cnt: int) -> nat {
        if (l && i == 0) || (r && i == cnt - 1) {
            0
        } else {
            (ORD / 2) as nat
        }
    }

    /// Well-formedness of a non-root node required to hold at least `min`
    /// children.  `l` (resp. `r`) relaxes the minimum-occupancy rule along the
    /// left (resp. right) spine of the subtree, which is the transient state
    /// between a truncation or a concatenation and the rebalance pass that
    /// repairs that spine.
    pub open spec fn wf_in(self, min: nat, l: bool, r: bool) -> bool
        decreases self,
    {
        match self {
            Tree::Array(items) => min <= items@.len() && items@.len() <= ORD,
            Tree::Internal(node) => {
                let cs = node.children@;
                &&& !node.root
                &&& min <= cs.len() && cs.len() <= ORD
                &&& node.length == Tree::seq_pre(cs, cs.len() as int).len()
                &&& (forall|i: int|
                    0 <= i < cs.len() ==> (#[trigger] cs[i]).wf_in(
                        Self::cmin(l, r, i, cs.len() as int),
                        l && i == 0,
                        r && i == cs.len() - 1,
                    ))
                &&& (forall|i: int| 0 <= i < cs.len() ==> (#[trigger] cs[i]).hgt() == cs[0].hgt())
            },
        }
    }

    /// A clean non-root subtree: minimum occupancy everywhere.
    pub open spec fn wf(self) -> bool {
        self.wf_in((ORD / 2) as nat, false, false)
    }

    /// Well-formedness of a whole tree.  The topmost node is an internal node
    /// marked as the root; it may hold as few as one child, in which case that
    /// child is a leaf (the canonical form of a small or empty sequence).
    pub open spec fn wf_root(self) -> bool {
        match self {
            Tree::Internal(node) => {
                let cs = node.children@;
                &&& 4 <= ORD
                &&& node.root
                &&& 1 <= cs.len() && cs.len() <= ORD
                &&& node.length == Tree::seq_pre(cs, cs.len() as int).len()
                &&& (cs.len() == 1 ==> cs[0].is_leaf())
                &&& (forall|i: int|
                    0 <= i < cs.len() ==> (#[trigger] cs[i]).wf_in(
                        if cs.len() == 1 {
                            0
                        } else {
                            (ORD / 2) as nat
                        },
                        false,
                        false,
                    ))
                &&& (forall|i: int| 0 <= i < cs.len() ==> (#[trigger] cs[i]).hgt() == cs[0].hgt())
            },
            Tree::Array(_) => false,
        }
    }

    /// The occupancy and height conditions on a child list, with the
    /// left/right spine relaxations `l` and `r` — the children-level part of
    /// `wf_in`, shared by the root (whose own occupancy rule differs).
    pub open spec fn kids_ok(cs: Seq<Arc<Tree<T, ORD>>>, l: bool, r: bool) -> bool {
        &&& (forall|i: int|
            0 <= i < cs.len() ==> (#[trigger] cs[i]).wf_in(
                Self::cmin(l, r, i, cs.len() as int),
                l && i == 0,
                r && i == cs.len() - 1,
            ))
        &&& (forall|i: int| 0 <= i < cs.len() ==> (#[trigger] cs[i]).hgt() == cs[0].hgt())
    }

    /// The state of a non-root subtree after one spine of it has been
    /// repaired (`is_right` says which): every occupancy demand holds again
    /// along that spine, except that a stack of single-child nodes may remain
    /// at the top — the root collapses those levels afterwards.  `other`
    /// says whether the opposite spine is still allowed to be under-full.
    pub open spec fn repaired(self, is_right: bool, other: bool) -> bool
        decreases self,
    {
        if self is Internal && self.cnt() == 1 {
            let node = self->Internal_0;
            &&& !node.root
            &&& node.length == Tree::seq_pre(node.children@, 1).len()
            &&& node.children@[0].repaired(is_right, other)
            &&& node.children@[0].hgt() + 1 == self.hgt()
        } else {
            if is_right {
                self.wf_in(0, other, false)
            } else {
                self.wf_in(0, false, other)
            }
        }
    }

    /// A subtree whose repaired-side spine is already clean is repaired.
    pub proof fn lemma_wf_repaired(self, is_right: bool, other: bool)
        requires
            is_right ==> self.wf_in(0, other, false),
            !is_right ==> self.wf_in(0, false, other),
        ensures
            self.repaired(is_right, other),
        decreases self,
    {
        if self is Internal && self.cnt() == 1 {
            let node = self->Internal_0;
            let cs = node.children@;
            assert(cs[0].wf_in(
                Tree::<T, ORD>::cmin(
                    if is_right {
                        other
                    } else {
                        false
                    },
                    if is_right {
                        false
                    } else {
                        other
                    },
                    0,
                    1,
                ),
                if is_right {
                    other
                } else {
                    false
                },
                if is_right {
                    false
                } else {
                    other
                },
            ));
            assert(cs[0].repaired(is_right, other)) by {
                (*cs[0]).lemma_wf_weaken(
                    Tree::<T, ORD>::cmin(
                        if is_right {
                            other
                        } else {
                            false
                        },
                        if is_right {
                            false
                        } else {
                            other
                        },
                        0,
                        1,
                    ),
                    if is_right {
                        other
                    } else {
                        false
                    },
                    if is_right {
                        false
                    } else {
                        other
                    },
                    0,
                    if is_right {
                        other
                    } else {
                        false
                    },
                    if is_right {
                        false
                    } else {
                        other
                    },
                );
                (*cs[0]).lemma_wf_repaired(is_right, other);
            }
        }
    }

    /// Like `wf_root`, but the minimum-occupancy rule may be suspended along
    /// the left (`l`) or right (`r`) spine, and a lone child need not be a
    /// leaf yet: the state of a whole tree between a truncation or a
    /// concatenation and the rebalance pass.
    pub open spec fn wf_root_loose(self, l: bool, r: bool) -> bool {
        match self {
            Tree::Internal(node) => {
                let cs = node.children@;
                &&& 4 <= ORD
                &&& node.root
                &&& 1 <= cs.len() && cs.len() <= ORD
                &&& node.length == Tree::seq_pre(cs, cs.len() as int).len()
                &&& (forall|i: int|
                    0 <= i < cs.len() ==> (#[trigger] cs[i]).wf_in(
                        if cs.len() == 1 {
                            0
                        } else {
                            Self::cmin(l, r, i, cs.len() as int)
                        },
                        l && i == 0,
                        r && i == cs.len() - 1,
                    ))
                &&& (forall|i: int| 0 <= i < cs.len() ==> (#[trigger] cs[i]).hgt() == cs[0].hgt())
            },
            Tree::Array(_) => false,
        }
    }

    /// Whether this node is marked as the root of the whole tree.
    pub open spec fn rootish(self) -> bool {
        match self {
            Tree::Internal(node) => node.root,
            Tree::Array(_) => false,
        }
    }

    /// The sequence stored by the children from position `j` on.
    pub open spec fn tailseq(cs: Seq<Arc<Tree<T, ORD>>>, j: int) -> Seq<T> {
        Tree::seq_pre(cs.subrange(j, cs.len() as int), cs.len() - j)
    }

    /// The sequence stored by child `i` alone.
    pub open spec fn child_seq(cs: Seq<Arc<Tree<T, ORD>>>, i: int) -> Seq<T> {
        cs[i].seqv()
    }

    /// Prefixes of the child list contribute prefixes of the sequence: only
    /// the sequences of the first `n` children matter for `seq_pre(_, n)`.
    pub proof fn lemma_seq_pre_congruent(
        cs1: Seq<Arc<Tree<T, ORD>>>,
        cs2: Seq<Arc<Tree<T, ORD>>>,
        n: int,
    )
        requires
            0 <= n <= cs1.len(),
            n <= cs2.len(),
            forall|i: int| 0 <= i < n ==> (#[trigger] cs1[i]).seqv() == cs2[i].seqv(),
        ensures
            Tree::seq_pre(cs1, n) == Tree::seq_pre(cs2, n),
        decreases n,
    {
        if n > 0 {
            Self::lemma_seq_pre_congruent(cs1, cs2, n - 1);
        }
    }

    /// Splitting the child list splits the sequence.
    pub proof fn lemma_seq_pre_split(cs: Seq<Arc<Tree<T, ORD>>>, m: int, n: int)
        requires
            0 <= m <= n <= cs.len(),
        ensures
            Tree::seq_pre(cs, n) == Tree::seq_pre(cs, m) + Tree::seq_pre(
                cs.subrange(m, cs.len() as int),
                n - m,
            ),
        decreases n - m,
    {
        let tail = cs.subrange(m, cs.len() as int);
        if n == m {
            assert(Tree::seq_pre(cs, m) + Tree::seq_pre(tail, 0) =~= Tree::seq_pre(cs, m));
        } else {
            Self::lemma_seq_pre_split(cs, m, n - 1);
            assert(tail[n - m - 1] == cs[n - 1]);
            assert(Tree::seq_pre(cs, m) + Tree::seq_pre(tail, n - 1 - m) + cs[n - 1].seqv()
                =~= Tree::seq_pre(cs, m) + (Tree::seq_pre(tail, n - 1 - m) + cs[n - 1].seqv()));
        }
    }

    /// The sequence decomposes around any one child.
    pub proof fn lemma_seq_pre_decompose(cs: Seq<Arc<Tree<T, ORD>>>, i: int)
        requires
            0 <= i < cs.len(),
        ensures
            Tree::seq_pre(cs, cs.len() as int) == Tree::seq_pre(cs, i) + cs[i].seqv()
                + Tree::seq_pre(cs.subrange(i + 1, cs.len() as int), cs.len() - i - 1),
    {
        let len = cs.len() as int;
        let tail = cs.subrange(i + 1, len);
        Self::lemma_seq_pre_split(cs, i + 1, len);
        assert(Tree::seq_pre(cs, i + 1) == Tree::seq_pre(cs, i) + cs[i].seqv());
        assert(Tree::seq_pre(cs, i) + cs[i].seqv() + Tree::seq_pre(tail, len - i - 1)
            =~= (Tree::seq_pre(cs, i) + cs[i].seqv()) + Tree::seq_pre(tail, len - i - 1));
    }

    /// Replacing the children `i..j` of `cs0` by the children `i..k` of `cs2`
    /// (prefix and tail kept) splices the stored sequence accordingly.
    pub proof fn lemma_splice(
        cs0: Seq<Arc<Tree<T, ORD>>>,
        cs2: Seq<Arc<Tree<T, ORD>>>,
        i: int,
        j: int,
        k: int,
    )
        requires
            0 <= i <= j <= cs0.len(),
            i <= k <= cs2.len(),
            cs2.len() - k == cs0.len() - j,
            forall|t: int| 0 <= t < i ==> (#[trigger] cs2[t]).seqv() == cs0[t].seqv(),
            forall|t: int|
                0 <= t < cs0.len() - j ==> (#[trigger] cs2[k + t]).seqv() == cs0[j + t].seqv(),
        ensures
            Tree::seq_pre(cs2, cs2.len() as int) == Tree::seq_pre(cs0, i) + Tree::seq_pre(
                cs2.subrange(i, k),
                k - i,
            ) + Tree::tailseq(cs0, j),
    {
        let len2 = cs2.len() as int;
        let len0 = cs0.len() as int;
        Self::lemma_seq_pre_split(cs2, i, len2);
        Self::lemma_seq_pre_congruent(cs2, cs0, i);
        let mid_tail = cs2.subrange(i, len2);
        Self::lemma_seq_pre_split(mid_tail, k - i, len2 - i);
        Self::lemma_seq_pre_congruent(mid_tail, cs2.subrange(i, k), k - i);
        let t2 = mid_tail.subrange(k - i, len2 - i);
        let t0 = cs0.subrange(j, len0);
        assert forall|t: int| 0 <= t < len0 - j implies (#[trigger] t2[t]).seqv() == t0[t].seqv() by {
            assert(t2[t] == cs2[k + t]);
            assert(t0[t] == cs0[j + t]);
        }
        Self::lemma_seq_pre_congruent(t2, t0, len0 - j);
        assert(Tree::seq_pre(cs2, len2) =~= Tree::seq_pre(cs0, i) + Tree::seq_pre(
            cs2.subrange(i, k),
            k - i,
        ) + Tree::tailseq(cs0, j));
    }

    /// The stored sequence splits around any contiguous run of children.
    pub proof fn lemma_seq_pre_range(cs: Seq<Arc<Tree<T, ORD>>>, i: int, j: int)
        requires
            0 <= i <= j <= cs.len(),
        ensures
            Tree::seq_pre(cs, cs.len() as int) == Tree::seq_pre(cs, i) + Tree::seq_pre(
                cs.subrange(i, j),
                j - i,
            ) + Tree::tailseq(cs, j),
    {
        Self::lemma_splice(cs, cs, i, j, j);
    }

    /// Concatenating two child lists concatenates their sequences.
    pub proof fn lemma_seq_pre_concat(cs1: Seq<Arc<Tree<T, ORD>>>, cs2: Seq<Arc<Tree<T, ORD>>>)
        ensures
            Tree::seq_pre(cs1 + cs2, cs1.len() as int + cs2.len() as int) == Tree::seq_pre(cs1, cs1.len() as int)
                + Tree::seq_pre(cs2, cs2.len() as int),
    {
        let both = cs1 + cs2;
        let l1 = cs1.len() as int;
        let l2 = cs2.len() as int;
        Self::lemma_seq_pre_split(both, l1, l1 + l2);
        assert forall|i: int| 0 <= i < l1 implies (#[trigger] both[i]).seqv() == cs1[i].seqv() by {
            assert(both[i] == cs1[i]);
        }
        Self::lemma_seq_pre_congruent(both, cs1, l1);
        let tail = both.subrange(l1, l1 + l2);
        assert forall|i: int| 0 <= i < l2 implies (#[trigger] tail[i]).seqv() == cs2[i].seqv() by {
            assert(tail[i] == both[l1 + i]);
            assert(both[l1 + i] == cs2[i]);
        }
        Self::lemma_seq_pre_congruent(tail, cs2, l2);
    }

    /// A node's own minimum occupancy can be raised up to its actual count.
    pub proof fn lemma_wf_strengthen(self, min1: nat, min2: nat, l: bool, r: bool)
        requires
            self.wf_in(min1, l, r),
            min2 <= self.cnt(),
        ensures
            self.wf_in(min2, l, r),
    {
        match self {
            Tree::Array(_) => {},
            Tree::Internal(_) => {},
        }
    }

    /// A clean subtree with a positive occupancy demand stores something.
    pub proof fn lemma_wf_len_pos(self, min: nat)
        requires
            self.wf_in(min, false, false),
            min >= 1,
            4 <= ORD,
        ensures
            self.seqv().len() >= 1,
        decreases self,
    {
        match self {
            Tree::Array(_) => {},
            Tree::Internal(node) => {
                let cs = node.children@;
                assert(cs[0].seqv().len() >= 1) by {
                    (*cs[0]).lemma_wf_len_pos((ORD / 2) as nat);
                }
                Self::lemma_seq_pre_split(cs, 1, cs.len() as int);
                assert(Tree::seq_pre(cs, 1) == Tree::seq_pre(cs, 0) + cs[0].seqv());
            },
        }
    }

    /// A whole tree is also a loose whole tree, for any spine relaxations.
    pub proof fn lemma_root_loosen(self, l: bool, r: bool)
        requires
            self.wf_root(),
        ensures
            self.wf_root_loose(l, r),
    {
        match self {
            Tree::Array(_) => {},
            Tree::Internal(node) => {
                let cs = node.children@;
                assert forall|i: int| 0 <= i < cs.len() implies (#[trigger] cs[i]).wf_in(
                    if cs.len() == 1 {
                        0
                    } else {
                        Self::cmin(l, r, i, cs.len() as int)
                    },
                    l && i == 0,
                    r && i == cs.len() - 1,
                ) by {
                    (*cs[i]).lemma_wf_weaken(
                        if cs.len() == 1 {
                            0
                        } else {
                            (ORD / 2) as nat
                        },
                        false,
                        false,
                        if cs.len() == 1 {
                            0
                        } else {
                            Self::cmin(l, r, i, cs.len() as int)
                        },
                        l && i == 0,
                        r && i == cs.len() - 1,
                    );
                }
            },
        }
    }

    /// Helper: a clean subtree of minimum occupancy stores at least its
    /// height worth of elements.
    proof fn lemma_wf_bound_help(self)
        requires
            self.wf_in((ORD / 2) as nat, false, false),
            4 <= ORD,
        ensures
            self.seqv().len() >= self.hgt(),
        decreases self,
    {
        match self {
            Tree::Array(_) => {},
            Tree::Internal(node) => {
                let cs = node.children@;
                assert(cs[0].hgt() + 1 == self.hgt());
                assert(cs[0].seqv().len() >= cs[0].hgt()) by {
                    (*cs[0]).lemma_wf_bound_help();
                }
                Self::lemma_seq_pre_split(cs, 2, cs.len() as int);
                assert(Tree::seq_pre(cs, 2) == Tree::seq_pre(cs, 1) + cs[1].seqv());
                assert(Tree::seq_pre(cs, 1) == Tree::seq_pre(cs, 0) + cs[0].seqv());
                assert(cs[1].seqv().len() >= 1) by {
                    (*cs[1]).lemma_wf_len_pos((ORD / 2) as nat);
                }
            },
        }
    }

    /// A whole tree is not much taller than it is long.
    pub proof fn lemma_hgt_bound_root(self)
        requires
            self.wf_root(),
        ensures
            self.hgt() <= self.seqv().len() + 1,
    {
        match self {
            Tree::Array(_) => {},
            Tree::Internal(node) => {
                let cs = node.children@;
                assert(cs[0].hgt() + 1 == self.hgt());
                assert(Tree::seq_pre(cs, 1) == Tree::seq_pre(cs, 0) + cs[0].seqv());
                if cs.len() == 1 {
                    assert(cs[0].hgt() == 0);
                } else {
                    assert(cs[0].seqv().len() >= cs[0].hgt()) by {
                        (*cs[0]).lemma_wf_bound_help();
                    }
                    Self::lemma_seq_pre_split(cs, 1, cs.len() as int);
                }
            },
        }
    }

    /// Relaxing the occupancy demands preserves well-formedness.
    pub proof fn lemma_wf_weaken(self, min1: nat, l1: bool, r1: bool, min2: nat, l2: bool, r2: bool)
        requires
            self.wf_in(min1, l1, r1),
            min2 <= min1,
            l1 ==> l2,
            r1 ==> r2,
        ensures
            self.wf_in(min2, l2, r2),
        decreases self,
    {
        match self {
            Tree::Array(_) => {},
            Tree::Internal(node) => {
                let cs = node.children@;
                assert forall|i: int| 0 <= i < cs.len() implies (#[trigger] cs[i]).wf_in(
                    Self::cmin(l2, r2, i, cs.len() as int),
                    l2 && i == 0,
                    r2 && i == cs.len() - 1,
                ) by {
                    (*cs[i]).lemma_wf_weaken(
                        Self::cmin(l1, r1, i, cs.len() as int),
                        l1 && i == 0,
                        r1 && i == cs.len() - 1,
                        Self::cmin(l2, r2, i, cs.len() as int),
                        l2 && i == 0,
                        r2 && i == cs.len() - 1,
                    );
                }
            },
        }
    }
}

/// Dropping a prefix that ends inside `b` distributes over concatenation.
pub proof fn lemma_seq_skip_concat<A>(a: Seq<A>, b: Seq<A>, c: Seq<A>, k: int)
    requires
        a.len() <= k <= a.len() + b.len(),
    ensures
        (a + b + c).skip(k) == b.skip(k - a.len()) + c,
{
    assert((a + b + c).skip(k) =~= b.skip(k - a.len()) + c);
}

/// Keeping a prefix that ends inside `b` distributes over concatenation.
pub proof fn lemma_seq_take_concat<A>(a: Seq<A>, b: Seq<A>, c: Seq<A>, k: int)
    requires
        a.len() <= k <= a.len() + b.len(),
    ensures
        (a + b + c).take(k) == a + b.take(k - a.len()),
{
    assert((a + b + c).take(k) =~= a + b.take(k - a.len()));
}

/// Updating a position that falls inside `b` distributes over concatenation.
pub proof fn lemma_seq_update_concat<A>(a: Seq<A>, b: Seq<A>, c: Seq<A>, k: int)
    requires
        a.len() <= k < a.len() + b.len(),
    ensures
        forall|v: A| #[trigger] (a + b + c).update(k, v) == a + b.update(k - a.len(), v) + c,
{
    assert forall|v: A| #[trigger] (a + b + c).update(k, v) == a + b.update(k - a.len(), v)
        + c by {
        assert((a + b + c).update(k, v) =~= a + b.update(k - a.len(), v) + c);
    }
}

/// Inserting on the left part distributes over concatenation.
pub proof fn lemma_seq_insert_left<A>(a: Seq<A>, b: Seq<A>, k: int, v: A)
    requires
        0 <= k <= a.len(),
    ensures
        (a + b).insert(k, v) == a.insert(k, v) + b,
{
    (a + b).insert_ensures(k, v);
    a.insert_ensures(k, v);
    assert((a + b).insert(k, v) =~= a.insert(k, v) + b);
}

/// Inserting on the right part distributes over concatenation.
pub proof fn lemma_seq_insert_right<A>(a: Seq<A>, b: Seq<A>, k: int, v: A)
    requires
        a.len() <= k <= a.len() + b.len(),
    ensures
        (a + b).insert(k, v) == a + b.insert(k - a.len(), v),
{
    (a + b).insert_ensures(k, v);
    b.insert_ensures(k - a.len(), v);
    assert((a + b).insert(k, v) =~= a + b.insert(k - a.len(), v));
}

impl<T: Copy, const ORD: usize> Tree<T, ORD> {
    /// Creates the canonical empty tree: a root holding one empty leaf.
    pub fn new() -> (r: Self)
        requires
            4 <= ORD,
        ensures
            r.wf_root(),
            r.seqv() == Seq::<T>::empty(),
            r.hgt() == 1,
    {
        let mut children: Vec<Arc<Tree<T, ORD>>> = Vec::new();
        children.push(Arc::new(Tree::Array(Vec::new())));
        proof {
            assert(children@[0].seqv() =~= Seq::<T>::empty());
            assert(children@[0].hgt() == 0);
            assert(Tree::seq_pre(children@, 0) == Seq::<T>::empty());
            assert(Tree::seq_pre(children@, 1) =~= Seq::<T>::empty());
        }
        let r = Tree::Internal(Internal { length: 0, children, root: true });
        proof {
            assert(r.seqv() =~= Seq::<T>::empty());
        }
        r
    }

    /// Number of elements stored in this subtree.
    pub fn len(&self) -> (r: usize)
        requires
            self.wf_in(0, true, true) || self.wf_root(),
        ensures
            r == self.seqv().len(),
    {
        match self {
            Tree::Internal(node) => node.length,
            Tree::Array(items) => items.len(),
        }
    }

    /// Height of the subtree, by walking the leftmost spine.
    fn height(&self) -> (r: usize)
        requires
            self.hgt() <= usize::MAX,
        ensures
            r == self.hgt(),
        decreases self.hgt(),
    {
        match self {
            Tree::Array(_) => 0,
            Tree::Internal(node) => {
                if node.children.len() == 0 {
                    1
                } else {
                    let child = &*node.children[0];
                    1 + child.height()
                }
            },
        }
    }

    /// Returns the element at position `key`, or nothing when `key` is out of
    /// range.  A pure read: no copy-on-write happens on the descent.
    pub fn get(&self, key: usize) -> (r: Option<&T>)
        requires
            self.wf_in(0, true, true) || self.wf_root(),
        ensures
            match r {
                Some(v) => key < self.seqv().len() && *v == self.seqv()[key as int],
                None => key >= self.seqv().len(),
            },
        decreases self.hgt(),
    {
        match self {
            Tree::Array(items) => {
                if key < items.len() {
                    Some(&items[key])
                } else {
                    None
                }
            },
            Tree::Internal(node) => {
                let ghost cs = node.children@;
                if key >= node.length {
                    return None;
                }
                proof {
                    assert forall|i: int| 0 <= i < cs.len() implies (#[trigger] cs[i]).wf_in(
                        0,
                        true,
                        true,
                    ) by {
                        if self.wf_in(0, true, true) {
                            (*cs[i]).lemma_wf_weaken(
                                Tree::<T, ORD>::cmin(true, true, i, cs.len() as int),
                                i == 0,
                                i == cs.len() - 1,
                                0,
                                true,
                                true,
                            );
                        } else {
                            (*cs[i]).lemma_wf_weaken(
                                if cs.len() == 1 {
                                    0
                                } else {
                                    (ORD / 2) as nat
                                },
                                false,
                                false,
                                0,
                                true,
                                true,
                            );
                        }
                    }
                }
                let (idx, offset) = node.key_to_idx_and_offset(key);
                proof {
                    Tree::lemma_seq_pre_decompose(cs, idx as int);
                }
                let child = &*node.children[idx];
                let res = child.get(key - offset);
                proof {
                    assert(self.seqv()[key as int] == child.seqv()[key - offset]);
                }
                res
            },
        }
    }

    /// A copy of this one node; the children of an internal node are shared
    /// with the original through their reference-counted handles, which is
    /// what makes whole-tree cloning cheap.
    fn dup(&self) -> (r: Self)
        ensures
            r.seqv() == self.seqv(),
            r.hgt() == self.hgt(),
            r.cnt() == self.cnt(),
            r is Internal <==> self is Internal,
            forall|min: nat, l: bool, rr: bool|
                self.wf_in(min, l, rr) ==> #[trigger] r.wf_in(min, l, rr),
            forall|ir: bool, ot: bool| self.repaired(ir, ot) ==> #[trigger] r.repaired(ir, ot),
            self.wf_root() ==> r.wf_root(),
    {
        match self {
            Tree::Array(items) => {
                let mut items2: Vec<T> = Vec::new();
                let mut i: usize = 0;
                while i < items.len()
                    invariant
                        i <= items.len(),
                        items2@.len() == i,
                        forall|j: int| 0 <= j < i ==> items2@[j] == items@[j],
                    decreases items.len() - i,
                {
                    let x: T = items[i];
                    items2.push(x);
                    i = i + 1;
                }
                proof {
                    assert(items2@ =~= items@);
                }
                Tree::Array(items2)
            },
            Tree::Internal(node) => {
                let mut cs2: Vec<Arc<Tree<T, ORD>>> = Vec::new();
                let mut i: usize = 0;
                while i < node.children.len()
                    invariant
                        i <= node.children.len(),
                        cs2@.len() == i,
                        forall|j: int| 0 <= j < i ==> cs2@[j] == node.children@[j],
                    decreases node.children.len() - i,
                {
                    let a = &node.children[i];
                    cs2.push(a.clone());
                    i = i + 1;
                }
                proof {
                    assert(cs2@ =~= node.children@);
                }
                Tree::Internal(Internal { length: node.length, children: cs2, root: node.root })
            },
        }
    }
}

impl<T: Copy, const ORD: usize> Tree<T, ORD> {
    /// Sum of the element counts of the given children.
    fn sum_lens(cs: &Vec<Arc<Tree<T, ORD>>>) -> (r: usize)
        requires
            forall|i: int| 0 <= i < cs@.len() ==> (#[trigger] cs@[i]).wf_in(0, true, true),
            Tree::seq_pre(cs@, cs@.len() as int).len() <= usize::MAX,
        ensures
            r == Tree::seq_pre(cs@, cs@.len() as int).len(),
    {
        let mut i: usize = 0;
        let mut acc: usize = 0;
        while i < cs.len()
            invariant
                i <= cs@.len(),
                acc == Tree::seq_pre(cs@, i as int).len(),
                forall|t: int| 0 <= t < cs@.len() ==> (#[trigger] cs@[t]).wf_in(0, true, true),
                Tree::seq_pre(cs@, cs@.len() as int).len() <= usize::MAX,
            decreases cs@.len() - i,
        {
            proof {
                Tree::lemma_seq_pre_split(cs@, i as int + 1, cs@.len() as int);
            }
            let cl = (&*cs[i]).len();
            acc = acc + cl;
            i = i + 1;
        }
        acc
    }

    /// Inserts `value` at position `key` of a leaf's element array, splitting
    /// a full leaf at its midpoint.
    fn ins_leaf(items: Vec<T>, key: usize, value: T) -> (r: (Vec<T>, Option<Vec<T>>))
        requires
            4 <= ORD,
            items@.len() <= ORD,
            key <= items@.len(),
        ensures
            r.1 is None <==> items@.len() < ORD,
            r.1 is None ==> r.0@ == items@.insert(key as int, value),
            r.1 matches Some(rt) ==> r.0@ + rt@ == items@.insert(key as int, value)
                && ORD / 2 <= r.0@.len() <= ORD && ORD / 2 <= rt@.len() <= ORD,
    {
        let mut items = items;
        proof {
            items@.insert_ensures(key as int, value);
        }
        if items.len() < ORD {
            items.insert(key, value);
            (items, None)
        } else {
            let ghost iv0 = items@;
            let split_point: usize = items.len() / 2;
            let mut right_items = items.split_off(split_point);
            if key >= split_point {
                right_items.insert(key - split_point, value);
            } else {
                items.insert(key, value);
            }
            proof {
                let a = iv0.subrange(0, split_point as int);
                let b = iv0.subrange(split_point as int, iv0.len() as int);
                assert(a + b =~= iv0);
                if key >= split_point {
                    lemma_seq_insert_right(a, b, key as int, value);
                } else {
                    lemma_seq_insert_left(a, b, key as int, value);
                }
            }
            (items, Some(right_items))
        }
    }

    /// Inserts into an internal node that still has room for one more child:
    /// the affected child is made uniquely owned, the insertion recurses into
    /// it, and a split-off sibling, if any, is adopted right next to it.
    #[verifier::rlimit(100)]
    fn ins_nonfull(
        n: Internal<T, ORD>,
        key: usize,
        value: T,
        Ghost(was_root): Ghost<bool>,
        Ghost(lo): Ghost<nat>,
    ) -> (res: Tree<T, ORD>)
        requires
            4 <= ORD,
            n.children@.len() < ORD,
            was_root ==> Tree::Internal(n).wf_root(),
            !was_root ==> Tree::Internal(n).wf_in(lo, false, false) && 1 <= n.children@.len(),
            key <= Tree::Internal(n).seqv().len(),
            Tree::Internal(n).seqv().len() < usize::MAX,
        ensures
            res is Internal,
            res.hgt() == Tree::Internal(n).hgt(),
            was_root ==> res.wf_root(),
            !was_root ==> res.wf_in(lo, false, false),
            res.seqv() == Tree::Internal(n).seqv().insert(key as int, value),
        decreases Tree::Internal(n).hgt(), 0int,
    {
        let mut n = n;
        let ghost cs0 = n.children@;
        let ghost len0 = cs0.len() as int;
        let ghost sv0 = Tree::seq_pre(cs0, len0);
        let ghost h0 = Tree::Internal(n).hgt();
        proof {
            sv0.insert_ensures(key as int, value);
            assert forall|i: int| 0 <= i < len0 implies (#[trigger] cs0[i]).wf_in(0, true, true) by {
                if was_root {
                    (*cs0[i]).lemma_wf_weaken(
                        if len0 == 1 {
                            0
                        } else {
                            (ORD / 2) as nat
                        },
                        false,
                        false,
                        0,
                        true,
                        true,
                    );
                } else {
                    (*cs0[i]).lemma_wf_weaken((ORD / 2) as nat, false, false, 0, true, true);
                }
            }
        }
        let ghost lo_child: nat = if was_root && len0 == 1 {
            0
        } else {
            (ORD / 2) as nat
        };
        let (idx, offset) = n.key_to_idx_and_offset(key);
        let ghost gi = idx as int;
        proof {
            Tree::lemma_seq_pre_decompose(cs0, gi);
        }
        let ghost aseq = Tree::seq_pre(cs0, gi);
        let ghost bseq = Tree::child_seq(cs0, gi);
        let ghost cseq = Tree::tailseq(cs0, gi + 1);
        let child = (&*n.children[idx]).dup();
        proof {
            assert(sv0 == aseq + bseq + cseq);
            assert(sv0.len() == aseq.len() + bseq.len() + cseq.len());
            assert(child.wf_in(lo_child, false, false));
            assert(!child.rootish()) by {
                if child is Internal {
                    assert(child.wf_in(lo_child, false, false));
                }
            }
            if child is Internal {
                assert(child.cnt() >= 1) by {
                    if was_root && len0 == 1 {
                        assert(cs0[0].is_leaf());
                    }
                }
            }
        }
        let (child2, sib) = child.ins(key - offset, value, Ghost(lo_child));
        let ghost has_sib = sib is Some;
        proof {
            bseq.insert_ensures(key - offset, value);
            lemma_seq_insert_left(aseq + bseq, cseq, key as int, value);
            lemma_seq_insert_right(aseq, bseq, key as int, value);
            assert(sv0.insert(key as int, value) == aseq + bseq.insert(key - offset, value) + cseq);
        }
        n.children[idx] = Arc::new(child2);
        let ghost cs1 = n.children@;
        match sib {
            None => {
                proof {
                    assert(cs1 == cs0.update(gi, cs1[gi]));
                    Tree::lemma_splice(cs0, cs1, gi, gi + 1, gi + 1);
                    let sub = cs1.subrange(gi, gi + 1);
                    assert(sub[0] == cs1[gi]);
                    assert(Tree::seq_pre(sub, 0) == Seq::<T>::empty());
                    assert(Tree::seq_pre(sub, 1) == Tree::seq_pre(sub, 0) + sub[0].seqv());
                    assert(Tree::seq_pre(sub, 1) =~= child2.seqv());
                    assert(child2.seqv() == bseq.insert(key - offset, value));
                    assert(Tree::seq_pre(cs1, cs1.len() as int) == aseq + Tree::seq_pre(sub, 1)
                        + Tree::tailseq(cs0, gi + 1));
                    assert(Tree::seq_pre(cs1, cs1.len() as int) == sv0.insert(key as int, value));
                    assert(cs1[gi].wf_in(lo_child, false, false));
                    assert(cs1[gi].hgt() == cs0[gi].hgt());
                    assert(cs1[gi].is_leaf() <==> cs0[gi].is_leaf());
                }
            },
            Some(s) => {
                n.children.insert(idx + 1, Arc::new(s));
                proof {
                    let cs2 = n.children@;
                    cs1.insert_ensures(gi + 1, cs2[gi + 1]);
                    assert(cs2[gi].seqv() == child2.seqv());
                    assert(cs2[gi + 1].seqv() == s.seqv());
                    Tree::lemma_splice(cs0, cs2, gi, gi + 1, gi + 2);
                    let sub = cs2.subrange(gi, gi + 2);
                    assert(sub[0] == cs2[gi]);
                    assert(sub[1] == cs2[gi + 1]);
                    assert(Tree::seq_pre(sub, 0) == Seq::<T>::empty());
                    assert(Tree::seq_pre(sub, 1) == Tree::seq_pre(sub, 0) + sub[0].seqv());
                    assert(Tree::seq_pre(sub, 2) == Tree::seq_pre(sub, 1) + sub[1].seqv());
                    assert(Tree::seq_pre(sub, 2) =~= child2.seqv() + s.seqv());
                    assert(Tree::seq_pre(cs2, cs2.len() as int) == aseq + Tree::seq_pre(sub, 2)
                        + Tree::tailseq(cs0, gi + 1));
                    assert(child2.seqv() + s.seqv() == bseq.insert(key - offset, value));
                    assert(aseq + (child2.seqv() + s.seqv()) + cseq =~= aseq + child2.seqv() + (
                    s.seqv() + cseq));
                    assert(aseq + child2.seqv() + (s.seqv() + cseq) =~= aseq + child2.seqv()
                        + s.seqv() + cseq);
                    assert(aseq + child2.seqv() + s.seqv() + cseq =~= aseq + bseq.insert(
                        key - offset,
                        value,
                    ) + cseq);
                    assert(Tree::seq_pre(cs2, cs2.len() as int) == sv0.insert(key as int, value));
                    assert(cs2[gi].wf_in((ORD / 2) as nat, false, false));
                    assert(cs2[gi + 1].wf_in((ORD / 2) as nat, false, false));
                    assert(cs2[gi].hgt() == cs0[gi].hgt());
                    assert(cs2[gi + 1].hgt() == cs0[gi].hgt());
                }
            },
        };
        n.length = n.length + 1;
        let res = Tree::Internal(n);
        proof {
            let csf = res->Internal_0.children@;
            let lenf = csf.len() as int;
            assert(res.seqv() == sv0.insert(key as int, value));
            assert forall|i: int| 0 <= i < lenf implies (#[trigger] csf[i]).hgt() == cs0[0].hgt() by {
                if has_sib {
                    if i < gi {
                        assert(csf[i] == cs1[i]);
                        assert(cs1[i] == cs0[i]);
                    } else if i > gi + 1 {
                        assert(csf[i] == cs1[i - 1]);
                        assert(cs1[i - 1] == cs0[i - 1]);
                    }
                } else {
                    if i != gi {
                        assert(csf[i] == cs0[i]);
                    }
                }
            }
            assert(csf[0].hgt() == cs0[0].hgt());
            assert(res.hgt() == h0);
            let minf: nat = if was_root && lenf == 1 {
                0
            } else {
                (ORD / 2) as nat
            };
            assert forall|i: int| 0 <= i < lenf implies (#[trigger] csf[i]).wf_in(
                minf,
                false,
                false,
            ) by {
                let mold: nat = lo_child;
                if has_sib {
                    if i < gi {
                        assert(csf[i] == cs1[i]);
                        assert(cs1[i] == cs0[i]);
                        assert(cs0[i].wf_in(mold, false, false));
                    } else if i > gi + 1 {
                        assert(csf[i] == cs1[i - 1]);
                        assert(cs1[i - 1] == cs0[i - 1]);
                        assert(cs0[i - 1].wf_in(mold, false, false));
                    }
                } else {
                    if i != gi {
                        assert(csf[i] == cs0[i]);
                        assert(cs0[i].wf_in(mold, false, false));
                    }
                }
                if minf > mold {
                    assert(was_root && len0 == 1 && has_sib);
                    assert(i == gi || i == gi + 1);
                } else {
                    if !(has_sib && (i == gi || i == gi + 1)) && !(!has_sib && i == gi) {
                        (*csf[i]).lemma_wf_weaken(mold, false, false, minf, false, false);
                    }
                }
            }
            if was_root {
                assert(res.wf_root());
            } else {
                assert(res.wf_in(lo, false, false));
            }
        }
        res
    }

    /// Inserts into a full non-root internal node by splitting it at its
    /// midpoint: the upper half becomes a new right sibling, and the value
    /// goes into whichever half now covers its position.  Neither half is
    /// full any more, so the insertion into it cannot split again.
    #[verifier::rlimit(60)]
    fn ins_split(n: Internal<T, ORD>, key: usize, value: T) -> (r: (Tree<T, ORD>, Tree<T, ORD>))
        requires
            4 <= ORD,
            n.children@.len() == ORD,
            Tree::Internal(n).wf(),
            key <= Tree::Internal(n).seqv().len(),
            Tree::Internal(n).seqv().len() < usize::MAX,
        ensures
            r.0.wf(),
            r.1.wf(),
            r.0.hgt() == Tree::Internal(n).hgt(),
            r.1.hgt() == Tree::Internal(n).hgt(),
            r.0.seqv() + r.1.seqv() == Tree::Internal(n).seqv().insert(key as int, value),
        decreases Tree::Internal(n).hgt(), 1int,
    {
        let mut n = n;
        let ghost cs0 = n.children@;
        let ghost len0 = cs0.len() as int;
        let ghost sv0 = Tree::seq_pre(cs0, len0);
        let ghost h0 = Tree::Internal(n).hgt();
        proof {
            assert forall|i: int| 0 <= i < len0 implies (#[trigger] cs0[i]).wf_in(0, true, true) by {
                (*cs0[i]).lemma_wf_weaken((ORD / 2) as nat, false, false, 0, true, true);
            }
        }
        let half: usize = n.children.len() / 2;
        let right_cs = n.children.split_off(half);
        proof {
            Tree::lemma_seq_pre_split(cs0, half as int, len0);
            Tree::lemma_seq_pre_congruent(n.children@, cs0, half as int);
        }
        let ghost lsv = Tree::seq_pre(cs0, half as int);
        let ghost rsv = Tree::seq_pre(cs0.subrange(half as int, len0), len0 - half as int);
        let rlen = Tree::sum_lens(&right_cs);
        proof {
            assert(rlen == rsv.len());
        }
        n.length = n.length - rlen;
        let lsplit = n.length;
        let right = Tree::Internal(Internal { length: rlen, children: right_cs, root: false });
        let left_t = Tree::Internal(n);
        proof {
            assert(left_t.seqv() == lsv);
            assert(right.seqv() == rsv);
            assert(left_t.wf()) by {
                let csl = left_t->Internal_0.children@;
                assert forall|i: int| 0 <= i < csl.len() implies (#[trigger] csl[i]).wf_in(
                    (ORD / 2) as nat,
                    false,
                    false,
                ) by {
                    assert(csl[i] == cs0[i]);
                }
                assert forall|i: int| 0 <= i < csl.len() implies (#[trigger] csl[i]).hgt()
                    == csl[0].hgt() by {
                    assert(csl[i] == cs0[i]);
                }
            }
            assert(right.wf()) by {
                let csr = right->Internal_0.children@;
                assert forall|i: int| 0 <= i < csr.len() implies (#[trigger] csr[i]).wf_in(
                    (ORD / 2) as nat,
                    false,
                    false,
                ) by {
                    assert(csr[i] == cs0[half as int + i]);
                }
                assert forall|i: int| 0 <= i < csr.len() implies (#[trigger] csr[i]).hgt()
                    == csr[0].hgt() by {
                    assert(csr[i] == cs0[half as int + i]);
                    assert(csr[0] == cs0[half as int]);
                }
            }
            assert(left_t.hgt() == h0);
            assert(right.hgt() == h0) by {
                assert(cs0[half as int].hgt() == cs0[0].hgt());
            }
        }
        if key >= lsplit {
            proof {
                lemma_seq_insert_right(lsv, rsv, key as int, value);
            }
            let right_n = match right {
                Tree::Internal(rn) => rn,
                Tree::Array(_) => vstd::pervasive::unreached(),
            };
            let r2 = Tree::ins_nonfull(right_n, key - lsplit, value, Ghost(false), Ghost((ORD
                / 2) as nat));
            (left_t, r2)
        } else {
            proof {
                lemma_seq_insert_left(lsv, rsv, key as int, value);
            }
            let left_n = match left_t {
                Tree::Internal(ln) => ln,
                Tree::Array(_) => vstd::pervasive::unreached(),
            };
            let l2 = Tree::ins_nonfull(left_n, key, value, Ghost(false), Ghost((ORD / 2) as nat));
            (l2, right)
        }
    }

    /// Inserts `value` at position `key`, shifting later elements right.  A
    /// full node is split and the upper half handed back as a sibling for the
    /// caller to adopt; a full root instead grows the tree by one level and
    /// absorbs the split, so a root never hands a sibling back.
    fn ins(self, key: usize, value: T, Ghost(lo): Ghost<nat>) -> (r: (Self, Option<Self>))
        requires
            4 <= ORD,
            self.rootish() ==> self.wf_root(),
            !self.rootish() ==> self.wf_in(lo, false, false),
            self is Internal ==> 1 <= self.cnt(),
            key <= self.seqv().len(),
            self.seqv().len() < usize::MAX,
        ensures
            self.rootish() ==> r.1 is None && r.0.wf_root() && r.0.seqv() == self.seqv().insert(
                key as int,
                value,
            ),
            !self.rootish() ==> r.0.hgt() == self.hgt(),
            !self.rootish() ==> (self.cnt() < ORD <==> r.1 is None),
            !self.rootish() && r.1 is None ==> r.0.wf_in(lo, false, false) && (r.0 is Internal
                <==> self is Internal) && r.0.seqv() == self.seqv().insert(key as int, value),
            r.1 matches Some(sib) ==> r.0.wf() && sib.wf() && sib.hgt() == self.hgt()
                && r.0.seqv() + sib.seqv() == self.seqv().insert(key as int, value),
        decreases self.hgt(), 2int,
    {
        let ghost sv0 = self.seqv();
        let ghost h0 = self.hgt();
        let ghost was_root = self.rootish();
        match self {
            Tree::Array(items) => {
                let (li, ri) = Tree::<T, ORD>::ins_leaf(items, key, value);
                match ri {
                    None => (Tree::Array(li), None),
                    Some(rt) => (Tree::Array(li), Some(Tree::Array(rt))),
                }
            },
            Tree::Internal(n) => {
                let ghost cs0 = n.children@;
                let ghost len0 = cs0.len() as int;
                if n.children.len() < ORD {
                    let res = Tree::ins_nonfull(n, key, value, Ghost(was_root), Ghost(lo));
                    (res, None)
                } else if n.root {
                    let mut n = n;
                    let mut moved: Vec<Arc<Tree<T, ORD>>> = Vec::new();
                    std::mem::swap(&mut n.children, &mut moved);
                    let demoted = Internal { length: n.length, children: moved, root: false };
                    proof {
                        assert(Tree::Internal(demoted).seqv() == sv0);
                        assert(Tree::Internal(demoted).wf());
                        assert(Tree::Internal(demoted).hgt() == h0);
                    }
                    let (left, right) = Tree::ins_split(demoted, key, value);
                    n.children.push(Arc::new(left));
                    n.children.push(Arc::new(right));
                    n.length = n.length + 1;
                    let res = Tree::Internal(n);
                    proof {
                        sv0.insert_ensures(key as int, value);
                        let cs2 = res->Internal_0.children@;
                        assert(cs2.len() == 2);
                        assert(cs2[0].seqv() == left.seqv());
                        assert(cs2[1].seqv() == right.seqv());
                        assert(Tree::seq_pre(cs2, 0) == Seq::<T>::empty());
                        assert(Tree::seq_pre(cs2, 1) == Tree::seq_pre(cs2, 0) + cs2[0].seqv());
                        assert(Tree::seq_pre(cs2, 2) == Tree::seq_pre(cs2, 1) + cs2[1].seqv());
                        assert(Tree::seq_pre(cs2, 2) =~= left.seqv() + right.seqv());
                        assert(res.seqv() == sv0.insert(key as int, value));
                        assert(cs2[0].hgt() == cs2[1].hgt());
                        assert(res.wf_root());
                    }
                    (res, None)
                } else {
                    let (l2, r2) = Tree::ins_split(n, key, value);
                    (l2, Some(r2))
                }
            },
        }
    }

    /// Inserts `value` at position `key` of a whole tree.  The root absorbs
    /// any split internally (growing the tree by one level when it is full),
    /// so the returned sibling is always absent; the `Option` mirrors the
    /// shape of the node-level insertion.
    pub fn insert(&mut self, key: usize, value: T) -> (r: Option<Self>)
        requires
            old(self).wf_root(),
            key <= old(self).seqv().len(),
            old(self).seqv().len() < usize::MAX,
        ensures
            r is None,
            final(self).wf_root(),
            final(self).seqv() == old(self).seqv().insert(key as int, value),
    {
        let mut tmp: Tree<T, ORD> = Tree::Array(Vec::new());
        std::mem::swap(self, &mut tmp);
        let (t, sib) = tmp.ins(key, value, Ghost(0));
        *self = t;
        sib
    }
}

impl<T: Copy, const ORD: usize> Tree<T, ORD> {
    /// Merges two adjacent siblings into one node holding `x`'s children and
    /// then `y`'s, used when their combined occupancy fits in one node.
    #[verifier::rlimit(60)]
    fn merge_siblings(x: Self, y: Self, Ghost(xl): Ghost<bool>, Ghost(yr): Ghost<bool>) -> (r: Self)
        requires
            4 <= ORD,
            x.cnt() + y.cnt() <= ORD,
            x is Internal <==> y is Internal,
            x.hgt() == y.hgt(),
            x.wf_in(0, xl, false),
            y.wf_in(0, false, yr),
            x.seqv().len() + y.seqv().len() <= usize::MAX,
        ensures
            r.cnt() == x.cnt() + y.cnt(),
            r.seqv() == x.seqv() + y.seqv(),
            r.hgt() == x.hgt(),
            r is Internal <==> x is Internal,
            r.wf_in(0, xl, yr),
    {
        match x {
            Tree::Array(mut xi) => {
                match y {
                    Tree::Array(mut yi) => {
                        xi.append(&mut yi);
                        Tree::Array(xi)
                    },
                    Tree::Internal(_) => vstd::pervasive::unreached(),
                }
            },
            Tree::Internal(mut xn) => {
                match y {
                    Tree::Internal(mut yn) => {
                        let ghost xcs = xn.children@;
                        let ghost ycs = yn.children@;
                        proof {
                            Tree::lemma_seq_pre_concat(xcs, ycs);
                        }
                        xn.children.append(&mut yn.children);
                        xn.length = xn.length + yn.length;
                        let r = Tree::Internal(xn);
                        proof {
                            let cs = r->Internal_0.children@;
                            let cnt = cs.len() as int;
                            let xc = xcs.len() as int;
                            assert(cs == xcs + ycs);
                            assert(r.seqv() == x.seqv() + y.seqv());
                            if xc > 0 {
                                assert(cs[0] == xcs[0]);
                            }
                            assert forall|i: int| 0 <= i < cnt implies (#[trigger] cs[i]).hgt()
                                == cs[0].hgt() by {
                                if i < xc {
                                    assert(cs[i] == xcs[i]);
                                } else {
                                    assert(cs[i] == ycs[i - xc]);
                                    assert(x.hgt() == 1 + (if xcs.len() > 0 {
                                        xcs[0].hgt()
                                    } else {
                                        0
                                    }));
                                }
                            }
                            assert forall|i: int| 0 <= i < cnt implies (#[trigger] cs[i]).wf_in(
                                Self::cmin(xl, yr, i, cnt),
                                xl && i == 0,
                                yr && i == cnt - 1,
                            ) by {
                                if i < xc {
                                    assert(cs[i] == xcs[i]);
                                    assert(xcs[i].wf_in(
                                        Self::cmin(xl, false, i, xc),
                                        xl && i == 0,
                                        false && i == xc - 1,
                                    ));
                                    (*cs[i]).lemma_wf_weaken(
                                        Self::cmin(xl, false, i, xc),
                                        xl && i == 0,
                                        false,
                                        Self::cmin(xl, yr, i, cnt),
                                        xl && i == 0,
                                        yr && i == cnt - 1,
                                    );
                                } else {
                                    assert(cs[i] == ycs[i - xc]);
                                    assert(ycs[i - xc].wf_in(
                                        Self::cmin(false, yr, i - xc, cnt - xc),
                                        false,
                                        yr && i - xc == cnt - xc - 1,
                                    ));
                                    (*cs[i]).lemma_wf_weaken(
                                        Self::cmin(false, yr, i - xc, cnt - xc),
                                        false,
                                        yr && i - xc == cnt - xc - 1,
                                        Self::cmin(xl, yr, i, cnt),
                                        xl && i == 0,
                                        yr && i == cnt - 1,
                                    );
                                }
                            }
                            assert(r.wf_in(0, xl, yr));
                        }
                        r
                    },
                    Tree::Array(_) => vstd::pervasive::unreached(),
                }
            },
        }
    }
    /// Replacing one child replaces its slice of the stored sequence.
    pub broadcast proof fn lemma_seq_pre_update(
        cs: Seq<Arc<Tree<T, ORD>>>,
        c2: Arc<Tree<T, ORD>>,
        i: int,
    )
        requires
            0 <= i < cs.len(),
        ensures
            #[trigger] Tree::seq_pre(cs.update(i, c2), cs.len() as int) == Tree::seq_pre(cs, i)
                + c2.seqv() + Tree::tailseq(cs, i + 1),
    {
        let cs2 = cs.update(i, c2);
        Tree::lemma_splice(cs, cs2, i, i + 1, i + 1);
        let sub = cs2.subrange(i, i + 1);
        assert(sub[0] == cs2[i]);
        assert(Tree::seq_pre(sub, 1) == Tree::seq_pre(sub, 0) + sub[0].seqv());
        assert(Tree::seq_pre(sub, 1) =~= c2.seqv());
    }

    /// Number of immediate children (elements, for a leaf).
    fn count(&self) -> (r: usize)
        ensures
            r == self.cnt(),
    {
        match self {
            Tree::Array(items) => items.len(),
            Tree::Internal(node) => node.children.len(),
        }
    }

    /// Removes the spine-edge child when it has become empty.  Truncation can
    /// leave one zero-length child per level, always at the edge of the spine
    /// that was cut; the repair pass prunes it before rebalancing.
    #[verifier::rlimit(100)]
    fn prune_edge(
        n: Internal<T, ORD>,
        is_right: bool,
        Ghost(l): Ghost<bool>,
        Ghost(r): Ghost<bool>,
    ) -> (res: (Internal<T, ORD>, bool))
        requires
            4 <= ORD,
            1 <= n.children@.len() <= ORD,
            n.length == Tree::seq_pre(n.children@, n.children@.len() as int).len(),
            n.length >= 1,
            forall|i: int|
                0 <= i < n.children@.len() ==> (#[trigger] n.children@[i]).wf_in(
                    Tree::<T, ORD>::cmin(l, r, i, n.children@.len() as int),
                    l && i == 0,
                    r && i == n.children@.len() - 1,
                ),
            forall|i: int|
                0 <= i < n.children@.len() ==> (#[trigger] n.children@[i]).hgt()
                    == n.children@[0].hgt(),
            is_right ==> r,
            !is_right ==> l,
        ensures
            ({ let n2 = res.0;
            &&& n2.root == n.root
            &&& n2.length == n.length
            &&& 1 <= n2.children@.len() <= n.children@.len()
            &&& n.children@.len() <= n2.children@.len() + 1
            &&& Tree::seq_pre(n2.children@, n2.children@.len() as int) == Tree::seq_pre(
                n.children@,
                n.children@.len() as int,
            )
            &&& forall|i: int|
                0 <= i < n2.children@.len() ==> (#[trigger] n2.children@[i]).wf_in(
                    Tree::<T, ORD>::cmin(l, r, i, n2.children@.len() as int),
                    l && i == 0,
                    r && i == n2.children@.len() - 1,
                )
            &&& forall|i: int|
                0 <= i < n2.children@.len() ==> (#[trigger] n2.children@[i]).hgt()
                    == n.children@[0].hgt()
            &&& Tree::child_seq(
                n2.children@,
                if is_right {
                    n2.children@.len() - 1
                } else {
                    0
                },
            ).len() >= 1
            &&& (res.1 <==> n2.children@.len() < n.children@.len())
            &&& (res.1 && n2.children@.len() >= 2 ==> (*n2.children@[if is_right {
                n2.children@.len() - 1
            } else {
                0
            }]).wf_in((ORD / 2) as nat, false, false))
            &&& (res.1 && n2.children@.len() == 1 ==> (is_right ==> (*n2.children@[0]).wf_in(
                0,
                l,
                false,
            )) && (!is_right ==> (*n2.children@[0]).wf_in(0, false, r))) }),
    {
        let mut n = n;
        let mut pruned = false;
        let ghost cs0 = n.children@;
        let ghost len0 = cs0.len() as int;
        let si = if is_right {
            n.children.len() - 1
        } else {
            0
        };
        let ghost gs = si as int;
        proof {
            Tree::lemma_seq_pre_decompose(cs0, gs);
            assert(cs0[gs].wf_in(0, true, true)) by {
                (*cs0[gs]).lemma_wf_weaken(
                    Tree::<T, ORD>::cmin(l, r, gs, len0),
                    l && gs == 0,
                    r && gs == len0 - 1,
                    0,
                    true,
                    true,
                );
            }
        }
        if (&*n.children[si]).len() == 0 {
            n.children.remove(si);
            pruned = true;
            proof {
                let cs1 = n.children@;
                let len1 = cs1.len() as int;
                assert(cs1 =~= cs0.remove(gs));
                assert(len1 >= 1) by {
                    if len1 == 0 {
                        assert(Tree::seq_pre(cs0, len0) =~= Seq::<T>::empty());
                    }
                }
                // the stored sequence is unchanged: the removed child was empty
                if is_right {
                    Tree::lemma_seq_pre_congruent(cs1, cs0, len1);
                    assert(Tree::seq_pre(cs0, len0) =~= Tree::seq_pre(cs0, len0 - 1));
                } else {
                    Tree::lemma_seq_pre_split(cs0, 1, len0);
                    assert(Tree::seq_pre(cs0, 1) =~= Seq::<T>::empty());
                    assert forall|i: int| 0 <= i < len1 implies (#[trigger] cs1[i]).seqv()
                        == cs0.subrange(1, len0)[i].seqv() by {
                        assert(cs1[i] == cs0[i + 1]);
                    }
                    Tree::lemma_seq_pre_congruent(cs1, cs0.subrange(1, len0), len1);
                    assert(Tree::seq_pre(cs0, len0) =~= Seq::<T>::empty() + Tree::seq_pre(
                        cs0.subrange(1, len0),
                        len0 - 1,
                    ));
                }
                // occupancy and heights carry over to the shorter list
                assert forall|i: int| 0 <= i < len1 implies (#[trigger] cs1[i]).wf_in(
                    Tree::<T, ORD>::cmin(l, r, i, len1),
                    l && i == 0,
                    r && i == len1 - 1,
                ) by {
                    let j: int = if is_right {
                        i
                    } else {
                        i + 1
                    };
                    assert(cs1[i] == cs0[j]);
                    (*cs1[i]).lemma_wf_weaken(
                        Tree::<T, ORD>::cmin(l, r, j, len0),
                        l && j == 0,
                        r && j == len0 - 1,
                        Tree::<T, ORD>::cmin(l, r, i, len1),
                        l && i == 0,
                        r && i == len1 - 1,
                    );
                }
                assert forall|i: int| 0 <= i < len1 implies (#[trigger] cs1[i]).hgt()
                    == cs0[0].hgt() by {
                    let j: int = if is_right {
                        i
                    } else {
                        i + 1
                    };
                    assert(cs1[i] == cs0[j]);
                }
                // the child now at the spine edge came from the clean interior
                let e: int = if is_right {
                    len1 - 1
                } else {
                    0
                };
                if len1 >= 2 {
                    let j: int = if is_right {
                        len1 - 1
                    } else {
                        1
                    };
                    assert(cs1[e] == cs0[j]);
                    assert(cs0[j].wf_in(
                        Tree::<T, ORD>::cmin(l, r, j, len0),
                        l && j == 0,
                        r && j == len0 - 1,
                    ));
                    assert((*cs1[e]).wf_in((ORD / 2) as nat, false, false));
                } else {
                    assert(len0 == 2);
                    let j: int = if is_right {
                        0
                    } else {
                        1
                    };
                    assert(cs1[0] == cs0[j]);
                    if is_right {
                        assert((*cs1[0]).wf_in(0, l, false)) by {
                            (*cs1[0]).lemma_wf_weaken(
                                Tree::<T, ORD>::cmin(l, r, 0, 2),
                                l,
                                false,
                                0,
                                l,
                                false,
                            );
                        }
                    } else {
                        assert((*cs1[0]).wf_in(0, false, r)) by {
                            (*cs1[0]).lemma_wf_weaken(
                                Tree::<T, ORD>::cmin(l, r, 1, 2),
                                false,
                                r,
                                0,
                                false,
                                r,
                            );
                        }
                    }
                }
                assert(Tree::child_seq(cs1, e).len() >= 1) by {
                    if len1 == 1 {
                        assert(Tree::seq_pre(cs1, 1) == Tree::seq_pre(cs1, 0) + cs1[0].seqv());
                        assert(Tree::seq_pre(cs1, 0) == Seq::<T>::empty());
                    } else {
                        let j: int = if is_right {
                            len1 - 1
                        } else {
                            1
                        };
                        assert(cs1[e] == cs0[j]);
                        assert(cs1[e].seqv().len() >= 1) by {
                            (*cs1[e]).lemma_wf_len_pos((ORD / 2) as nat);
                        }
                    }
                }
            }
        } else {
            proof {
                let cs1 = n.children@;
                let len1 = cs1.len() as int;
                let e: int = if is_right {
                    len1 - 1
                } else {
                    0
                };
                assert(Tree::child_seq(cs1, e).len() >= 1);
            }
        }
        (n, pruned)
    }

    /// The per-level repair of a spine: the spine-edge child of `n` is
    /// brought up to a safe occupancy by merging it with or stealing from its
    /// neighbour toward the interior, and the repair then descends into it.
    /// The safe occupancy is one more than the minimum for an internal child,
    /// so that the one merge or prune that the descent itself may perform
    /// cannot push the child below the minimum again.
    #[verifier::rlimit(100)]
    fn fixup_pair(
        n: Internal<T, ORD>,
        is_right: bool,
        Ghost(other): Ghost<bool>,
    ) -> (n2: Internal<T, ORD>)
        requires
            4 <= ORD,
            2 <= n.children@.len() <= ORD,
            n.length == Tree::seq_pre(n.children@, n.children@.len() as int).len(),
            is_right ==> Tree::kids_ok(n.children@, other, true),
            !is_right ==> Tree::kids_ok(n.children@, true, other),
            Tree::child_seq(
                n.children@,
                if is_right {
                    n.children@.len() - 1
                } else {
                    0
                },
            ).len() >= 1,
        ensures
            n2.root == n.root,
            n2.length == n.length,
            1 <= n2.children@.len() <= n.children@.len(),
            n.children@.len() <= n2.children@.len() + 1,
            Tree::seq_pre(n2.children@, n2.children@.len() as int) == Tree::seq_pre(
                n.children@,
                n.children@.len() as int,
            ),
            n2.children@[0].hgt() == n.children@[0].hgt(),
            n2.children@.len() == 1 ==> n2.children@[0].repaired(is_right, other),
            n2.children@.len() >= 2 ==> (is_right ==> Tree::kids_ok(n2.children@, other, false)),
            n2.children@.len() >= 2 ==> (!is_right ==> Tree::kids_ok(n2.children@, false, other)),
        decreases Tree::Internal(n).hgt(), 0int,
    {
        let mut n = n;
        let ghost cs0 = n.children@;
        let ghost len0 = cs0.len() as int;
        let ghost sv0 = Tree::seq_pre(cs0, len0);
        let ghost lp: bool = if is_right {
            other
        } else {
            true
        };
        let ghost rp: bool = if is_right {
            true
        } else {
            other
        };
        let ci = if is_right {
            n.children.len() - 1
        } else {
            0
        };
        let mi = if is_right {
            n.children.len() - 2
        } else {
            1
        };
        let ghost gc = ci as int;
        let ghost gm = mi as int;
        let c = (&*n.children[ci]).dup();
        proof {
            assert(cs0[gc].wf_in(
                Tree::<T, ORD>::cmin(lp, rp, gc, len0),
                lp && gc == 0,
                rp && gc == len0 - 1,
            ));
            if is_right {
                assert(c.wf_in(0, false, true));
            } else {
                assert(c.wf_in(0, true, false));
            }
            assert(c.seqv().len() >= 1);
            if c is Internal {
                assert(c.cnt() >= 1) by {
                    if c.cnt() == 0 {
                        assert(c.seqv() =~= Seq::<T>::empty());
                    }
                }
            }
            Tree::lemma_seq_pre_decompose(cs0, gc);
            Tree::lemma_seq_pre_decompose(cs0, gm);
        }
        let ccount = c.count();
        let t: usize = match &c {
            Tree::Array(_) => ORD / 2,
            Tree::Internal(_) => ORD / 2 + 1,
        };
        if ccount >= t {
            // the spine child is already safely occupied: repair only below
            let c2 = c.fixup_node(is_right, Ghost(false));
            n.children[ci] = Arc::new(c2);
            proof {
                let csf = n.children@;
                assert(csf == cs0.update(gc, csf[gc]));
                Tree::lemma_splice(cs0, csf, gc, gc + 1, gc + 1);
                let sub = csf.subrange(gc, gc + 1);
                assert(sub[0] == csf[gc]);
                assert(Tree::seq_pre(sub, 1) == Tree::seq_pre(sub, 0) + sub[0].seqv());
                assert(Tree::seq_pre(sub, 1) =~= c2.seqv());
                Tree::lemma_seq_pre_range(cs0, gc, gc + 1);
                assert(Tree::seq_pre(cs0.subrange(gc, gc + 1), 1) == Tree::seq_pre(
                    cs0.subrange(gc, gc + 1),
                    0,
                ) + cs0.subrange(gc, gc + 1)[0].seqv());
                assert(Tree::seq_pre(csf, csf.len() as int) == sv0);
                assert(c2.repaired(is_right, false));
                assert(c2.cnt() >= ORD / 2);
                assert(c2.wf_in((ORD / 2) as nat, false, false)) by {
                    if c2 is Internal && c2.cnt() == 1 {
                        assert(ORD / 2 >= 2);
                        assert(false);
                    } else {
                        if is_right {
                            c2.lemma_wf_strengthen(1, (ORD / 2) as nat, false, false);
                        } else {
                            c2.lemma_wf_strengthen(1, (ORD / 2) as nat, false, false);
                        }
                    }
                }
                assert forall|i: int| 0 <= i < len0 implies (#[trigger] csf[i]).wf_in(
                    Tree::<T, ORD>::cmin(
                        if is_right {
                            other
                        } else {
                            false
                        },
                        if is_right {
                            false
                        } else {
                            other
                        },
                        i,
                        len0,
                    ),
                    (if is_right {
                        other
                    } else {
                        false
                    }) && i == 0,
                    (if is_right {
                        false
                    } else {
                        other
                    }) && i == len0 - 1,
                ) by {
                    if i != gc {
                        assert(csf[i] == cs0[i]);
                        (*csf[i]).lemma_wf_weaken(
                            Tree::<T, ORD>::cmin(lp, rp, i, len0),
                            lp && i == 0,
                            rp && i == len0 - 1,
                            Tree::<T, ORD>::cmin(
                                if is_right {
                                    other
                                } else {
                                    false
                                },
                                if is_right {
                                    false
                                } else {
                                    other
                                },
                                i,
                                len0,
                            ),
                            (if is_right {
                                other
                            } else {
                                false
                            }) && i == 0,
                            (if is_right {
                                false
                            } else {
                                other
                            }) && i == len0 - 1,
                        );
                    }
                }
                assert forall|i: int| 0 <= i < len0 implies (#[trigger] csf[i]).hgt()
                    == cs0[0].hgt() by {
                    if i != gc {
                        assert(csf[i] == cs0[i]);
                    }
                }
            }
            return n;
        }
        let m = (&*n.children[mi]).dup();
        let ghost mflag: bool = if is_right {
            lp && len0 == 2
        } else {
            rp && len0 == 2
        };
        proof {
            assert(cs0[gm].wf_in(
                Tree::<T, ORD>::cmin(lp, rp, gm, len0),
                lp && gm == 0,
                rp && gm == len0 - 1,
            ));
            if is_right {
                assert(m.wf_in(0, mflag, false)) by {
                    (*cs0[gm]).lemma_wf_weaken(
                        Tree::<T, ORD>::cmin(lp, rp, gm, len0),
                        lp && gm == 0,
                        rp && gm == len0 - 1,
                        0,
                        mflag,
                        false,
                    );
                }
            } else {
                assert(m.wf_in(0, false, mflag)) by {
                    (*cs0[gm]).lemma_wf_weaken(
                        Tree::<T, ORD>::cmin(lp, rp, gm, len0),
                        lp && gm == 0,
                        rp && gm == len0 - 1,
                        0,
                        false,
                        mflag,
                    );
                }
            }
            assert(m is Internal <==> c is Internal) by {
                assert(cs0[gm].hgt() == cs0[gc].hgt());
            }
            // sequences around the pair
            if is_right {
                Tree::lemma_seq_pre_range(cs0, len0 - 2, len0);
                let mid = cs0.subrange(len0 - 2, len0);
                assert(mid[0] == cs0[len0 - 2]);
                assert(mid[1] == cs0[len0 - 1]);
                assert(Tree::seq_pre(mid, 1) == Tree::seq_pre(mid, 0) + mid[0].seqv());
                assert(Tree::seq_pre(mid, 2) == Tree::seq_pre(mid, 1) + mid[1].seqv());
                assert(Tree::seq_pre(mid, 2) =~= m.seqv() + c.seqv());
                assert(Tree::tailseq(cs0, len0) =~= Seq::<T>::empty());
                assert(sv0 == Tree::seq_pre(cs0, len0 - 2) + Tree::seq_pre(mid, 2) + Tree::tailseq(
                    cs0,
                    len0,
                ));
            } else {
                Tree::lemma_seq_pre_range(cs0, 0, 2);
                let mid = cs0.subrange(0, 2);
                assert(mid[0] == cs0[0]);
                assert(mid[1] == cs0[1]);
                assert(Tree::seq_pre(mid, 1) == Tree::seq_pre(mid, 0) + mid[0].seqv());
                assert(Tree::seq_pre(mid, 2) == Tree::seq_pre(mid, 1) + mid[1].seqv());
                assert(Tree::seq_pre(mid, 2) =~= c.seqv() + m.seqv());
                assert(Tree::seq_pre(cs0, 0) =~= Seq::<T>::empty());
                assert(sv0 == Tree::seq_pre(cs0, 0) + Tree::seq_pre(mid, 2) + Tree::tailseq(
                    cs0,
                    2,
                ));
            }
        }
        let mcount = m.count();
        if mcount <= ORD - ccount {
            // merge the whole spine child into its neighbour
            if is_right {
                n.children.remove(ci);
                n.children.remove(mi);
            } else {
                n.children.remove(1);
                n.children.remove(0);
            }
            let merged = if is_right {
                Tree::merge_siblings(m, c, Ghost(mflag), Ghost(true))
            } else {
                Tree::merge_siblings(c, m, Ghost(true), Ghost(mflag))
            };
            let fixed = merged.fixup_node(is_right, Ghost(mflag));
            if is_right {
                n.children.push(Arc::new(fixed));
            } else {
                n.children.insert(0, Arc::new(fixed));
            }
            proof {
                let csf = n.children@;
                let len2 = csf.len() as int;
                assert(len2 == len0 - 1);
                if is_right {
                    assert(csf =~= cs0.subrange(0, len0 - 2).push(csf[len2 - 1]));
                    Tree::lemma_splice(cs0, csf, len0 - 2, len0, len0 - 1);
                    let sub = csf.subrange(len0 - 2, len0 - 1);
                    assert(sub[0] == csf[len0 - 2]);
                    assert(Tree::seq_pre(sub, 1) == Tree::seq_pre(sub, 0) + sub[0].seqv());
                    assert(Tree::seq_pre(sub, 1) =~= fixed.seqv());
                    assert(Tree::seq_pre(csf, len2) == sv0);
                } else {
                    assert(csf[0].seqv() == fixed.seqv());
                    Tree::lemma_splice(cs0, csf, 0, 2, 1);
                    let sub = csf.subrange(0, 1);
                    assert(sub[0] == csf[0]);
                    assert(Tree::seq_pre(sub, 1) == Tree::seq_pre(sub, 0) + sub[0].seqv());
                    assert(Tree::seq_pre(sub, 1) =~= fixed.seqv());
                    assert(Tree::seq_pre(csf, len2) == sv0);
                }
                let gi2: int = if is_right {
                    len2 - 1
                } else {
                    0
                };
                assert(csf[gi2].seqv() == fixed.seqv());
                assert(csf[gi2].hgt() == cs0[0].hgt());
                assert forall|i: int| 0 <= i < len2 implies (#[trigger] csf[i]).hgt()
                    == cs0[0].hgt() by {
                    if i != gi2 {
                        let j: int = if is_right {
                            i
                        } else {
                            i + 1
                        };
                        assert(csf[i] == cs0[j]);
                    }
                }
                if len2 == 1 {
                    assert(mflag == other);
                    assert(csf[0].repaired(is_right, other));
                } else {
                    assert(mflag == false);
                    assert(fixed.cnt() >= ORD / 2) by {
                        if m.cnt() == 0 {
                            assert(len0 > 2);
                            assert(Tree::<T, ORD>::cmin(lp, rp, gm, len0) == (ORD / 2) as nat);
                            assert(false);
                        }
                        assert(m.cnt() >= ORD / 2);
                    }
                    assert(fixed.wf_in((ORD / 2) as nat, false, false)) by {
                        assert(fixed.repaired(is_right, false));
                        if fixed is Internal && fixed.cnt() == 1 {
                            assert(false);
                        }
                        fixed.lemma_wf_strengthen(1, (ORD / 2) as nat, false, false);
                    }
                    assert forall|i: int| 0 <= i < len2 implies (#[trigger] csf[i]).wf_in(
                        Tree::<T, ORD>::cmin(
                            if is_right {
                                other
                            } else {
                                false
                            },
                            if is_right {
                                false
                            } else {
                                other
                            },
                            i,
                            len2,
                        ),
                        (if is_right {
                            other
                        } else {
                            false
                        }) && i == 0,
                        (if is_right {
                            false
                        } else {
                            other
                        }) && i == len2 - 1,
                    ) by {
                        if i != gi2 {
                            let j: int = if is_right {
                                i
                            } else {
                                i + 1
                            };
                            assert(csf[i] == cs0[j]);
                            (*csf[i]).lemma_wf_weaken(
                                Tree::<T, ORD>::cmin(lp, rp, j, len0),
                                lp && j == 0,
                                rp && j == len0 - 1,
                                Tree::<T, ORD>::cmin(
                                    if is_right {
                                        other
                                    } else {
                                        false
                                    },
                                    if is_right {
                                        false
                                    } else {
                                        other
                                    },
                                    i,
                                    len2,
                                ),
                                (if is_right {
                                    other
                                } else {
                                    false
                                }) && i == 0,
                                (if is_right {
                                    false
                                } else {
                                    other
                                }) && i == len2 - 1,
                            );
                        }
                    }
                }
            }
            n
        } else {
            // steal from the neighbour's adjacent edge
            let (c2, m2) = Tree::steal_siblings(c, m, is_right, t, Ghost(mflag));
            let fixed = c2.fixup_node(is_right, Ghost(false));
            n.children[ci] = Arc::new(fixed);
            n.children[mi] = Arc::new(m2);
            proof {
                let csf = n.children@;
                let len2 = csf.len() as int;
                assert(len2 == len0);
                let lo: int = if is_right {
                    len0 - 2
                } else {
                    0
                };
                Tree::lemma_splice(cs0, csf, lo, lo + 2, lo + 2);
                let sub = csf.subrange(lo, lo + 2);
                assert(sub[0] == csf[lo]);
                assert(sub[1] == csf[lo + 1]);
                assert(Tree::seq_pre(sub, 1) == Tree::seq_pre(sub, 0) + sub[0].seqv());
                assert(Tree::seq_pre(sub, 2) == Tree::seq_pre(sub, 1) + sub[1].seqv());
                if is_right {
                    assert(Tree::seq_pre(sub, 2) =~= m2.seqv() + fixed.seqv());
                    assert(m2.seqv() + fixed.seqv() == m.seqv() + c.seqv());
                } else {
                    assert(Tree::seq_pre(sub, 2) =~= fixed.seqv() + m2.seqv());
                    assert(fixed.seqv() + m2.seqv() == c.seqv() + m.seqv());
                }
                assert(Tree::seq_pre(csf, len2) == sv0);
                assert(fixed.cnt() >= ORD / 2);
                assert(fixed.wf_in((ORD / 2) as nat, false, false)) by {
                    assert(fixed.repaired(is_right, false));
                    if fixed is Internal && fixed.cnt() == 1 {
                        assert(false);
                    }
                    fixed.lemma_wf_strengthen(1, (ORD / 2) as nat, false, false);
                }
                assert(m2.cnt() >= ORD / 2);
                assert forall|i: int| 0 <= i < len2 implies (#[trigger] csf[i]).hgt()
                    == cs0[0].hgt() by {
                    if i != gc && i != gm {
                        assert(csf[i] == cs0[i]);
                    }
                }
                assert forall|i: int| 0 <= i < len2 implies (#[trigger] csf[i]).wf_in(
                    Tree::<T, ORD>::cmin(
                        if is_right {
                            other
                        } else {
                            false
                        },
                        if is_right {
                            false
                        } else {
                            other
                        },
                        i,
                        len2,
                    ),
                    (if is_right {
                        other
                    } else {
                        false
                    }) && i == 0,
                    (if is_right {
                        false
                    } else {
                        other
                    }) && i == len2 - 1,
                ) by {
                    if i == gc {
                    } else if i == gm {
                        let tl: bool = (if is_right {
                            other
                        } else {
                            false
                        }) && i == 0;
                        let tr: bool = (if is_right {
                            false
                        } else {
                            other
                        }) && i == len2 - 1;
                        if is_right {
                            (*csf[i]).lemma_wf_weaken(0, mflag, false, 0, tl, tr);
                        } else {
                            (*csf[i]).lemma_wf_weaken(0, false, mflag, 0, tl, tr);
                        }
                        (*csf[i]).lemma_wf_strengthen(
                            0,
                            Tree::<T, ORD>::cmin(
                                if is_right {
                                    other
                                } else {
                                    false
                                },
                                if is_right {
                                    false
                                } else {
                                    other
                                },
                                i,
                                len2,
                            ),
                            tl,
                            tr,
                        );
                    } else {
                        assert(csf[i] == cs0[i]);
                        (*csf[i]).lemma_wf_weaken(
                            Tree::<T, ORD>::cmin(lp, rp, i, len0),
                            lp && i == 0,
                            rp && i == len0 - 1,
                            Tree::<T, ORD>::cmin(
                                if is_right {
                                    other
                                } else {
                                    false
                                },
                                if is_right {
                                    false
                                } else {
                                    other
                                },
                                i,
                                len2,
                            ),
                            (if is_right {
                                other
                            } else {
                                false
                            }) && i == 0,
                            (if is_right {
                                false
                            } else {
                                other
                            }) && i == len2 - 1,
                        );
                    }
                }
            }
            n
        }
    }

    /// Repairs one spine of a subtree from the top down: prune the one
    /// possibly-empty child at the spine edge, re-establish the spine child's
    /// occupancy against its neighbour, and recurse along the spine.
    fn fixup_node(self, is_right: bool, Ghost(other): Ghost<bool>) -> (r: Self)
        requires
            4 <= ORD,
            self.seqv().len() >= 1,
            is_right ==> self.wf_in(0, other, true),
            !is_right ==> self.wf_in(0, true, other),
        ensures
            r.seqv() == self.seqv(),
            r.hgt() == self.hgt(),
            r.cnt() <= self.cnt(),
            self.cnt() <= r.cnt() + 1,
            r is Internal <==> self is Internal,
            r.repaired(is_right, other),
        decreases self.hgt(), 1int,
    {
        match self {
            Tree::Array(items) => Tree::Array(items),
            Tree::Internal(n) => {
                let ghost lp: bool = if is_right {
                    other
                } else {
                    true
                };
                let ghost rp: bool = if is_right {
                    true
                } else {
                    other
                };
                proof {
                    assert(n.children@.len() >= 1) by {
                        if n.children@.len() == 0 {
                            assert(Tree::seq_pre(n.children@, 0) == Seq::<T>::empty());
                        }
                    }
                }
                let (n, pruned) = Tree::prune_edge(n, is_right, Ghost(lp), Ghost(rp));
                if pruned {
                    // the empty child was the end of the ragged spine: what
                    // replaced it at the edge is a fully clean subtree
                    let res = Tree::Internal(n);
                    proof {
                        let csf = res->Internal_0.children@;
                        let lenf = csf.len() as int;
                        assert(res.repaired(is_right, other)) by {
                            if lenf == 1 {
                                assert(csf[0].repaired(is_right, other)) by {
                                    if is_right {
                                        (*csf[0]).lemma_wf_weaken(0, lp, false, 0, other, false);
                                    } else {
                                        (*csf[0]).lemma_wf_weaken(0, false, rp, 0, false, other);
                                    }
                                    (*csf[0]).lemma_wf_repaired(is_right, other);
                                }
                            } else {
                                let e: int = if is_right {
                                    lenf - 1
                                } else {
                                    0
                                };
                                assert forall|i: int| 0 <= i < lenf implies (
                                #[trigger] csf[i]).wf_in(
                                    Tree::<T, ORD>::cmin(
                                        if is_right {
                                            other
                                        } else {
                                            false
                                        },
                                        if is_right {
                                            false
                                        } else {
                                            other
                                        },
                                        i,
                                        lenf,
                                    ),
                                    (if is_right {
                                        other
                                    } else {
                                        false
                                    }) && i == 0,
                                    (if is_right {
                                        false
                                    } else {
                                        other
                                    }) && i == lenf - 1,
                                ) by {
                                    if i == e {
                                        (*csf[i]).lemma_wf_weaken(
                                            (ORD / 2) as nat,
                                            false,
                                            false,
                                            Tree::<T, ORD>::cmin(
                                                if is_right {
                                                    other
                                                } else {
                                                    false
                                                },
                                                if is_right {
                                                    false
                                                } else {
                                                    other
                                                },
                                                i,
                                                lenf,
                                            ),
                                            (if is_right {
                                                other
                                            } else {
                                                false
                                            }) && i == 0,
                                            (if is_right {
                                                false
                                            } else {
                                                other
                                            }) && i == lenf - 1,
                                        );
                                    } else {
                                        (*csf[i]).lemma_wf_weaken(
                                            Tree::<T, ORD>::cmin(lp, rp, i, lenf),
                                            lp && i == 0,
                                            rp && i == lenf - 1,
                                            Tree::<T, ORD>::cmin(
                                                if is_right {
                                                    other
                                                } else {
                                                    false
                                                },
                                                if is_right {
                                                    false
                                                } else {
                                                    other
                                                },
                                                i,
                                                lenf,
                                            ),
                                            (if is_right {
                                                other
                                            } else {
                                                false
                                            }) && i == 0,
                                            (if is_right {
                                                false
                                            } else {
                                                other
                                            }) && i == lenf - 1,
                                        );
                                    }
                                }
                                if is_right {
                                    assert(res.wf_in(0, other, false));
                                } else {
                                    assert(res.wf_in(0, false, other));
                                }
                                res.lemma_wf_repaired(is_right, other);
                            }
                        }
                    }
                    return res;
                }
                if n.children.len() == 1 {
                    let ghost cs1 = n.children@;
                    let c = (&*n.children[0]).dup();
                    proof {
                        assert(cs1[0].wf_in(
                            Tree::<T, ORD>::cmin(lp, rp, 0, 1),
                            lp,
                            rp,
                        ));
                        assert(Tree::seq_pre(cs1, 1) == Tree::seq_pre(cs1, 0) + cs1[0].seqv());
                        assert(c.seqv() =~= Tree::seq_pre(cs1, 1));
                        if is_right {
                            assert(c.wf_in(0, other, true)) by {
                                c.lemma_wf_weaken(Tree::<T, ORD>::cmin(lp, rp, 0, 1), lp, rp, 0, other, true);
                            }
                        } else {
                            assert(c.wf_in(0, true, other)) by {
                                c.lemma_wf_weaken(Tree::<T, ORD>::cmin(lp, rp, 0, 1), lp, rp, 0, true, other);
                            }
                        }
                    }
                    let mut n = n;
                    let c2 = c.fixup_node(is_right, Ghost(other));
                    n.children[0] = Arc::new(c2);
                    let res = Tree::Internal(n);
                    proof {
                        let csf = res->Internal_0.children@;
                        assert(Tree::seq_pre(csf, 1) == Tree::seq_pre(csf, 0) + csf[0].seqv());
                        assert(res.seqv() =~= c2.seqv());
                        assert(res.repaired(is_right, other));
                    }
                    res
                } else {
                    let n2 = Tree::fixup_pair(n, is_right, Ghost(other));
                    let res = Tree::Internal(n2);
                    proof {
                        assert(res.repaired(is_right, other)) by {
                            if n2.children@.len() >= 2 {
                                if is_right {
                                    assert(res.wf_in(1, other, false));
                                } else {
                                    assert(res.wf_in(1, false, other));
                                }
                            }
                        }
                    }
                    res
                }
            },
        }
    }

    /// Moves just enough children from the neighbour `m` into the under-full
    /// spine node `c` (taking from `m`'s adjacent edge) so that `c` reaches
    /// the occupancy `t`.  For a right-spine repair `m` stands to the left of
    /// `c`, otherwise to its right.
    #[verifier::rlimit(100)]
    fn steal_siblings(
        c: Self,
        m: Self,
        is_right: bool,
        t: usize,
        Ghost(ml): Ghost<bool>,
    ) -> (r: (Self, Self))
        requires
            4 <= ORD,
            t <= ORD / 2 + 1,
            1 <= c.cnt() < t,
            c.cnt() + m.cnt() > ORD,
            c is Internal <==> m is Internal,
            c.hgt() == m.hgt(),
            c.seqv().len() + m.seqv().len() <= usize::MAX,
            is_right ==> c.wf_in(0, false, true) && m.wf_in(0, ml, false),
            !is_right ==> c.wf_in(0, true, false) && m.wf_in(0, false, ml),
        ensures
            r.0.cnt() == t,
            r.1.cnt() == c.cnt() + m.cnt() - t,
            r.0.hgt() == c.hgt(),
            r.1.hgt() == m.hgt(),
            r.0 is Internal <==> c is Internal,
            r.1 is Internal <==> m is Internal,
            is_right ==> r.1.seqv() + r.0.seqv() == m.seqv() + c.seqv(),
            !is_right ==> r.0.seqv() + r.1.seqv() == c.seqv() + m.seqv(),
            is_right ==> r.0.wf_in(0, false, true) && r.1.wf_in(0, ml, false),
            !is_right ==> r.0.wf_in(0, true, false) && r.1.wf_in(0, false, ml),
            r.0.seqv().len() >= c.seqv().len(),
    {
        match c {
            Tree::Array(ci) => {
                match m {
                    Tree::Array(mut mi) => {
                        let k = t - ci.len();
                        if is_right {
                            let moved = mi.split_off(mi.len() - k);
                            let mut newc = moved;
                            let mut old = ci;
                            newc.append(&mut old);
                            (Tree::Array(newc), Tree::Array(mi))
                        } else {
                            let tail = mi.split_off(k);
                            let mut newc = ci;
                            newc.append(&mut mi);
                            (Tree::Array(newc), Tree::Array(tail))
                        }
                    },
                    Tree::Internal(_) => vstd::pervasive::unreached(),
                }
            },
            Tree::Internal(cn) => {
                match m {
                    Tree::Internal(mut mn) => {
                        let mut cn = cn;
                        let ghost ccs = cn.children@;
                        let ghost mcs = mn.children@;
                        let ghost ccnt = ccs.len() as int;
                        let ghost mcnt = mcs.len() as int;
                        proof {
                            assert forall|i: int| 0 <= i < mcnt implies (#[trigger] mcs[i]).wf_in(
                                0,
                                true,
                                true,
                            ) by {
                                if is_right {
                                    (*mcs[i]).lemma_wf_weaken(
                                        Self::cmin(ml, false, i, mcnt),
                                        ml && i == 0,
                                        false,
                                        0,
                                        true,
                                        true,
                                    );
                                } else {
                                    (*mcs[i]).lemma_wf_weaken(
                                        Self::cmin(false, ml, i, mcnt),
                                        false,
                                        ml && i == mcnt - 1,
                                        0,
                                        true,
                                        true,
                                    );
                                }
                            }
                        }
                        let k = t - cn.children.len();
                        if is_right {
                            proof {
                                Tree::lemma_seq_pre_split(mcs, mcnt - k, mcnt);
                            }
                            let moved = mn.children.split_off(mn.children.len() - k);
                            proof {
                                Tree::lemma_seq_pre_congruent(mn.children@, mcs, mcnt - k);
                                Tree::lemma_seq_pre_congruent(
                                    moved@,
                                    mcs.subrange(mcnt - k, mcnt),
                                    k as int,
                                );
                            }
                            let msum = Tree::sum_lens(&moved);
                            let ghost mvseq = Tree::seq_pre(moved@, k as int);
                            mn.length = mn.length - msum;
                            let mut newc = moved;
                            proof {
                                Tree::lemma_seq_pre_concat(newc@, ccs);
                            }
                            newc.append(&mut cn.children);
                            cn.children = newc;
                            cn.length = cn.length + msum;
                            let rc = Tree::Internal(cn);
                            let rm = Tree::Internal(mn);
                            proof {
                                let fcs = rc->Internal_0.children@;
                                let fcnt = fcs.len() as int;
                                assert(fcs == mcs.subrange(mcnt - k, mcnt) + ccs);
                                assert(rm.seqv() + rc.seqv() == m.seqv() + c.seqv());
                                assert forall|i: int| 0 <= i < fcnt implies (
                                #[trigger] fcs[i]).wf_in(
                                    Self::cmin(false, true, i, fcnt),
                                    false,
                                    i == fcnt - 1,
                                ) by {
                                    if i < k {
                                        assert(fcs[i] == mcs[mcnt - k + i]);
                                        (*fcs[i]).lemma_wf_weaken(
                                            Self::cmin(ml, false, mcnt - k + i, mcnt),
                                            ml && mcnt - k + i == 0,
                                            false,
                                            Self::cmin(false, true, i, fcnt),
                                            false,
                                            i == fcnt - 1,
                                        );
                                    } else {
                                        assert(fcs[i] == ccs[i - k]);
                                        assert(ccs[i - k].wf_in(
                                            Self::cmin(false, true, i - k, ccnt),
                                            false,
                                            i - k == ccnt - 1,
                                        ));
                                    }
                                }
                                assert forall|i: int| 0 <= i < fcnt implies (
                                #[trigger] fcs[i]).hgt() == fcs[0].hgt() by {
                                    if i < k {
                                        assert(fcs[i] == mcs[mcnt - k + i]);
                                    } else {
                                        assert(fcs[i] == ccs[i - k]);
                                    }
                                    assert(fcs[0] == mcs[mcnt - k]);
                                    assert(c.hgt() == m.hgt());
                                }
                                assert(rc.wf_in(0, false, true));
                                assert(rm.wf_in(0, ml, false)) by {
                                    let pcs = rm->Internal_0.children@;
                                    assert forall|i: int| 0 <= i < pcs.len() implies (
                                    #[trigger] pcs[i]).wf_in(
                                        Self::cmin(ml, false, i, pcs.len() as int),
                                        ml && i == 0,
                                        false,
                                    ) by {
                                        assert(pcs[i] == mcs[i]);
                                        (*pcs[i]).lemma_wf_weaken(
                                            Self::cmin(ml, false, i, mcnt),
                                            ml && i == 0,
                                            false,
                                            Self::cmin(ml, false, i, pcs.len() as int),
                                            ml && i == 0,
                                            false,
                                        );
                                    }
                                    assert forall|i: int| 0 <= i < pcs.len() implies (
                                    #[trigger] pcs[i]).hgt() == pcs[0].hgt() by {
                                        assert(pcs[i] == mcs[i]);
                                        assert(pcs[0] == mcs[0]);
                                    }
                                }
                                assert(rc.hgt() == c.hgt()) by {
                                    assert(fcs[0] == mcs[mcnt - k]);
                                    assert(fcs[0].hgt() == mcs[0].hgt());
                                }
                            }
                            (rc, rm)
                        } else {
                            proof {
                                Tree::lemma_seq_pre_split(mcs, k as int, mcnt);
                            }
                            let tail = mn.children.split_off(k);
                            proof {
                                Tree::lemma_seq_pre_congruent(mn.children@, mcs, k as int);
                                Tree::lemma_seq_pre_congruent(
                                    tail@,
                                    mcs.subrange(k as int, mcnt),
                                    mcnt - k,
                                );
                            }
                            let msum = Tree::sum_lens(&mn.children);
                            proof {
                                Tree::lemma_seq_pre_concat(ccs, mn.children@);
                            }
                            cn.children.append(&mut mn.children);
                            cn.length = cn.length + msum;
                            mn.children = tail;
                            mn.length = mn.length - msum;
                            let rc = Tree::Internal(cn);
                            let rm = Tree::Internal(mn);
                            proof {
                                let fcs = rc->Internal_0.children@;
                                let fcnt = fcs.len() as int;
                                assert(fcs == ccs + mcs.subrange(0, k as int));
                                assert(rc.seqv() + rm.seqv() == c.seqv() + m.seqv());
                                assert forall|i: int| 0 <= i < fcnt implies (
                                #[trigger] fcs[i]).wf_in(
                                    Self::cmin(true, false, i, fcnt),
                                    i == 0,
                                    false,
                                ) by {
                                    if i < ccnt {
                                        assert(fcs[i] == ccs[i]);
                                        (*fcs[i]).lemma_wf_weaken(
                                            Self::cmin(true, false, i, ccnt),
                                            i == 0,
                                            false,
                                            Self::cmin(true, false, i, fcnt),
                                            i == 0,
                                            false,
                                        );
                                    } else {
                                        assert(fcs[i] == mcs[i - ccnt]);
                                        (*fcs[i]).lemma_wf_weaken(
                                            Self::cmin(false, ml, i - ccnt, mcnt),
                                            false,
                                            ml && i - ccnt == mcnt - 1,
                                            Self::cmin(true, false, i, fcnt),
                                            i == 0,
                                            false,
                                        );
                                    }
                                }
                                assert forall|i: int| 0 <= i < fcnt implies (
                                #[trigger] fcs[i]).hgt() == fcs[0].hgt() by {
                                    if i < ccnt {
                                        assert(fcs[i] == ccs[i]);
                                    } else {
                                        assert(fcs[i] == mcs[i - ccnt]);
                                    }
                                    assert(fcs[0] == ccs[0]);
                                    assert(c.hgt() == m.hgt());
                                }
                                assert(rc.wf_in(0, true, false));
                                assert(rm.wf_in(0, false, ml)) by {
                                    let pcs = rm->Internal_0.children@;
                                    let pcnt = pcs.len() as int;
                                    assert forall|i: int| 0 <= i < pcnt implies (
                                    #[trigger] pcs[i]).wf_in(
                                        Self::cmin(false, ml, i, pcnt),
                                        false,
                                        ml && i == pcnt - 1,
                                    ) by {
                                        assert(pcs[i] == mcs[k + i]);
                                        (*pcs[i]).lemma_wf_weaken(
                                            Self::cmin(false, ml, k + i, mcnt),
                                            false,
                                            ml && k + i == mcnt - 1,
                                            Self::cmin(false, ml, i, pcnt),
                                            false,
                                            ml && i == pcnt - 1,
                                        );
                                    }
                                    assert forall|i: int| 0 <= i < pcnt implies (
                                    #[trigger] pcs[i]).hgt() == pcs[0].hgt() by {
                                        assert(pcs[i] == mcs[k + i]);
                                        assert(pcs[0] == mcs[k as int]);
                                    }
                                }
                                assert(rm.hgt() == m.hgt()) by {
                                    let pcs = rm->Internal_0.children@;
                                    if pcs.len() > 0 {
                                        assert(pcs[0] == mcs[k as int]);
                                        assert(pcs[0].hgt() == mcs[0].hgt());
                                    }
                                }
                            }
                            (rc, rm)
                        }
                    },
                    Tree::Array(_) => vstd::pervasive::unreached(),
                }
            },
        }
    }
}

impl<T: Copy, const ORD: usize> Tree<T, ORD> {
    /// Keeps only the elements from position `key` on.  The result is
    /// well-formed except along its left spine, which the rebalance pass then
    /// repairs.
    fn drop_in(self, key: usize) -> (r: Self)
        requires
            4 <= ORD,
            self.wf_in(0, false, false),
            key <= self.seqv().len(),
        ensures
            r.seqv() == self.seqv().skip(key as int),
            r.hgt() == self.hgt(),
            r is Internal <==> self is Internal,
            r.wf_in(0, true, false),
        decreases self.hgt(),
    {
        match self {
            Tree::Array(mut items) => {
                let ghost iv = items@;
                let tail = items.split_off(key);
                proof {
                    assert(tail@ =~= iv.skip(key as int));
                }
                Tree::Array(tail)
            },
            Tree::Internal(n) => {
                let ghost cs0 = n.children@;
                let ghost len0 = cs0.len() as int;
                let ghost sv0 = Tree::seq_pre(cs0, len0);
                if key == 0 {
                    let res = Tree::Internal(n);
                    proof {
                        assert(res.seqv() =~= sv0.skip(0));
                        res.lemma_wf_weaken(0, false, false, 0, true, false);
                    }
                    return res;
                }
                let mut n = n;
                proof {
                    assert(cs0.len() >= 1) by {
                        if cs0.len() == 0 {
                            assert(Tree::seq_pre(cs0, 0) == Seq::<T>::empty());
                        }
                    }
                    assert forall|i: int| 0 <= i < len0 implies (#[trigger] cs0[i]).wf_in(
                        0,
                        true,
                        true,
                    ) by {
                        (*cs0[i]).lemma_wf_weaken(
                            Tree::<T, ORD>::cmin(false, false, i, len0),
                            false,
                            false,
                            0,
                            true,
                            true,
                        );
                    }
                }
                let (idx, offset) = n.key_to_idx_and_offset(key);
                let ghost gi = idx as int;
                proof {
                    Tree::lemma_seq_pre_decompose(cs0, gi);
                }
                let ghost aseq = Tree::seq_pre(cs0, gi);
                let ghost bseq = Tree::child_seq(cs0, gi);
                let ghost cseq = Tree::tailseq(cs0, gi + 1);
                let kept = n.children.split_off(idx);
                n.children = kept;
                let child = (&*n.children[0]).dup();
                proof {
                    assert(child.seqv() == bseq);
                    assert(child.wf_in(0, false, false)) by {
                        (*cs0[gi]).lemma_wf_weaken(
                            Tree::<T, ORD>::cmin(false, false, gi, len0),
                            false,
                            false,
                            0,
                            false,
                            false,
                        );
                    }
                    lemma_seq_skip_concat(aseq, bseq, cseq, key as int);
                }
                let child2 = child.drop_in(key - offset);
                n.children[0] = Arc::new(child2);
                n.length = n.length - key;
                let res = Tree::Internal(n);
                proof {
                    let csf = res->Internal_0.children@;
                    let lenf = csf.len() as int;
                    assert(lenf == len0 - gi);
                    Tree::lemma_seq_pre_decompose(csf, 0);
                    assert(Tree::seq_pre(csf, 0) == Seq::<T>::empty());
                    let tf = csf.subrange(1, lenf);
                    let t0 = cs0.subrange(gi + 1, len0);
                    assert forall|i: int| 0 <= i < lenf - 1 implies (#[trigger] tf[i]).seqv()
                        == t0[i].seqv() by {
                        assert(tf[i] == csf[i + 1]);
                        assert(csf[i + 1] == cs0[gi + 1 + i]);
                        assert(t0[i] == cs0[gi + 1 + i]);
                    }
                    Tree::lemma_seq_pre_congruent(tf, t0, lenf - 1);
                    assert(res.seqv() =~= Seq::<T>::empty() + child2.seqv() + Tree::tailseq(
                        cs0,
                        gi + 1,
                    ));
                    assert(res.seqv() == sv0.skip(key as int));
                    assert forall|i: int| 0 <= i < lenf implies (#[trigger] csf[i]).wf_in(
                        Tree::<T, ORD>::cmin(true, false, i, lenf),
                        i == 0,
                        false,
                    ) by {
                        if i > 0 {
                            assert(csf[i] == cs0[gi + i]);
                            (*csf[i]).lemma_wf_weaken(
                                Tree::<T, ORD>::cmin(false, false, gi + i, len0),
                                false,
                                false,
                                Tree::<T, ORD>::cmin(true, false, i, lenf),
                                i == 0,
                                false,
                            );
                        }
                    }
                    assert forall|i: int| 0 <= i < lenf implies (#[trigger] csf[i]).hgt()
                        == csf[0].hgt() by {
                        if i > 0 {
                            assert(csf[i] == cs0[gi + i]);
                        }
                        assert(child2.hgt() == cs0[gi].hgt());
                    }
                    assert(res.hgt() == 1 + csf[0].hgt());
                    assert(csf[0].hgt() == cs0[0].hgt());
                }
                res
            },
        }
    }

    /// Keeps only the elements before position `key`.  The result is
    /// well-formed except along its right spine, which the rebalance pass
    /// then repairs.
    fn take_in(self, key: usize) -> (r: Self)
        requires
            4 <= ORD,
            self.wf_in(0, false, false),
            key <= self.seqv().len(),
        ensures
            r.seqv() == self.seqv().take(key as int),
            r.hgt() == self.hgt(),
            r is Internal <==> self is Internal,
            r.wf_in(0, false, true),
        decreases self.hgt(),
    {
        match self {
            Tree::Array(mut items) => {
                let ghost iv = items@;
                items.truncate(key);
                proof {
                    assert(items@ =~= iv.take(key as int));
                }
                Tree::Array(items)
            },
            Tree::Internal(n) => {
                let ghost cs0 = n.children@;
                let ghost len0 = cs0.len() as int;
                let ghost sv0 = Tree::seq_pre(cs0, len0);
                if key == n.length {
                    let res = Tree::Internal(n);
                    proof {
                        assert(res.seqv() =~= sv0.take(sv0.len() as int));
                        res.lemma_wf_weaken(0, false, false, 0, false, true);
                    }
                    return res;
                }
                let mut n = n;
                proof {
                    assert(cs0.len() >= 1) by {
                        if cs0.len() == 0 {
                            assert(Tree::seq_pre(cs0, 0) == Seq::<T>::empty());
                        }
                    }
                    assert forall|i: int| 0 <= i < len0 implies (#[trigger] cs0[i]).wf_in(
                        0,
                        true,
                        true,
                    ) by {
                        (*cs0[i]).lemma_wf_weaken(
                            Tree::<T, ORD>::cmin(false, false, i, len0),
                            false,
                            false,
                            0,
                            true,
                            true,
                        );
                    }
                }
                let (idx, offset) = n.key_to_idx_and_offset(key);
                let ghost gi = idx as int;
                proof {
                    Tree::lemma_seq_pre_decompose(cs0, gi);
                }
                let ghost aseq = Tree::seq_pre(cs0, gi);
                let ghost bseq = Tree::child_seq(cs0, gi);
                let ghost cseq = Tree::tailseq(cs0, gi + 1);
                n.children.truncate(idx + 1);
                let child = (&*n.children[idx]).dup();
                proof {
                    assert(n.children@ == cs0.subrange(0, gi + 1));
                    assert(n.children@[gi] == cs0[gi]);
                    assert(child.seqv() == bseq);
                    assert(child.wf_in(0, false, false)) by {
                        (*cs0[gi]).lemma_wf_weaken(
                            Tree::<T, ORD>::cmin(false, false, gi, len0),
                            false,
                            false,
                            0,
                            false,
                            false,
                        );
                    }
                    lemma_seq_take_concat(aseq, bseq, cseq, key as int);
                }
                let child2 = child.take_in(key - offset);
                n.children[idx] = Arc::new(child2);
                n.length = key;
                let res = Tree::Internal(n);
                proof {
                    let csf = res->Internal_0.children@;
                    let lenf = csf.len() as int;
                    assert(lenf == gi + 1);
                    Tree::lemma_seq_pre_decompose(csf, gi);
                    assert(Tree::tailseq(csf, gi + 1) =~= Seq::<T>::empty());
                    Tree::lemma_seq_pre_congruent(csf, cs0, gi);
                    assert(res.seqv() =~= Tree::seq_pre(cs0, gi) + child2.seqv());
                    assert(res.seqv() == sv0.take(key as int));
                    assert forall|i: int| 0 <= i < lenf implies (#[trigger] csf[i]).wf_in(
                        Tree::<T, ORD>::cmin(false, true, i, lenf),
                        false,
                        i == lenf - 1,
                    ) by {
                        if i < gi {
                            assert(csf[i] == cs0[i]);
                            (*csf[i]).lemma_wf_weaken(
                                Tree::<T, ORD>::cmin(false, false, i, len0),
                                false,
                                false,
                                Tree::<T, ORD>::cmin(false, true, i, lenf),
                                false,
                                i == lenf - 1,
                            );
                        }
                    }
                    assert forall|i: int| 0 <= i < lenf implies (#[trigger] csf[i]).hgt()
                        == csf[0].hgt() by {
                        if i < gi {
                            assert(csf[i] == cs0[i]);
                        }
                        assert(child2.hgt() == cs0[gi].hgt());
                        if gi > 0 {
                            assert(csf[0] == cs0[0]);
                        }
                    }
                    assert(res.hgt() == 1 + csf[0].hgt());
                    assert(csf[0].hgt() == cs0[0].hgt());
                }
                res
            },
        }
    }

    /// Whether a lone root child is a leaf, as the canonical form demands.
    pub open spec fn lone_leaf_ok(self) -> bool {
        match self {
            Tree::Internal(node) => node.children@.len() == 1 ==> node.children@[0].is_leaf(),
            Tree::Array(_) => true,
        }
    }

    /// The rebalance pass at the root: prunes and repairs the chosen spine
    /// all the way down, then collapses any stack of single-child levels so
    /// that the root is compact again, and normalizes an emptied tree to the
    /// canonical empty form.
    #[verifier::rlimit(100)]
    fn fixup_root(self, is_right: bool, Ghost(l): Ghost<bool>, Ghost(r): Ghost<bool>) -> (res: Self)
        requires
            self.wf_root_loose(l, r),
            is_right ==> r,
            !is_right ==> l,
        ensures
            res.seqv() == self.seqv(),
            is_right ==> res.wf_root_loose(l, false),
            !is_right ==> res.wf_root_loose(false, r),
            res.lone_leaf_ok(),
        decreases self.hgt(),
    {
        let ghost sv0 = self.seqv();
        let ghost sl: bool = if is_right {
            l
        } else {
            false
        };
        let ghost sr: bool = if is_right {
            false
        } else {
            r
        };
        match self {
            Tree::Array(_) => vstd::pervasive::unreached(),
            Tree::Internal(n) => {
                let mut n = n;
                if n.length == 0 {
                    n.children = Vec::new();
                    n.children.push(Arc::new(Tree::Array(Vec::new())));
                    let res = Tree::Internal(n);
                    proof {
                        let csf = res->Internal_0.children@;
                        assert(csf[0].seqv() =~= Seq::<T>::empty());
                        assert(Tree::seq_pre(csf, 1) == Tree::seq_pre(csf, 0) + csf[0].seqv());
                        assert(res.seqv() =~= sv0);
                        assert(csf[0].hgt() == 0);
                    }
                    return res;
                }
                let ghost cs0 = n.children@;
                let ghost len0 = cs0.len() as int;
                proof {
                    if len0 == 1 {
                        assert(cs0[0].wf_in(Tree::<T, ORD>::cmin(l, r, 0, 1), l, r)) by {
                            (*cs0[0]).lemma_wf_weaken(
                                0,
                                l,
                                r,
                                Tree::<T, ORD>::cmin(l, r, 0, 1),
                                l,
                                r,
                            );
                        }
                    }
                }
                let (pn, pruned) = Tree::prune_edge(n, is_right, Ghost(l), Ghost(r));
                let mut n = pn;
                if n.children.len() >= 2 && !pruned {
                    n = Tree::fixup_pair(n, is_right, Ghost(if is_right {
                        l
                    } else {
                        r
                    }));
                } else if n.children.len() == 1 && !pruned {
                    let c = (&*n.children[0]).dup();
                    proof {
                        assert(n.children@[0].wf_in(Tree::<T, ORD>::cmin(l, r, 0, 1), l, r));
                        assert(c.seqv() =~= Tree::seq_pre(n.children@, 1)) by {
                            assert(Tree::seq_pre(n.children@, 1) == Tree::seq_pre(n.children@, 0)
                                + n.children@[0].seqv());
                        }
                        if is_right {
                            c.lemma_wf_weaken(Tree::<T, ORD>::cmin(l, r, 0, 1), l, r, 0, l, true);
                        } else {
                            c.lemma_wf_weaken(Tree::<T, ORD>::cmin(l, r, 0, 1), l, r, 0, true, r);
                        }
                    }
                    let c2 = c.fixup_node(is_right, Ghost(if is_right {
                        l
                    } else {
                        r
                    }));
                    n.children[0] = Arc::new(c2);
                    proof {
                        assert(Tree::seq_pre(n.children@, 1) == Tree::seq_pre(n.children@, 0)
                            + n.children@[0].seqv());
                    }
                } else {
                    proof {
                        // after a prune the repaired spine is already clean
                        let cs1 = n.children@;
                        let len1 = cs1.len() as int;
                        if len1 >= 2 {
                            let e: int = if is_right {
                                len1 - 1
                            } else {
                                0
                            };
                            assert forall|i: int| 0 <= i < len1 implies (#[trigger] cs1[i]).wf_in(
                                Tree::<T, ORD>::cmin(sl, sr, i, len1),
                                sl && i == 0,
                                sr && i == len1 - 1,
                            ) by {
                                if i == e {
                                    (*cs1[i]).lemma_wf_weaken(
                                        (ORD / 2) as nat,
                                        false,
                                        false,
                                        Tree::<T, ORD>::cmin(sl, sr, i, len1),
                                        sl && i == 0,
                                        sr && i == len1 - 1,
                                    );
                                } else {
                                    (*cs1[i]).lemma_wf_weaken(
                                        Tree::<T, ORD>::cmin(l, r, i, len1),
                                        l && i == 0,
                                        r && i == len1 - 1,
                                        Tree::<T, ORD>::cmin(sl, sr, i, len1),
                                        sl && i == 0,
                                        sr && i == len1 - 1,
                                    );
                                }
                            }
                        } else {
                            assert((*cs1[0]).repaired(is_right, if is_right {
                                l
                            } else {
                                r
                            })) by {
                                if is_right {
                                    (*cs1[0]).lemma_wf_weaken(0, l, false, 0, l, false);
                                    (*cs1[0]).lemma_wf_repaired(true, l);
                                } else {
                                    (*cs1[0]).lemma_wf_weaken(0, false, r, 0, false, r);
                                    (*cs1[0]).lemma_wf_repaired(false, r);
                                }
                            }
                        }
                    }
                }
                // collapse single-child levels down to a compact root
                let ghost total = n.length as nat;
                loop
                    invariant
                        4 <= ORD,
                        n.root,
                        n.length == total,
                        total == sv0.len(),
                        1 <= n.children@.len() <= ORD,
                        n.length == Tree::seq_pre(n.children@, n.children@.len() as int).len(),
                        Tree::seq_pre(n.children@, n.children@.len() as int) == sv0,
                        sv0.len() >= 1,
                        is_right ==> sl == l && sr == false,
                        !is_right ==> sl == false && sr == r,
                        n.children@.len() == 1 ==> n.children@[0].repaired(is_right, if is_right {
                            l
                        } else {
                            r
                        }),
                        n.children@.len() >= 2 ==> (forall|i: int|
                            0 <= i < n.children@.len() ==> (#[trigger] n.children@[i]).wf_in(
                                Tree::<T, ORD>::cmin(sl, sr, i, n.children@.len() as int),
                                sl && i == 0,
                                sr && i == n.children@.len() - 1,
                            )),
                        forall|i: int|
                            0 <= i < n.children@.len() ==> (#[trigger] n.children@[i]).hgt()
                                == n.children@[0].hgt(),
                    ensures
                        n.children@.len() == 1 ==> n.children@[0].is_leaf(),
                    decreases n.children@[0].hgt(),
                {
                    if n.children.len() != 1 {
                        break;
                    }
                    let c = (&*n.children[0]).dup();
                    match c {
                        Tree::Array(_) => {
                            break;
                        },
                        Tree::Internal(cn) => {
                            proof {
                                assert(n.children@[0].repaired(is_right, if is_right {
                                    l
                                } else {
                                    r
                                }));
                                assert(c.repaired(is_right, if is_right {
                                    l
                                } else {
                                    r
                                }));
                                let ccs = cn.children@;
                                assert(c.seqv() =~= Tree::seq_pre(n.children@, 1)) by {
                                    assert(Tree::seq_pre(n.children@, 1) == Tree::seq_pre(
                                        n.children@,
                                        0,
                                    ) + n.children@[0].seqv());
                                }
                                if c.cnt() == 1 {
                                    assert(ccs[0].repaired(is_right, if is_right {
                                        l
                                    } else {
                                        r
                                    }));
                                } else {
                                    assert(c.cnt() >= 1) by {
                                        if c.cnt() == 0 {
                                            assert(c.seqv() =~= Seq::<T>::empty());
                                        }
                                    }
                                    if is_right {
                                        assert(c.wf_in(0, l, false));
                                    } else {
                                        assert(c.wf_in(0, false, r));
                                    }
                                }
                            }
                            n.children = cn.children;
                        },
                    }
                }
                let res = Tree::Internal(n);
                proof {
                    if res.cnt() == 1 {
                        assert(res->Internal_0.children@[0].repaired(is_right, if is_right {
                            l
                        } else {
                            r
                        }));
                        assert(res->Internal_0.children@[0].is_leaf());
                    }
                }
                res
            },
        }
    }

    /// Wraps the tree in a new single-child root level, raising its height
    /// by one.  Concatenation pads the shorter tree this way until the two
    /// heights match.
    fn pad_once(self, Ghost(lf): Ghost<bool>, Ghost(rf): Ghost<bool>) -> (r: Self)
        requires
            4 <= ORD,
            self.wf_root_loose(lf, rf),
            lf || rf,
            self.hgt() < usize::MAX,
        ensures
            r.wf_root_loose(lf, rf),
            r.seqv() == self.seqv(),
            r.hgt() == self.hgt() + 1,
    {
        let ghost sv0 = self.seqv();
        let ghost h0 = self.hgt();
        match self {
            Tree::Array(_) => vstd::pervasive::unreached(),
            Tree::Internal(n) => {
                let mut n = n;
                n.root = false;
                let len = n.length;
                let d = Tree::Internal(n);
                proof {
                    assert(d.wf_in(0, lf, rf));
                    assert(d.hgt() == h0);
                }
                let mut children: Vec<Arc<Tree<T, ORD>>> = Vec::new();
                children.push(Arc::new(d));
                let res = Tree::Internal(Internal { length: len, children, root: true });
                proof {
                    let cs = res->Internal_0.children@;
                    assert(Tree::seq_pre(cs, 1) == Tree::seq_pre(cs, 0) + cs[0].seqv());
                    assert(res.seqv() =~= sv0);
                    assert(cs[0].hgt() == d.hgt());
                    assert(res.hgt() == 1 + d.hgt());
                }
                res
            },
        }
    }

    /// Appends the sequence of `other` to this tree.  Heights are aligned by
    /// padding the shorter side, the two roots are merged or balanced, and
    /// the rebalance pass then repairs both sides of the seam.
    #[verifier::rlimit(100)]
    pub fn concat(&mut self, other: Self)
        requires
            old(self).wf_root(),
            other.wf_root(),
            old(self).seqv().len() + other.seqv().len() <= usize::MAX,
        ensures
            final(self).wf_root(),
            final(self).seqv() == old(self).seqv() + other.seqv(),
    {
        let ghost asv = self.seqv();
        let ghost bsv = other.seqv();
        let lena = self.len();
        let lenb = other.len();
        if lena == 0 {
            *self = other;
            proof {
                assert(asv =~= Seq::<T>::empty());
                assert(asv + bsv =~= bsv);
            }
            return ;
        }
        if lenb == 0 {
            proof {
                assert(bsv =~= Seq::<T>::empty());
                assert(asv + bsv =~= asv);
            }
            return ;
        }
        let mut a: Tree<T, ORD> = Tree::Array(Vec::new());
        std::mem::swap(self, &mut a);
        let mut b = other;
        proof {
            a.lemma_hgt_bound_root();
            b.lemma_hgt_bound_root();
            a.lemma_root_loosen(true, false);
            b.lemma_root_loosen(false, true);
        }
        let mut ha = a.height();
        let mut hb = b.height();
        while ha < hb
            invariant
                4 <= ORD,
                a.wf_root_loose(true, false),
                b.wf_root_loose(false, true),
                ha == a.hgt(),
                hb == b.hgt(),
                hb <= usize::MAX,
                a.seqv() == asv,
                b.seqv() == bsv,
            decreases hb - ha,
        {
            a = a.pad_once(Ghost(true), Ghost(false));
            ha = ha + 1;
        }
        while hb < ha
            invariant
                4 <= ORD,
                a.wf_root_loose(true, false),
                b.wf_root_loose(false, true),
                ha == a.hgt(),
                hb == b.hgt(),
                hb <= ha <= usize::MAX,
                a.seqv() == asv,
                b.seqv() == bsv,
            decreases ha - hb,
        {
            b = b.pad_once(Ghost(false), Ghost(true));
            hb = hb + 1;
        }
        proof {
            assert(ha == hb);
            assert(a.hgt() == b.hgt());
        }
        let ghost ga = a;
        let ghost gb = b;
        let (an, bn) = match (a, b) {
            (Tree::Internal(an), Tree::Internal(bn)) => (an, bn),
            _ => vstd::pervasive::unreached(),
        };
        let ca = an.children.len();
        let cb = bn.children.len();
        let merged: Tree<T, ORD>;
        if cb <= ORD - ca {
            // both child lists fit under one root
            let mut an = an;
            let mut bn = bn;
            let ghost acs = an.children@;
            let ghost bcs = bn.children@;
            proof {
                Tree::lemma_seq_pre_concat(acs, bcs);
                assert(ga.hgt() == 1 + acs[0].hgt());
                assert(gb.hgt() == 1 + bcs[0].hgt());
                assert(acs[0].hgt() == bcs[0].hgt());
            }
            let blen = bn.length;
            an.children.append(&mut bn.children);
            an.length = an.length + blen;
            merged = Tree::Internal(an);
            proof {
                let cs = merged->Internal_0.children@;
                let cnt = cs.len() as int;
                let gca = acs.len() as int;
                assert(cs == acs + bcs);
                assert(merged.seqv() == asv + bsv);
                assert forall|i: int| 0 <= i < cnt implies (#[trigger] cs[i]).hgt()
                    == cs[0].hgt() by {
                    if i < gca {
                        assert(cs[i] == acs[i]);
                    } else {
                        assert(cs[i] == bcs[i - gca]);
                    }
                    assert(cs[0] == acs[0]);
                }
                assert forall|i: int| 0 <= i < cnt implies (#[trigger] cs[i]).wf_in(
                    Tree::<T, ORD>::cmin(true, true, i, cnt),
                    true && i == 0,
                    true && i == cnt - 1,
                ) by {
                    if i < gca {
                        assert(cs[i] == acs[i]);
                        (*cs[i]).lemma_wf_weaken(
                            if gca == 1 {
                                0
                            } else {
                                Tree::<T, ORD>::cmin(true, false, i, gca)
                            },
                            true && i == 0,
                            false,
                            Tree::<T, ORD>::cmin(true, true, i, cnt),
                            true && i == 0,
                            true && i == cnt - 1,
                        );
                    } else {
                        assert(cs[i] == bcs[i - gca]);
                        (*cs[i]).lemma_wf_weaken(
                            if bcs.len() == 1 {
                                0
                            } else {
                                Tree::<T, ORD>::cmin(false, true, i - gca, bcs.len() as int)
                            },
                            false,
                            true && i - gca == bcs.len() - 1,
                            Tree::<T, ORD>::cmin(true, true, i, cnt),
                            true && i == 0,
                            true && i == cnt - 1,
                        );
                    }
                }
                assert(merged.wf_root_loose(true, true));
            }
        } else {
            // balance the two child lists, then put both under a new root
            let mut an = an;
            let mut bn = bn;
            an.root = false;
            bn.root = false;
            let at = Tree::Internal(an);
            let bt = Tree::Internal(bn);
            proof {
                assert(at.wf_in(0, true, false));
                assert(bt.wf_in(0, false, true));
                assert(at.hgt() == ga.hgt());
                assert(bt.hgt() == gb.hgt());
                assert(at.hgt() == bt.hgt());
            }
            let half: usize = ORD / 2;
            let (at2, bt2) = if ca < half {
                let (c2, m2) = Tree::steal_siblings(at, bt, false, half, Ghost(true));
                (c2, m2)
            } else if cb < half {
                let (c2, m2) = Tree::steal_siblings(bt, at, true, half, Ghost(true));
                (m2, c2)
            } else {
                (at, bt)
            };
            let total = lena + lenb;
            let mut children: Vec<Arc<Tree<T, ORD>>> = Vec::new();
            children.push(Arc::new(at2));
            children.push(Arc::new(bt2));
            merged = Tree::Internal(Internal { length: total, children, root: true });
            proof {
                let cs = merged->Internal_0.children@;
                assert(cs[0].seqv() == at2.seqv());
                assert(cs[1].seqv() == bt2.seqv());
                assert(Tree::seq_pre(cs, 1) == Tree::seq_pre(cs, 0) + cs[0].seqv());
                assert(Tree::seq_pre(cs, 2) == Tree::seq_pre(cs, 1) + cs[1].seqv());
                assert(Tree::seq_pre(cs, 2) =~= at2.seqv() + bt2.seqv());
                assert(at2.seqv() + bt2.seqv() == asv + bsv);
                assert(merged.seqv() == asv + bsv);
                assert(cs[0].wf_in(0, true, false));
                assert(cs[1].wf_in(0, false, true));
                assert(cs[1].hgt() == cs[0].hgt());
                assert(merged.wf_root_loose(true, true));
            }
        }
        let fixed1 = merged.fixup_root(true, Ghost(true), Ghost(true));
        let fixed2 = fixed1.fixup_root(false, Ghost(true), Ghost(false));
        proof {
            assert(fixed2.wf_root()) by {
                assert(fixed2.wf_root_loose(false, false));
            }
        }
        *self = fixed2;
    }

    /// Retains only the elements from position `key` on; the elements before
    /// it are discarded.
    pub fn drop_head(&mut self, key: usize)
        requires
            old(self).wf_root(),
            key <= old(self).seqv().len(),
        ensures
            final(self).wf_root(),
            final(self).seqv() == old(self).seqv().skip(key as int),
    {
        let ghost sv0 = self.seqv();
        if key == 0 {
            proof {
                assert(sv0.skip(0) =~= sv0);
            }
            return ;
        }
        let mut tmp: Tree<T, ORD> = Tree::Array(Vec::new());
        std::mem::swap(self, &mut tmp);
        let t = tmp.drop_in_root(key);
        let t = t.fixup_root(false, Ghost(true), Ghost(false));
        proof {
            assert(t.wf_root()) by {
                assert(t.wf_root_loose(false, false));
            }
        }
        *self = t;
    }

    /// Retains only the elements before position `key`; the elements from it
    /// on are discarded.
    pub fn take_head(&mut self, key: usize)
        requires
            old(self).wf_root(),
            key <= old(self).seqv().len(),
        ensures
            final(self).wf_root(),
            final(self).seqv() == old(self).seqv().take(key as int),
    {
        let ghost sv0 = self.seqv();
        if key == self.len() {
            proof {
                assert(sv0.take(sv0.len() as int) =~= sv0);
            }
            return ;
        }
        let mut tmp: Tree<T, ORD> = Tree::Array(Vec::new());
        std::mem::swap(self, &mut tmp);
        let t = tmp.take_in_root(key);
        let t = t.fixup_root(true, Ghost(false), Ghost(true));
        proof {
            assert(t.wf_root()) by {
                assert(t.wf_root_loose(false, false));
            }
        }
        *self = t;
    }

    /// The truncation step on the root node itself, before the rebalance.
    fn drop_in_root(self, key: usize) -> (res: Self)
        requires
            self.wf_root(),
            1 <= key <= self.seqv().len(),
        ensures
            res.wf_root_loose(true, false),
            res.seqv() == self.seqv().skip(key as int),
    {
        let ghost sv0 = self.seqv();
        match self {
            Tree::Array(_) => vstd::pervasive::unreached(),
            Tree::Internal(n) => {
                let mut n = n;
                let ghost cs0 = n.children@;
                let ghost len0 = cs0.len() as int;
                proof {
                    assert forall|i: int| 0 <= i < len0 implies (#[trigger] cs0[i]).wf_in(
                        0,
                        true,
                        true,
                    ) by {
                        (*cs0[i]).lemma_wf_weaken(
                            if len0 == 1 {
                                0
                            } else {
                                (ORD / 2) as nat
                            },
                            false,
                            false,
                            0,
                            true,
                            true,
                        );
                    }
                }
                let (idx, offset) = n.key_to_idx_and_offset(key);
                let ghost gi = idx as int;
                proof {
                    Tree::lemma_seq_pre_decompose(cs0, gi);
                }
                let ghost aseq = Tree::seq_pre(cs0, gi);
                let ghost bseq = Tree::child_seq(cs0, gi);
                let ghost cseq = Tree::tailseq(cs0, gi + 1);
                let kept = n.children.split_off(idx);
                n.children = kept;
                let child = (&*n.children[0]).dup();
                proof {
                    assert(child.seqv() == bseq);
                    assert(child.wf_in(0, false, false)) by {
                        (*cs0[gi]).lemma_wf_weaken(
                            if len0 == 1 {
                                0
                            } else {
                                (ORD / 2) as nat
                            },
                            false,
                            false,
                            0,
                            false,
                            false,
                        );
                    }
                    lemma_seq_skip_concat(aseq, bseq, cseq, key as int);
                }
                let child2 = child.drop_in(key - offset);
                n.children[0] = Arc::new(child2);
                n.length = n.length - key;
                let res = Tree::Internal(n);
                proof {
                    let csf = res->Internal_0.children@;
                    let lenf = csf.len() as int;
                    Tree::lemma_seq_pre_decompose(csf, 0);
                    assert(Tree::seq_pre(csf, 0) == Seq::<T>::empty());
                    let tf = csf.subrange(1, lenf);
                    let t0 = cs0.subrange(gi + 1, len0);
                    assert forall|i: int| 0 <= i < lenf - 1 implies (#[trigger] tf[i]).seqv()
                        == t0[i].seqv() by {
                        assert(tf[i] == csf[i + 1]);
                        assert(csf[i + 1] == cs0[gi + 1 + i]);
                        assert(t0[i] == cs0[gi + 1 + i]);
                    }
                    Tree::lemma_seq_pre_congruent(tf, t0, lenf - 1);
                    assert(res.seqv() =~= Seq::<T>::empty() + child2.seqv() + Tree::tailseq(
                        cs0,
                        gi + 1,
                    ));
                    assert(res.seqv() == sv0.skip(key as int));
                    assert forall|i: int| 0 <= i < lenf implies (#[trigger] csf[i]).wf_in(
                        if lenf == 1 {
                            0
                        } else {
                            Tree::<T, ORD>::cmin(true, false, i, lenf)
                        },
                        true && i == 0,
                        false,
                    ) by {
                        if i > 0 {
                            assert(csf[i] == cs0[gi + i]);
                            (*csf[i]).lemma_wf_weaken(
                                (ORD / 2) as nat,
                                false,
                                false,
                                Tree::<T, ORD>::cmin(true, false, i, lenf),
                                i == 0,
                                false,
                            );
                        }
                    }
                    assert forall|i: int| 0 <= i < lenf implies (#[trigger] csf[i]).hgt()
                        == csf[0].hgt() by {
                        if i > 0 {
                            assert(csf[i] == cs0[gi + i]);
                        }
                        assert(child2.hgt() == cs0[gi].hgt());
                    }
                }
                res
            },
        }
    }

    /// The truncation step on the root node itself, before the rebalance.
    fn take_in_root(self, key: usize) -> (res: Self)
        requires
            self.wf_root(),
            key < self.seqv().len(),
        ensures
            res.wf_root_loose(false, true),
            res.seqv() == self.seqv().take(key as int),
    {
        let ghost sv0 = self.seqv();
        match self {
            Tree::Array(_) => vstd::pervasive::unreached(),
            Tree::Internal(n) => {
                let mut n = n;
                let ghost cs0 = n.children@;
                let ghost len0 = cs0.len() as int;
                proof {
                    assert forall|i: int| 0 <= i < len0 implies (#[trigger] cs0[i]).wf_in(
                        0,
                        true,
                        true,
                    ) by {
                        (*cs0[i]).lemma_wf_weaken(
                            if len0 == 1 {
                                0
                            } else {
                                (ORD / 2) as nat
                            },
                            false,
                            false,
                            0,
                            true,
                            true,
                        );
                    }
                }
                let (idx, offset) = n.key_to_idx_and_offset(key);
                let ghost gi = idx as int;
                proof {
                    Tree::lemma_seq_pre_decompose(cs0, gi);
                }
                let ghost aseq = Tree::seq_pre(cs0, gi);
                let ghost bseq = Tree::child_seq(cs0, gi);
                let ghost cseq = Tree::tailseq(cs0, gi + 1);
                n.children.truncate(idx + 1);
                let child = (&*n.children[idx]).dup();
                proof {
                    assert(n.children@ == cs0.subrange(0, gi + 1));
                    assert(n.children@[gi] == cs0[gi]);
                    assert(child.seqv() == bseq);
                    assert(child.wf_in(0, false, false)) by {
                        (*cs0[gi]).lemma_wf_weaken(
                            if len0 == 1 {
                                0
                            } else {
                                (ORD / 2) as nat
                            },
                            false,
                            false,
                            0,
                            false,
                            false,
                        );
                    }
                    lemma_seq_take_concat(aseq, bseq, cseq, key as int);
                }
                let child2 = child.take_in(key - offset);
                n.children[idx] = Arc::new(child2);
                n.length = key;
                let res = Tree::Internal(n);
                proof {
                    let csf = res->Internal_0.children@;
                    let lenf = csf.len() as int;
                    assert(lenf == gi + 1);
                    Tree::lemma_seq_pre_decompose(csf, gi);
                    assert(Tree::tailseq(csf, gi + 1) =~= Seq::<T>::empty());
                    Tree::lemma_seq_pre_congruent(csf, cs0, gi);
                    assert(res.seqv() =~= Tree::seq_pre(cs0, gi) + child2.seqv());
                    assert(res.seqv() == sv0.take(key as int));
                    assert forall|i: int| 0 <= i < lenf implies (#[trigger] csf[i]).wf_in(
                        if lenf == 1 {
                            0
                        } else {
                            Tree::<T, ORD>::cmin(false, true, i, lenf)
                        },
                        false,
                        true && i == lenf - 1,
                    ) by {
                        if i < gi {
                            assert(csf[i] == cs0[i]);
                            (*csf[i]).lemma_wf_weaken(
                                (ORD / 2) as nat,
                                false,
                                false,
                                Tree::<T, ORD>::cmin(false, true, i, lenf),
                                false,
                                i == lenf - 1,
                            );
                        }
                    }
                    assert forall|i: int| 0 <= i < lenf implies (#[trigger] csf[i]).hgt()
                        == csf[0].hgt() by {
                        if i < gi {
                            assert(csf[i] == cs0[i]);
                        }
                        assert(child2.hgt() == cs0[gi].hgt());
                        if gi > 0 {
                            assert(csf[0] == cs0[0]);
                        }
                    }
                }
                res
            },
        }
    }
}

impl<T: Copy, const ORD: usize> Clone for Tree<T, ORD> {
    /// A one-node copy: the children of an internal node stay shared with
    /// the original through their reference-counted handles.
    fn clone(&self) -> (r: Self)
        ensures
            r.seqv() == self.seqv(),
            r.hgt() == self.hgt(),
            r.cnt() == self.cnt(),
            r is Internal <==> self is Internal,
            forall|min: nat, l: bool, rr: bool|
                self.wf_in(min, l, rr) ==> #[trigger] r.wf_in(min, l, rr),
            self.wf_root() ==> r.wf_root(),
    {
        self.dup()
    }
}

impl<T: Copy, const ORD: usize> Tree<T, ORD> {
    /// Overwrites the element at position `key`.  The path down to it is
    /// made uniquely owned first, so clones of the tree keep their old
    /// value.
    fn set_in(self, key: usize, value: T, Ghost(lo): Ghost<nat>) -> (r: Self)
        requires
            4 <= ORD,
            self.wf_in(lo, false, false),
            key < self.seqv().len(),
        ensures
            r.seqv() == self.seqv().update(key as int, value),
            r.hgt() == self.hgt(),
            r.cnt() == self.cnt(),
            r is Internal <==> self is Internal,
            r.wf_in(lo, false, false),
        decreases self.hgt(),
    {
        broadcast use Tree::lemma_seq_pre_update;

        match self {
            Tree::Array(mut items) => {
                items[key] = value;
                Tree::Array(items)
            },
            Tree::Internal(n) => {
                let mut n = n;
                let ghost cs0 = n.children@;
                let ghost len0 = cs0.len() as int;
                let ghost sv0 = Tree::seq_pre(cs0, len0);
                proof {
                    assert(cs0.len() >= 1) by {
                        if cs0.len() == 0 {
                            assert(Tree::seq_pre(cs0, 0) == Seq::<T>::empty());
                        }
                    }
                    assert forall|i: int| 0 <= i < len0 implies (#[trigger] cs0[i]).wf_in(
                        0,
                        true,
                        true,
                    ) by {
                        (*cs0[i]).lemma_wf_weaken(
                            Tree::<T, ORD>::cmin(false, false, i, len0),
                            false,
                            false,
                            0,
                            true,
                            true,
                        );
                    }
                }
                let (idx, offset) = n.key_to_idx_and_offset(key);
                let ghost gi = idx as int;
                proof {
                    Tree::lemma_seq_pre_decompose(cs0, gi);
                    lemma_seq_update_concat(
                        Tree::seq_pre(cs0, gi),
                        Tree::child_seq(cs0, gi),
                        Tree::tailseq(cs0, gi + 1),
                        key as int,
                    );
                }
                let child = (&*n.children[idx]).dup();
                proof {
                    assert(child.wf_in((ORD / 2) as nat, false, false)) by {
                        (*cs0[gi]).lemma_wf_weaken(
                            Tree::<T, ORD>::cmin(false, false, gi, len0),
                            false,
                            false,
                            (ORD / 2) as nat,
                            false,
                            false,
                        );
                    }
                }
                let child2 = child.set_in(key - offset, value, Ghost((ORD / 2) as nat));
                n.children[idx] = Arc::new(child2);
                let res = Tree::Internal(n);
                proof {
                    let csf = res->Internal_0.children@;
                    assert(csf == cs0.update(gi, csf[gi]));
                    let aseq = Tree::seq_pre(cs0, gi);
                    let bseq = Tree::child_seq(cs0, gi);
                    let cseq = Tree::tailseq(cs0, gi + 1);
                    assert(csf[gi].seqv() == bseq.update(key - offset, value));
                    assert(Tree::seq_pre(cs0.update(gi, csf[gi]), cs0.len() as int) == aseq
                        + csf[gi].seqv() + cseq);
                    assert((aseq + bseq + cseq).update(key as int, value) == aseq + bseq.update(
                        key - offset,
                        value,
                    ) + cseq);
                    assert(res.seqv() == sv0.update(key as int, value));
                    assert forall|i: int| 0 <= i < len0 implies (#[trigger] csf[i]).hgt()
                        == cs0[0].hgt() by {
                        if i != gi {
                            assert(csf[i] == cs0[i]);
                        }
                    }
                    assert(csf[0].hgt() == cs0[0].hgt());
                    assert forall|i: int| 0 <= i < len0 implies (#[trigger] csf[i]).wf_in(
                        Tree::<T, ORD>::cmin(false, false, i, len0),
                        false,
                        false,
                    ) by {
                        if i != gi {
                            assert(csf[i] == cs0[i]);
                        }
                    }
                }
                res
            },
        }
    }

    /// Overwrites the element at position `key`, returning whether the
    /// position was in range.  The traversed path is made uniquely owned on
    /// the way down (copy-on-write), so clones of this tree are unaffected.
    pub fn set(&mut self, key: usize, value: T) -> (r: bool)
        requires
            old(self).wf_root(),
        ensures
            r <==> key < old(self).seqv().len(),
            r ==> final(self).wf_root() && final(self).seqv() == old(self).seqv().update(
                key as int,
                value,
            ),
            !r ==> *final(self) == *old(self),
    {
        broadcast use Tree::lemma_seq_pre_update;

        let in_range = match self {
            Tree::Internal(node) => key < node.length,
            Tree::Array(_) => false,
        };
        if !in_range {
            return false;
        }
        let mut tmp: Tree<T, ORD> = Tree::Array(Vec::new());
        std::mem::swap(self, &mut tmp);
        match tmp {
            Tree::Array(_) => vstd::pervasive::unreached(),
            Tree::Internal(n) => {
                let mut n = n;
                let ghost cs0 = n.children@;
                let ghost len0 = cs0.len() as int;
                let ghost sv0 = Tree::seq_pre(cs0, len0);
                let ghost lo_child: nat = if len0 == 1 {
                    0
                } else {
                    (ORD / 2) as nat
                };
                proof {
                    assert forall|i: int| 0 <= i < len0 implies (#[trigger] cs0[i]).wf_in(
                        0,
                        true,
                        true,
                    ) by {
                        (*cs0[i]).lemma_wf_weaken(lo_child, false, false, 0, true, true);
                    }
                }
                let (idx, offset) = n.key_to_idx_and_offset(key);
                let ghost gi = idx as int;
                proof {
                    Tree::lemma_seq_pre_decompose(cs0, gi);
                    lemma_seq_update_concat(
                        Tree::seq_pre(cs0, gi),
                        Tree::child_seq(cs0, gi),
                        Tree::tailseq(cs0, gi + 1),
                        key as int,
                    );
                }
                let child = (&*n.children[idx]).dup();
                let child2 = child.set_in(key - offset, value, Ghost(lo_child));
                n.children[idx] = Arc::new(child2);
                let res = Tree::Internal(n);
                proof {
                    let csf = res->Internal_0.children@;
                    assert(csf == cs0.update(gi, csf[gi]));
                    let aseq = Tree::seq_pre(cs0, gi);
                    let bseq = Tree::child_seq(cs0, gi);
                    let cseq = Tree::tailseq(cs0, gi + 1);
                    assert(csf[gi].seqv() == bseq.update(key - offset, value));
                    assert(Tree::seq_pre(cs0.update(gi, csf[gi]), cs0.len() as int) == aseq
                        + csf[gi].seqv() + cseq);
                    assert((aseq + bseq + cseq).update(key as int, value) == aseq + bseq.update(
                        key - offset,
                        value,
                    ) + cseq);
                    assert(res.seqv() == sv0.update(key as int, value));
                    assert forall|i: int| 0 <= i < len0 implies (#[trigger] csf[i]).hgt()
                        == cs0[0].hgt() by {
                        if i != gi {
                            assert(csf[i] == cs0[i]);
                        }
                    }
                    assert(csf[0].hgt() == cs0[0].hgt());
                    assert forall|i: int| 0 <= i < len0 implies (#[trigger] csf[i]).wf_in(
                        if len0 == 1 {
                            0nat
                        } else {
                            (ORD / 2) as nat
                        },
                        false,
                        false,
                    ) by {
                        if i != gi {
                            assert(csf[i] == cs0[i]);
                        }
                    }
                    assert(res.wf_root());
                }
                *self = res;
                true
            },
        }
    }
}

impl<T: Copy, const ORD: usize> Tree<T, ORD> {
    /// Checks every structural invariant of a non-root subtree by walking
    /// it: occupancy at least `min` here and at least half the fanout below,
    /// correct cached counts, and every leaf at the same depth.
    fn check_in(&self, min: usize) -> (r: bool)
        requires
            4 <= ORD,
        ensures
            r == self.wf_in(min as nat, false, false),
        decreases *self, 1int,
    {
        match self {
            Tree::Array(items) => min <= items.len() && items.len() <= ORD,
            Tree::Internal(node) => {
                if node.root {
                    return false;
                }
                if !(min <= node.children.len() && node.children.len() <= ORD) {
                    return false;
                }
                Tree::check_node(node)
            },
        }
    }

    /// The children-level part of the walk: every child well-formed with
    /// minimum occupancy, all children of one height, and the cached count
    /// equal to the sum of the children's counts.
    fn check_node(node: &Internal<T, ORD>) -> (r: bool)
        requires
            4 <= ORD,
            node.children@.len() <= ORD,
        ensures
            r == ({
                &&& (forall|j: int|
                    0 <= j < node.children@.len() ==> (#[trigger] node.children@[j]).wf_in(
                        (ORD / 2) as nat,
                        false,
                        false,
                    ))
                &&& (forall|j: int|
                    0 <= j < node.children@.len() ==> (#[trigger] node.children@[j]).hgt()
                        == node.children@[0].hgt())
                &&& node.length == Tree::seq_pre(
                    node.children@,
                    node.children@.len() as int,
                ).len()
            }),
        decreases node.children, 0int,
    {
        broadcast use vstd::std_specs::vec::group_vec_axioms;

        let ghost cs = node.children@;
        let cnt = node.children.len();
        let half = ORD / 2;
        let mut i: usize = 0;
        let mut sum: usize = 0;
        let mut h0: usize = 0;
        while i < cnt
            invariant
                4 <= ORD,
                half == ORD / 2,
                cnt == cs.len(),
                cs == node.children@,
                node.children@.len() <= ORD,
                i <= cnt,
                forall|j: int|
                    0 <= j < i ==> (#[trigger] cs[j]).wf_in((ORD / 2) as nat, false, false),
                forall|j: int| 0 <= j < i ==> (#[trigger] cs[j]).hgt() == cs[0].hgt(),
                i >= 1 ==> h0 == cs[0].hgt(),
                sum == Tree::seq_pre(cs, i as int).len(),
            decreases cnt - i,
        {
            let child = &*node.children[i];
            if !child.check_in(half) {
                return false;
            }
            proof {
                child.lemma_wf_bound_help();
                assert(cs[i as int].wf_in(0, true, true)) by {
                    (*cs[i as int]).lemma_wf_weaken(
                        (ORD / 2) as nat,
                        false,
                        false,
                        0,
                        true,
                        true,
                    );
                }
            }
            let ch = child.height();
            if i == 0 {
                h0 = ch;
            } else if ch != h0 {
                return false;
            }
            let cl = child.len();
            proof {
                Tree::lemma_seq_pre_split(cs, i as int + 1, cnt as int);
                assert(Tree::seq_pre(cs, i as int + 1) == Tree::seq_pre(cs, i as int)
                    + cs[i as int].seqv());
            }
            if cl > usize::MAX - sum {
                // the cached count cannot be right: the true count does not
                // even fit in the machine word
                proof {
                    assert(Tree::seq_pre(cs, cnt as int).len() > usize::MAX);
                }
                return false;
            }
            sum = sum + cl;
            i = i + 1;
        }
        sum == node.length
    }

    /// Walks the whole tree and re-checks every invariant of a well-formed
    /// tree: the root marker at the top and nowhere else, occupancy bounds,
    /// cached subtree counts, uniform leaf depth, and the canonical form of
    /// a small tree (a lone root child is a leaf).
    pub fn check_invariants(&self) -> (r: bool)
        ensures
            r == self.wf_root(),
    {
        if ORD < 4 {
            return false;
        }
        match self {
            Tree::Array(_) => false,
            Tree::Internal(node) => {
                let ghost cs = node.children@;
                if !node.root {
                    return false;
                }
                let cnt = node.children.len();
                if cnt < 1 || cnt > ORD {
                    return false;
                }
                if cnt == 1 {
                    let child = &*node.children[0];
                    let leaf_child = match child {
                        Tree::Array(_) => true,
                        Tree::Internal(_) => false,
                    };
                    if !leaf_child {
                        return false;
                    }
                    if !child.check_in(0) {
                        return false;
                    }
                    proof {
                        assert(cs[0].wf_in(0, true, true)) by {
                            (*cs[0]).lemma_wf_weaken(0, false, false, 0, true, true);
                        }
                        assert(Tree::seq_pre(cs, 1) == Tree::seq_pre(cs, 0) + cs[0].seqv());
                    }
                    let cl = child.len();
                    proof {
                        if node.length == cl {
                            assert(self.wf_root());
                        }
                    }
                    node.length == cl
                } else {
                    let ok = Tree::check_node(node);
                    proof {
                        if ok {
                            assert(self.wf_root());
                        } else {
                            assert(!self.wf_root());
                        }
                    }
                    ok
                }
            },
        }
    }
}

impl<T: Copy, const ORD: usize> Internal<T, ORD> {
    /// Resolves position `key` to `(child index, prefix sum)`: the element at
    /// `key` lives in that child at local position `key - prefix sum`.  A
    /// `key` equal to the total count addresses the last child, which is the
    /// insertion form.
    fn key_to_idx_and_offset(&self, key: usize) -> (r: (usize, usize))
        requires
            self.children@.len() >= 1,
            forall|i: int|
                0 <= i < self.children@.len() ==> (#[trigger] self.children@[i]).wf_in(
                    0,
                    true,
                    true,
                ),
            key <= Tree::seq_pre(self.children@, self.children@.len() as int).len(),
            Tree::seq_pre(self.children@, self.children@.len() as int).len() <= usize::MAX,
        ensures
            r.0 < self.children@.len(),
            r.1 == Tree::seq_pre(self.children@, r.0 as int).len(),
            r.1 <= key,
            key - r.1 <= self.children@[r.0 as int].seqv().len(),
            key < Tree::seq_pre(self.children@, self.children@.len() as int).len() ==> key - r.1
                < self.children@[r.0 as int].seqv().len(),
    {
        let ghost cs = self.children@;
        let ghost total = Tree::seq_pre(cs, cs.len() as int);
        let mut idx: usize = 0;
        let mut offset: usize = 0;
        loop
            invariant
                idx < cs.len(),
                cs == self.children@,
                offset == Tree::seq_pre(cs, idx as int).len(),
                offset <= key,
                key <= total.len() <= usize::MAX,
                total == Tree::seq_pre(cs, cs.len() as int),
                forall|i: int| 0 <= i < cs.len() ==> (#[trigger] cs[i]).wf_in(0, true, true),
            decreases cs.len() - idx,
        {
            let cl = (&*self.children[idx]).len();
            proof {
                Tree::lemma_seq_pre_decompose(cs, idx as int);
            }
            if key - offset < cl || idx == self.children.len() - 1 {
                return (idx, offset);
            }
            offset = offset + cl;
            idx = idx + 1;
        }
    }
}

} // verus!
