//! An unbalanced binary search tree that collects values one at a time and
//! hands them back as a single ascending sequence.
//!
//! Equal values are kept (multiset semantics): on insertion a value equal to
//! the one at a node is routed into the right subtree, so among equal values
//! the one inserted earlier comes out earlier.
//!
//! Insertion and linearization recurse on the structure of the tree, so the
//! supported tree height is bounded by the native call stack: near-sorted
//! insertion sequences build a tree as deep as the number of values, and very
//! large such inputs can exhaust the stack.

use vstd::prelude::*;
use vstd::relations::antisymmetric;
use vstd::relations::reflexive;
use vstd::relations::sorted_by;
use vstd::relations::strongly_connected;
use vstd::relations::total_ordering;
use vstd::relations::transitive;
use vstd::seq_lib::lemma_multiset_commutative;
use vstd::seq_lib::lemma_sorted_unique;

verus! {

/// A binary tree: either `Tail` (no data) or `Head` with one value and two
/// exclusively owned subtrees.
pub enum BinaryTree<T> {
    Tail,
    Head(T, Box<BinaryTree<T>>, Box<BinaryTree<T>>),
}

impl<T> BinaryTree<T> {
    /// The in-order sequence of the tree's values: left subtree first, then
    /// the value at the root, then the right subtree.
    pub open spec fn in_order(self) -> Seq<T>
        decreases self,
    {
        match self {
            BinaryTree::Tail => Seq::empty(),
            BinaryTree::Head(v, l, r) => l.in_order() + seq![v] + r.in_order(),
        }
    }

    /// Returns the empty tree.
    pub fn new_empty() -> (t: Self)
        ensures
            t == BinaryTree::<T>::Tail,
            t.in_order() == Seq::<T>::empty(),
    {
        BinaryTree::Tail
    }

    /// Returns a tree holding exactly one value.
    pub fn new(v: T) -> (t: Self)
        ensures
            t matches BinaryTree::Head(w, l, r) && w == v && *l == BinaryTree::<T>::Tail
                && *r == BinaryTree::<T>::Tail,
            t.in_order() == seq![v],
    {
        let t = BinaryTree::Head(v, Box::new(BinaryTree::Tail), Box::new(BinaryTree::Tail));
        proof {
            assert(BinaryTree::<T>::Tail.in_order() =~= Seq::<T>::empty());
            assert(t.in_order() =~= seq![v]);
        }
        t
    }

    /// Consumes the tree and returns its values in in-order sequence.
    pub fn convert_to_vec(self) -> (out: Vec<T>)
        ensures
            out@ == self.in_order(),
        decreases self,
    {
        match self {
            BinaryTree::Tail => Vec::new(),
            BinaryTree::Head(v, l, r) => BinaryTree::concatinate(
                (*l).convert_to_vec(),
                v,
                (*r).convert_to_vec(),
            ),
        }
    }

    /// Joins a left part, a middle value and a right part into one vector.
    fn concatinate(lhs: Vec<T>, v: T, mut rhs: Vec<T>) -> (out: Vec<T>)
        ensures
            out@ == lhs@ + seq![v] + rhs@,
    {
        let ghost lhs0 = lhs@;
        let ghost rhs0 = rhs@;
        let mut out = lhs;
        out.push(v);
        out.append(&mut rhs);
        proof {
            assert(out@ =~= lhs0 + seq![v] + rhs0);
        }
        out
    }
}

/// Non-decreasing order on a sequence of values.
pub open spec fn sorted(s: Seq<i32>) -> bool {
    forall|i: int, j: int| 0 <= i < j < s.len() ==> s[i] <= s[j]
}

/// The sequence `s` with `v` placed directly before the first element
/// strictly greater than `v`, so after every element less than or equal to
/// it: the position a stable insertion gives a freshly added value.
pub open spec fn sorted_insert(s: Seq<i32>, v: i32) -> Seq<i32>
    decreases s.len(),
{
    if s.len() == 0 {
        seq![v]
    } else if v < s[0] {
        seq![v] + s
    } else {
        seq![s[0]] + sorted_insert(s.drop_first(), v)
    }
}

/// The index at which `sorted_insert` places the new value: the number of
/// leading elements not strictly greater than `v`.
pub open spec fn insert_idx(s: Seq<i32>, v: i32) -> int
    decreases s.len(),
{
    if s.len() == 0 {
        0
    } else if v < s[0] {
        0
    } else {
        1 + insert_idx(s.drop_first(), v)
    }
}

impl BinaryTree<i32> {
    /// The search-tree ordering: at every node, the values of the left
    /// subtree are strictly smaller than the node's value, and the values of
    /// the right subtree at least as large.  Equal values therefore always
    /// sit to the right of one another, in insertion order.
    pub open spec fn is_bst(self) -> bool
        decreases self,
    {
        match self {
            BinaryTree::Tail => true,
            BinaryTree::Head(v, l, r) => {
                &&& forall|i: int| 0 <= i < l.in_order().len() ==> l.in_order()[i] < v
                &&& forall|i: int| 0 <= i < r.in_order().len() ==> v <= r.in_order()[i]
                &&& l.is_bst()
                &&& r.is_bst()
            },
        }
    }

    /// Adds one value to the tree, keeping the search-tree ordering: values
    /// smaller than the one at a node descend left, equal or larger ones
    /// descend right, and a new node is made at the first empty spot.
    ///
    /// The value count always grows by exactly one (duplicates are kept), and
    /// on an ordered tree the in-order sequence gains `value` at its stable
    /// sorted position.
    pub fn insert(self, value: i32) -> (out: Self)
        ensures
            out.in_order().to_multiset() == self.in_order().to_multiset().insert(value),
            out.in_order().len() == self.in_order().len() + 1,
            self.is_bst() ==> out.is_bst() && out.in_order() == sorted_insert(
                self.in_order(),
                value,
            ),
        decreases self,
    {
        let ghost t0 = self;
        match self {
            BinaryTree::Tail => {
                let out = BinaryTree::Head(
                    value,
                    Box::new(BinaryTree::Tail),
                    Box::new(BinaryTree::Tail),
                );
                proof {
                    broadcast use vstd::seq_lib::group_to_multiset_ensures;

                    assert(BinaryTree::<i32>::Tail.in_order() =~= Seq::<i32>::empty());
                    assert(out.in_order() =~= seq![value]);
                    assert(out.in_order() =~= Seq::<i32>::empty().push(value));
                    assert(out.in_order().to_multiset() =~= t0.in_order().to_multiset().insert(
                        value,
                    ));
                    assert(out.in_order() =~= sorted_insert(t0.in_order(), value));
                }
                out
            },
            BinaryTree::Head(v, l, r) => {
                let ghost lio = l.in_order();
                let ghost rio = r.in_order();
                if value < v {
                    let nl = (*l).insert(value);
                    let out = BinaryTree::Head(v, Box::new(nl), r);
                    proof {
                        broadcast use vstd::seq_lib::group_to_multiset_ensures;
                        broadcast use vstd::multiset::group_multiset_axioms;

                        let nlio = nl.in_order();
                        assert(t0.in_order() == lio + seq![v] + rio);
                        assert(out.in_order() == nlio + seq![v] + rio);
                        lemma_multiset_commutative(nlio, seq![v]);
                        lemma_multiset_commutative(nlio + seq![v], rio);
                        lemma_multiset_commutative(lio, seq![v]);
                        lemma_multiset_commutative(lio + seq![v], rio);
                        assert(out.in_order().to_multiset() =~= t0.in_order().to_multiset().insert(
                            value,
                        ));
                        if t0.is_bst() {
                            assert forall|i: int| 0 <= i < nlio.len() implies nlio[i] < v by {
                                let x = nlio[i];
                                assert(nlio.contains(x));
                                if x != value {
                                    assert(nlio.to_multiset().count(x) > 0);
                                    assert(lio.to_multiset().insert(value).count(x)
                                        == lio.to_multiset().count(x));
                                    assert(lio.contains(x));
                                }
                            }
                            lemma_sorted_insert_left(lio, v, rio, value);
                        }
                    }
                    out
                } else {
                    let nr = (*r).insert(value);
                    let out = BinaryTree::Head(v, l, Box::new(nr));
                    proof {
                        broadcast use vstd::seq_lib::group_to_multiset_ensures;
                        broadcast use vstd::multiset::group_multiset_axioms;

                        let nrio = nr.in_order();
                        assert(t0.in_order() == lio + seq![v] + rio);
                        assert(out.in_order() == lio + seq![v] + nrio);
                        lemma_multiset_commutative(lio, seq![v]);
                        lemma_multiset_commutative(lio + seq![v], nrio);
                        lemma_multiset_commutative(lio + seq![v], rio);
                        assert(out.in_order().to_multiset() =~= t0.in_order().to_multiset().insert(
                            value,
                        ));
                        if t0.is_bst() {
                            assert forall|i: int| 0 <= i < nrio.len() implies v <= nrio[i] by {
                                let x = nrio[i];
                                assert(nrio.contains(x));
                                if x != value {
                                    assert(nrio.to_multiset().count(x) > 0);
                                    assert(rio.to_multiset().insert(value).count(x)
                                        == rio.to_multiset().count(x));
                                    assert(rio.contains(x));
                                }
                            }
                            assert(forall|i: int| 0 <= i < lio.len() ==> lio[i] <= value);
                            lemma_sorted_insert_right(lio, v, rio, value);
                        }
                    }
                    out
                }
            },
        }
    }
}

/// Sortedness: the in-order sequence of an ordered tree is non-decreasing,
/// so linearizing a tree grown only by `insert` yields its values in
/// ascending order.
pub proof fn lemma_bst_sorted(t: BinaryTree<i32>)
    requires
        t.is_bst(),
    ensures
        sorted(t.in_order()),
    decreases t,
{
    match t {
        BinaryTree::Tail => {},
        BinaryTree::Head(v, l, r) => {
            lemma_bst_sorted(*l);
            lemma_bst_sorted(*r);
            let lio = l.in_order();
            let rio = r.in_order();
            let s = t.in_order();
            let ll: int = lio.len() as int;
            assert(s == lio + seq![v] + rio);
            assert forall|i: int, j: int| 0 <= i < j < s.len() implies s[i] <= s[j] by {
                if j < ll {
                    assert(s[i] == lio[i] && s[j] == lio[j]);
                } else if j == ll {
                    assert(s[i] == lio[i] && s[j] == v);
                } else {
                    assert(s[j] == rio[j - ll - 1]);
                    if i < ll {
                        assert(s[i] == lio[i]);
                    } else if i == ll {
                        assert(s[i] == v);
                    } else {
                        assert(s[i] == rio[i - ll - 1]);
                    }
                }
            }
        },
    }
}

/// Two sorted sequences that hold the same multiset of values are the same
/// sequence.
pub proof fn lemma_sorted_multiset_unique(a: Seq<i32>, b: Seq<i32>)
    requires
        sorted(a),
        sorted(b),
        a.to_multiset() == b.to_multiset(),
    ensures
        a == b,
{
    let leq = |x: i32, y: i32| x <= y;
    assert forall|x: i32| #[trigger] leq(x, x) by {}
    assert(reflexive(leq));
    assert forall|x: i32, y: i32| #[trigger] leq(x, y) && #[trigger] leq(y, x) implies x == y by {}
    assert(antisymmetric(leq));
    assert forall|x: i32, y: i32, z: i32|
        #[trigger] leq(x, y) && #[trigger] leq(y, z) implies leq(x, z) by {}
    assert(transitive(leq));
    assert forall|x: i32, y: i32| #[trigger] leq(x, y) || #[trigger] leq(y, x) by {}
    assert(strongly_connected(leq));
    assert forall|i: int, j: int| 0 <= i < j < a.len() implies #[trigger] leq(a[i], a[j]) by {}
    assert(sorted_by(a, leq));
    assert forall|i: int, j: int| 0 <= i < j < b.len() implies #[trigger] leq(b[i], b[j]) by {}
    assert(sorted_by(b, leq));
    lemma_sorted_unique(a, b, leq);
}

/// Order-invariance of the result: two ordered trees that hold the same
/// multiset of values linearize to the same sequence, whatever insertion
/// order built each of them.
pub proof fn lemma_order_invariance(t1: BinaryTree<i32>, t2: BinaryTree<i32>)
    requires
        t1.is_bst(),
        t2.is_bst(),
        t1.in_order().to_multiset() == t2.in_order().to_multiset(),
    ensures
        t1.in_order() == t2.in_order(),
{
    lemma_bst_sorted(t1);
    lemma_bst_sorted(t2);
    lemma_sorted_multiset_unique(t1.in_order(), t2.in_order());
}

/// Stability for duplicates: into a sorted sequence, `sorted_insert` places
/// the new value after every element less than or equal to it and before
/// every element strictly greater.  Of two equal values the one inserted
/// earlier therefore keeps the earlier place in the output.
pub proof fn lemma_insert_stable(s: Seq<i32>, v: i32)
    requires
        sorted(s),
    ensures
        0 <= insert_idx(s, v) <= s.len(),
        sorted_insert(s, v) == s.take(insert_idx(s, v)) + seq![v] + s.skip(insert_idx(s, v)),
        forall|j: int| 0 <= j < insert_idx(s, v) ==> s[j] <= v,
        forall|j: int| insert_idx(s, v) <= j < s.len() ==> v < s[j],
    decreases s.len(),
{
    if s.len() == 0 {
        assert(sorted_insert(s, v) =~= s.take(0) + seq![v] + s.skip(0));
    } else if v < s[0] {
        assert(sorted_insert(s, v) == seq![v] + s);
        assert(seq![v] + s =~= s.take(0) + seq![v] + s.skip(0));
        assert forall|j: int| 0 <= j < s.len() implies v < s[j] by {
            if j > 0 {
                assert(s[0] <= s[j]);
            }
        }
    } else {
        let d = s.drop_first();
        assert(forall|i: int| 0 <= i < d.len() ==> d[i] == s[i + 1]);
        lemma_insert_stable(d, v);
        let i: int = insert_idx(s, v);
        assert(i == 1 + insert_idx(d, v));
        assert(sorted_insert(s, v) == seq![s[0]] + sorted_insert(d, v));
        assert(seq![s[0]] + (d.take(i - 1) + seq![v] + d.skip(i - 1)) =~= s.take(i) + seq![v]
            + s.skip(i));
        assert forall|j: int| 0 <= j < i implies s[j] <= v by {
            if j > 0 {
                assert(d[j - 1] <= v);
            }
        }
        assert forall|j: int| i <= j < s.len() implies v < s[j] by {
            assert(v < d[j - 1]);
        }
    }
}

/// A value smaller than `w` is placed by `sorted_insert` within the part of
/// the sequence before `w`.
proof fn lemma_sorted_insert_left(s1: Seq<i32>, w: i32, s2: Seq<i32>, v: i32)
    requires
        v < w,
    ensures
        sorted_insert(s1 + seq![w] + s2, v) == sorted_insert(s1, v) + seq![w] + s2,
    decreases s1.len(),
{
    let s = s1 + seq![w] + s2;
    if s1.len() == 0 {
        assert(s[0] == w);
        assert(sorted_insert(s, v) == seq![v] + s);
        assert(sorted_insert(s1, v) == seq![v]);
        assert(seq![v] + s =~= sorted_insert(s1, v) + seq![w] + s2);
    } else {
        assert(s[0] == s1[0]);
        if v < s1[0] {
            assert(sorted_insert(s, v) == seq![v] + s);
            assert(sorted_insert(s1, v) == seq![v] + s1);
            assert(seq![v] + s =~= (seq![v] + s1) + seq![w] + s2);
        } else {
            assert(s.drop_first() =~= s1.drop_first() + seq![w] + s2);
            lemma_sorted_insert_left(s1.drop_first(), w, s2, v);
            assert(sorted_insert(s, v) == seq![s[0]] + sorted_insert(s.drop_first(), v));
            assert(seq![s1[0]] + (sorted_insert(s1.drop_first(), v) + seq![w] + s2)
                =~= (seq![s1[0]] + sorted_insert(s1.drop_first(), v)) + seq![w] + s2);
            assert(sorted_insert(s1, v) == seq![s1[0]] + sorted_insert(s1.drop_first(), v));
        }
    }
}

/// A value at least as large as `w` and as everything before `w` is placed
/// by `sorted_insert` within the part of the sequence after `w`.
proof fn lemma_sorted_insert_right(s1: Seq<i32>, w: i32, s2: Seq<i32>, v: i32)
    requires
        w <= v,
        forall|i: int| 0 <= i < s1.len() ==> s1[i] <= v,
    ensures
        sorted_insert(s1 + seq![w] + s2, v) == s1 + seq![w] + sorted_insert(s2, v),
    decreases s1.len(),
{
    let s = s1 + seq![w] + s2;
    if s1.len() == 0 {
        assert(s[0] == w);
        assert(s.drop_first() =~= s2);
        assert(sorted_insert(s, v) == seq![s[0]] + sorted_insert(s.drop_first(), v));
        assert(seq![w] + sorted_insert(s2, v) =~= s1 + seq![w] + sorted_insert(s2, v));
    } else {
        assert(s[0] == s1[0]);
        assert(s.drop_first() =~= s1.drop_first() + seq![w] + s2);
        lemma_sorted_insert_right(s1.drop_first(), w, s2, v);
        assert(sorted_insert(s, v) == seq![s[0]] + sorted_insert(s.drop_first(), v));
        assert(seq![s1[0]] + (s1.drop_first() + seq![w] + sorted_insert(s2, v))
            =~= s1 + seq![w] + sorted_insert(s2, v));
    }
}

} // verus!
