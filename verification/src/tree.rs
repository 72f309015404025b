//! The segment tree: a perfect binary tree in a flat array, in which every
//! internal node holds the combination of its two children.

use vstd::prelude::*;
use vstd::std_specs::convert::IntoSpec;
use crate::layout::{
    covers, first_leaf, is_pow2, lemma_covers_children, lemma_covers_in_bounds,
    lemma_covers_leaf, lemma_padded, lemma_padded_fits, lemma_root_covers, next_power_of_two,
    padded,
};
use crate::monoid::{fold, lemma_fold_single, lemma_fold_split, Monoid};

verus! {

/// Node `ix` holds the combination of its left and its right child.
pub open spec fn node_ok<T: Monoid>(nodes: Seq<T>, ix: int) -> bool {
    nodes[ix] == T::combine(nodes[2 * ix + 1], nodes[2 * ix + 2])
}

/// `nodes` is a tree with `n` leaves in which every internal node holds the
/// combination of its children.
pub open spec fn tree_ok<T: Monoid>(nodes: Seq<T>, n: int) -> bool {
    &&& is_pow2(n)
    &&& nodes.len() == 2 * n - 1
    &&& forall|ix: int| 0 <= ix < n - 1 ==> #[trigger] node_ok(nodes, ix)
}

/// The leaves of a tree with `n` leaves, in order.
pub open spec fn leaves_of<T>(nodes: Seq<T>, n: int) -> Seq<T> {
    nodes.subrange(n - 1, 2 * n - 1)
}

/// In a consistent tree a node holds the fold of the leaves that it spans.
pub proof fn lemma_node_is_fold<T: Monoid>(nodes: Seq<T>, n: int, ix: int, span: int)
    requires
        tree_ok(nodes, n),
        covers(n, ix, span),
    ensures
        0 <= ix < nodes.len(),
        nodes[ix] == fold(
            leaves_of(nodes, n).subrange(
                first_leaf(n, ix, span),
                first_leaf(n, ix, span) + span,
            ),
        ),
    decreases span,
{
    let lo = first_leaf(n, ix, span);
    let leaves = leaves_of(nodes, n);
    lemma_covers_in_bounds(n, ix, span);
    if span == 1 {
        lemma_covers_leaf(n, ix);
        assert(leaves.subrange(lo, lo + 1) =~= seq![nodes[ix]]);
        lemma_fold_single(nodes[ix]);
    } else {
        let m = span / 2;
        lemma_covers_children(n, ix, span);
        lemma_node_is_fold(nodes, n, 2 * ix + 1, m);
        lemma_node_is_fold(nodes, n, 2 * ix + 2, m);
        assert(node_ok(nodes, ix));
        lemma_fold_split(leaves, lo, lo + m, lo + span);
    }
}

/// `x` is what a clone of `v` converts into.
pub open spec fn converted<V: Into<T> + Clone, T>(v: V, x: T) -> bool {
    exists|c: V| #[trigger] cloned(v, c) && call_ensures(V::into, (c,), x)
}

/// Every clone of a `V` is equal to the value it was made from.
pub open spec fn clones_faithfully<V: Clone>() -> bool {
    forall|a: V, b: V| #[trigger] cloned(a, b) ==> a == b
}

/// The values that the elements of `s` convert into, in order.
pub open spec fn converted_seq<V: Into<T>, T>(s: Seq<V>) -> Seq<T> {
    Seq::new(s.len(), |i: int| s[i].into_spec())
}

/// A segment tree over the monoid `T`: a sequence of fixed length with
/// point updates and folds of ranges.
#[derive(Debug)]
pub struct SegmentTree<T> {
    len: usize,
    v: Vec<T>,
}

impl<T: Monoid> SegmentTree<T> {
    /// The stored nodes: the root first, the leaves last.
    pub closed spec fn nodes(&self) -> Seq<T> {
        self.v@
    }

    /// The length of the sequence that the tree represents.
    pub closed spec fn spec_len(&self) -> nat {
        self.len as nat
    }

    /// The number of leaves, padding included.
    pub open spec fn width(&self) -> nat {
        padded(self.spec_len())
    }

    /// All leaves, padding included.
    pub open spec fn leaves(&self) -> Seq<T> {
        leaves_of(self.nodes(), self.width() as int)
    }

    /// The sequence that the tree represents.
    pub open spec fn view(&self) -> Seq<T> {
        Seq::new(self.spec_len(), |i: int| self.leaves()[i])
    }

    /// The tree is consistent: every internal node holds the combination of
    /// its children, every leaf past the sequence holds the identity, and
    /// the number of nodes fits in a `usize`.
    pub open spec fn wf(&self) -> bool {
        &&& tree_ok(self.nodes(), self.width() as int)
        &&& 2 * self.width() - 1 <= usize::MAX
        &&& forall|p: int|
            self.spec_len() <= p < self.width() ==> #[trigger] self.leaves()[p] == T::identity()
    }

    /// Constructs a tree of length `n` in which every element is the identity.
    pub fn new(n: usize) -> (t: Self)
        requires
            n <= usize::MAX / 2 + 1,
        ensures
            t.wf(),
            t@ == Seq::new(n as nat, |i: int| T::identity()),
    {
        let s: Vec<T> = Vec::new();
        let t = Self::init(n, s.as_slice());
        proof {
            assert(t@ =~= Seq::new(n as nat, |i: int| T::identity()));
        }
        t
    }

    /// Constructs a tree from the values of `s`, each converted into `T`,
    /// in the order of `s`.
    pub fn from_slice<V: Into<T> + Clone>(s: &[V]) -> (t: Self)
        requires
            s@.len() <= usize::MAX / 2 + 1,
        ensures
            t.wf(),
            t@.len() == s@.len(),
            forall|i: int| 0 <= i < s@.len() ==> converted(s@[i], #[trigger] t@[i]),
            V::obeys_into_spec() && clones_faithfully::<V>() ==> t@ == converted_seq::<V, T>(s@),
    {
        let t = Self::init(s.len(), s);
        proof {
            if V::obeys_into_spec() && clones_faithfully::<V>() {
                lemma_built_view(s@, t);
            }
        }
        t
    }

    /// Builds a tree of length `len` whose first elements are the converted
    /// values of `s` and whose other elements are the identity: the leaves
    /// are written first, then the internal nodes level by level, the
    /// lowest level first.
    fn init<V: Into<T> + Clone>(len: usize, s: &[V]) -> (t: Self)
        requires
            s@.len() <= len,
            len <= usize::MAX / 2 + 1,
        ensures
            t.wf(),
            t@.len() == len,
            forall|i: int| 0 <= i < s@.len() ==> converted(s@[i], #[trigger] t@[i]),
            forall|i: int| s@.len() <= i < len ==> #[trigger] t@[i] == T::identity(),
    {
        proof {
            lemma_padded(len as nat);
            lemma_padded_fits(len as nat);
        }
        let n = next_power_of_two(len);
        let e = T::mempty();
        let mut v = vec![e; n - 1 + n];
        proof {
            assert forall|k: int| 0 <= k < v@.len() implies #[trigger] v@[k] == T::identity() by {
                T::lemma_clone(e, v@[k]);
            }
        }
        let mut i: usize = 0;
        while i < s.len()
            invariant
                i <= s@.len() <= len <= n,
                v@.len() == 2 * n - 1,
                2 * n - 1 <= usize::MAX,
                forall|k: int| 0 <= k < i ==> converted(#[trigger] s@[k], v@[n - 1 + k]),
                forall|k: int|
                    0 <= k < v@.len() && (k < n - 1 || k >= n - 1 + i) ==> #[trigger] v@[k]
                        == T::identity(),
            decreases s@.len() - i,
        {
            let c = s[i].clone();
            let x: T = c.into();
            proof {
                assert(cloned(s@[i as int], c));
            }
            v.set(n - 1 + i, x);
            i += 1;
        }
        let ghost leaves = leaves_of(v@, n as int);
        proof {
            assert forall|k: int| 0 <= k < s@.len() implies converted(
                s@[k],
                #[trigger] leaves[k],
            ) by {
                assert(converted(s@[k], v@[n - 1 + k]));
            }
            assert forall|k: int| s@.len() <= k < n implies #[trigger] leaves[k]
                == T::identity() by {
                assert(v@[n - 1 + k] == T::identity());
            }
        }
        let mut l = n / 2;
        let mut ofs = n - 1 - l;
        while l > 0
            invariant
                is_pow2(n as int),
                v@.len() == 2 * n - 1,
                2 * n - 1 <= usize::MAX,
                l == 0 || (is_pow2(l as int) && 2 * l <= n),
                ofs == (if l == 0 { 0 } else { l - 1 }),
                leaves_of(v@, n as int) == leaves,
                forall|ix: int|
                    (if l == 0 { 0 } else { 2 * l - 1 }) <= ix < n - 1 ==> #[trigger] node_ok(
                        v@,
                        ix,
                    ),
            decreases l,
        {
            let mut i: usize = 0;
            while i < l
                invariant
                    i <= l,
                    l > 0,
                    2 * l <= n,
                    ofs == l - 1,
                    v@.len() == 2 * n - 1,
                    2 * n - 1 <= usize::MAX,
                    leaves_of(v@, n as int) == leaves,
                    forall|ix: int|
                        (ofs <= ix < ofs + i || 2 * l - 1 <= ix < n - 1) ==> #[trigger] node_ok(
                            v@,
                            ix,
                        ),
                decreases l - i,
            {
                let ghost prev = v@;
                let ix = ofs + i;
                let val = T::mappend(&v[ix * 2 + 1], &v[ix * 2 + 2]);
                v.set(ix, val);
                proof {
                    assert(leaves_of(v@, n as int) =~= leaves_of(prev, n as int));
                    assert forall|k: int|
                        (ofs <= k < ofs + i + 1 || 2 * l - 1 <= k < n - 1) implies #[trigger] node_ok(
                        v@,
                        k,
                    ) by {
                        if k != ix {
                            assert(node_ok(prev, k));
                        }
                    }
                }
                i += 1;
            }
            l /= 2;
            ofs -= l;
        }
        let t = SegmentTree { len, v };
        proof {
            assert(t.leaves() == leaves);
            assert forall|p: int| 0 <= p < s@.len() implies converted(s@[p], #[trigger] t@[p]) by {
                assert(t@[p] == leaves[p]);
            }
        }
        t
    }

    /// Length of the sequence.
    pub fn len(&self) -> (n: usize)
        ensures
            n == self.spec_len(),
            n == self@.len(),
    {
        self.len
    }

    /// Returns the element at position `i`.
    pub fn get(&self, i: usize) -> (r: T)
        requires
            self.wf(),
            i < self@.len(),
        ensures
            r == self@[i as int],
            r == fold(self@.subrange(i as int, i + 1)),
    {
        proof {
            lemma_padded(self.spec_len());
        }
        let n = self.v.len() / 2 + 1;
        let r = self.v[n - 1 + i].clone();
        proof {
            T::lemma_clone(self.v@[n - 1 + i], r);
            assert(self@.subrange(i as int, i + 1) =~= seq![r]);
            lemma_fold_single(r);
        }
        r
    }

    /// The stored nodes: the root first, then each level from left to
    /// right, the leaves last.
    pub fn storage(&self) -> (r: &[T])
        ensures
            r@ == self.nodes(),
    {
        self.v.as_slice()
    }

    /// Writes `x` at position `i`, then recombines the ancestors of that
    /// leaf, from its parent up to the root.
    fn store(&mut self, i: usize, x: T)
        requires
            old(self).wf(),
            i < old(self)@.len(),
        ensures
            final(self).wf(),
            final(self)@ == old(self)@.update(i as int, x),
    {
        proof {
            lemma_padded(self.spec_len());
        }
        let n = self.v.len() / 2 + 1;
        let ghost before = self.v@;
        let mut cur = n - 1 + i;
        self.v.set(cur, x);
        proof {
            assert forall|ix: int| 0 <= ix < n - 1 && ix != (cur - 1) / 2 implies #[trigger] node_ok(
                self.v@,
                ix,
            ) by {
                assert(node_ok(before, ix));
            }
        }
        while cur > 0
            invariant
                n == padded(self.len as nat),
                is_pow2(n as int),
                self.v@.len() == 2 * n - 1,
                self.len == old(self).len,
                i < self.len <= n,
                2 * n - 1 <= usize::MAX,
                cur == n - 1 + i || cur < n - 1,
                leaves_of(self.v@, n as int) == leaves_of(before, n as int).update(i as int, x),
                forall|ix: int|
                    0 <= ix < n - 1 && (cur == 0 || ix != (cur - 1) / 2) ==> #[trigger] node_ok(
                        self.v@,
                        ix,
                    ),
            decreases cur,
        {
            let ghost prev = self.v@;
            cur = (cur - 1) / 2;
            let val = T::mappend(&self.v[cur * 2 + 1], &self.v[cur * 2 + 2]);
            self.v.set(cur, val);
            proof {
                assert(leaves_of(self.v@, n as int) =~= leaves_of(prev, n as int));
                assert forall|ix: int|
                    0 <= ix < n - 1 && (cur == 0 || ix != (cur - 1) / 2) implies #[trigger] node_ok(
                    self.v@,
                    ix,
                ) by {
                    if ix != cur {
                        assert(node_ok(prev, ix));
                    }
                }
            }
        }
        proof {
            assert(self.leaves() == old(self).leaves().update(i as int, x));
            assert(self@ =~= old(self)@.update(i as int, x));
        }
    }

    /// Sets the element at position `i` to the value that `v` converts into.
    /// No other element changes.
    pub fn set<V: Into<T>>(&mut self, i: usize, v: V)
        requires
            old(self).wf(),
            i < old(self)@.len(),
        ensures
            final(self).wf(),
            final(self)@ == old(self)@.update(i as int, final(self)@[i as int]),
            call_ensures(V::into, (v,), final(self)@[i as int]),
            V::obeys_into_spec() ==> final(self)@[i as int] == v.into_spec(),
    {
        let x: T = v.into();
        self.store(i, x);
    }

    /// Combines the element at position `i` with the value that `v`
    /// converts into, the element first, and stores the result there.
    /// No other element changes.
    pub fn mappend<V: Into<T>>(&mut self, i: usize, v: V)
        requires
            old(self).wf(),
            i < old(self)@.len(),
        ensures
            final(self).wf(),
            final(self)@ == old(self)@.update(i as int, final(self)@[i as int]),
            exists|x: T|
                call_ensures(V::into, (v,), x) && final(self)@[i as int] == T::combine(
                    old(self)@[i as int],
                    x,
                ),
            V::obeys_into_spec() ==> final(self)@[i as int] == T::combine(
                old(self)@[i as int],
                v.into_spec(),
            ),
    {
        let cur = self.get(i);
        let x: T = v.into();
        let y = T::mappend(&cur, &x);
        self.store(i, y);
    }

    /// Returns the fold of the elements at positions `l` up to, not
    /// including, `r`: the identity where `l == r`.
    pub fn query(&self, l: usize, r: usize) -> (res: T)
        requires
            self.wf(),
            l <= r,
            r <= self@.len(),
        ensures
            res == fold(self@.subrange(l as int, r as int)),
            l == r ==> res == T::identity(),
    {
        proof {
            lemma_padded(self.spec_len());
            lemma_root_covers(self.width() as int);
            assert(self@.subrange(l as int, r as int) =~= self.leaves().subrange(
                l as int,
                r as int,
            ));
        }
        let n = self.v.len() / 2 + 1;
        self.q(0, n, l, r)
    }

    /// Folds the leaves `l` up to `r`, counted from the first leaf below
    /// node `ix`, which spans `span` leaves.
    fn q(&self, ix: usize, span: usize, l: usize, r: usize) -> (res: T)
        requires
            self.wf(),
            covers(self.width() as int, ix as int, span as int),
            l <= r <= span,
        ensures
            res == fold(
                self.leaves().subrange(
                    first_leaf(self.width() as int, ix as int, span as int) + l,
                    first_leaf(self.width() as int, ix as int, span as int) + r,
                ),
            ),
        decreases span,
    {
        let ghost n = self.width() as int;
        let ghost lo = first_leaf(n, ix as int, span as int);
        let ghost leaves = self.leaves();
        proof {
            lemma_node_is_fold(self.nodes(), n, ix as int, span as int);
        }
        if l == r {
            T::mempty()
        } else if r - l == span {
            let res = self.v[ix].clone();
            proof {
                T::lemma_clone(self.v@[ix as int], res);
            }
            res
        } else {
            let m = span / 2;
            proof {
                assert(span >= 2);
                lemma_covers_children(n, ix as int, span as int);
            }
            let ll = if l < m { l } else { m };
            let lr = if r < m { r } else { m };
            let rl = if l < m { 0 } else { l - m };
            let rr = if r < m { 0 } else { r - m };
            let a = self.q(ix * 2 + 1, m, ll, lr);
            let b = self.q(ix * 2 + 2, m, rl, rr);
            proof {
                if r <= m {
                    assert(leaves.subrange(lo + m + rl, lo + m + rr) =~= Seq::<T>::empty());
                    T::lemma_right_identity(a);
                } else if l >= m {
                    assert(leaves.subrange(lo + ll, lo + lr) =~= Seq::<T>::empty());
                    T::lemma_left_identity(b);
                } else {
                    lemma_fold_split(leaves, lo + l, lo + m, lo + r);
                }
            }
            T::mappend(&a, &b)
        }
    }
}

/// A tree whose elements are the conversions of clones of `s` represents
/// the converted sequence, if clones of `V` are faithful and its conversion
/// is the one that `into_spec` describes.
pub proof fn lemma_built_view<V: Into<T> + Clone, T: Monoid>(s: Seq<V>, t: SegmentTree<T>)
    requires
        t@.len() == s.len(),
        forall|i: int| 0 <= i < s.len() ==> converted(s[i], #[trigger] t@[i]),
        V::obeys_into_spec(),
        clones_faithfully::<V>(),
    ensures
        t@ == converted_seq::<V, T>(s),
{
    assert forall|i: int| 0 <= i < s.len() implies t@[i] == s[i].into_spec() by {
        assert(converted(s[i], t@[i]));
        let c = choose|c: V| #[trigger] cloned(s[i], c) && call_ensures(V::into, (c,), t@[i]);
        assert(c == s[i]);
    }
    assert(t@ =~= converted_seq::<V, T>(s));
}

} // verus!
