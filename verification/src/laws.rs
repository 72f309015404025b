//! What holds of the tree as a whole, beyond the contract of each operation.

use vstd::prelude::*;
use vstd::std_specs::convert::IntoSpec;
use crate::layout::{lemma_padded, lemma_root_covers};
use crate::monoid::{fold, lemma_fold_identities, lemma_fold_split, Monoid};
use crate::tree::{
    clones_faithfully, converted, converted_seq, lemma_built_view, lemma_node_is_fold, node_ok,
    SegmentTree,
};

verus! {

/// A tree built from `s` answers the query for any range with the fold of
/// the converted values of that range of `s`.
pub proof fn lemma_build_then_query<V: Into<T> + Clone, T: Monoid>(
    s: Seq<V>,
    t: SegmentTree<T>,
    l: int,
    r: int,
)
    requires
        t@.len() == s.len(),
        forall|i: int| 0 <= i < s.len() ==> converted(s[i], #[trigger] t@[i]),
        V::obeys_into_spec(),
        clones_faithfully::<V>(),
        0 <= l <= r <= s.len(),
    ensures
        fold(t@.subrange(l, r)) == fold(converted_seq::<V, T>(s.subrange(l, r))),
{
    lemma_built_view(s, t);
    assert(t@.subrange(l, r) =~= converted_seq::<V, T>(s.subrange(l, r)));
}

/// A tree built from `s` answers the query for its whole range with the
/// fold of the converted values of `s`.
pub proof fn lemma_build_then_query_all<V: Into<T> + Clone, T: Monoid>(
    s: Seq<V>,
    t: SegmentTree<T>,
)
    requires
        t@.len() == s.len(),
        forall|i: int| 0 <= i < s.len() ==> converted(s[i], #[trigger] t@[i]),
        V::obeys_into_spec(),
        clones_faithfully::<V>(),
    ensures
        fold(t@.subrange(0, t@.len() as int)) == fold(converted_seq::<V, T>(s)),
{
    lemma_build_then_query(s, t, 0, s.len() as int);
    assert(s.subrange(0, s.len() as int) =~= s);
}

/// The root of a consistent tree holds the fold of the whole sequence.
pub proof fn lemma_root_is_total<T: Monoid>(t: SegmentTree<T>)
    requires
        t.wf(),
    ensures
        t.nodes().len() >= 1,
        t.nodes()[0] == fold(t@),
{
    let n = t.width() as int;
    let len = t.spec_len() as int;
    let leaves = t.leaves();
    lemma_padded(t.spec_len());
    lemma_root_covers(n);
    lemma_node_is_fold(t.nodes(), n, 0, n);
    assert(leaves.subrange(0, n) =~= leaves);
    lemma_fold_split(leaves, 0, len, n);
    assert(leaves.subrange(0, len) =~= t@);
    lemma_fold_identities(leaves.subrange(len, n));
    T::lemma_right_identity(fold(t@));
}

/// In a consistent tree every internal node holds the combination of its
/// left and its right child, in that order, and every leaf past the
/// sequence holds the identity.
pub proof fn lemma_nodes_consistent<T: Monoid>(t: SegmentTree<T>, ix: int, p: int)
    requires
        t.wf(),
    ensures
        t.nodes().len() == 2 * t.width() - 1,
        0 <= ix < t.width() - 1 ==> t.nodes()[ix] == T::combine(
            t.nodes()[2 * ix + 1],
            t.nodes()[2 * ix + 2],
        ),
        t.spec_len() <= p < t.width() ==> t.nodes()[t.width() - 1 + p] == T::identity(),
        0 <= p < t.spec_len() ==> t.nodes()[t.width() - 1 + p] == t@[p],
{
    lemma_padded(t.spec_len());
    if 0 <= ix < t.width() - 1 {
        assert(node_ok(t.nodes(), ix));
    }
    if t.spec_len() <= p < t.width() {
        assert(t.leaves()[p] == T::identity());
    }
}

/// After `set(i, v)` has taken `before` to `after`, position `i` holds what
/// `v` converts into, and every other position holds what it held.
pub proof fn lemma_set_then_get<V: Into<T>, T: Monoid>(
    before: SegmentTree<T>,
    after: SegmentTree<T>,
    i: int,
    v: V,
    j: int,
)
    requires
        0 <= i < before@.len(),
        0 <= j < before@.len(),
        after@ == before@.update(i, after@[i]),
        call_ensures(V::into, (v,), after@[i]),
        V::obeys_into_spec(),
    ensures
        after@.len() == before@.len(),
        after@[i] == v.into_spec(),
        j != i ==> after@[j] == before@[j],
{
}

/// After `mappend(i, v)` has taken `before` to `after`, position `i` holds
/// what it held combined with what `v` converts into, and every other
/// position holds what it held.
pub proof fn lemma_mappend_then_get<V: Into<T>, T: Monoid>(
    before: SegmentTree<T>,
    after: SegmentTree<T>,
    i: int,
    v: V,
    j: int,
)
    requires
        0 <= i < before@.len(),
        0 <= j < before@.len(),
        after@ == before@.update(i, after@[i]),
        exists|x: T|
            call_ensures(V::into, (v,), x) && after@[i] == T::combine(before@[i], x),
        V::obeys_into_spec(),
    ensures
        after@.len() == before@.len(),
        after@[i] == T::combine(before@[i], v.into_spec()),
        j != i ==> after@[j] == before@[j],
{
}

/// The fold of an empty range is the identity, wherever the range lies.
pub proof fn lemma_empty_range<T: Monoid>(t: SegmentTree<T>, i: int)
    requires
        0 <= i <= t@.len(),
    ensures
        fold(t@.subrange(i, i)) == T::identity(),
{
}

} // verus!
