//! Monoids: an identity value and an associative combining operation.

use vstd::prelude::*;

verus! {

/// A type with an identity value and an associative combining operation.
///
/// Commutativity is not assumed: a fold always combines in sequence order.
/// The executable operations are tied to their mathematical counterparts,
/// and the lemmas are the laws that an instance has to prove.
pub trait Monoid: Sized + Clone {
    /// The identity value.
    spec fn identity() -> Self;

    /// The combination of `a` and `b`, in that order.
    spec fn combine(a: Self, b: Self) -> Self;

    /// Combining the identity with `a` gives `a`.
    proof fn lemma_left_identity(a: Self)
        ensures
            Self::combine(Self::identity(), a) == a,
    ;

    /// Combining `a` with the identity gives `a`.
    proof fn lemma_right_identity(a: Self)
        ensures
            Self::combine(a, Self::identity()) == a,
    ;

    /// Grouping does not matter.
    proof fn lemma_associative(a: Self, b: Self, c: Self)
        ensures
            Self::combine(Self::combine(a, b), c) == Self::combine(a, Self::combine(b, c)),
    ;

    /// A clone is equal to the value it was made from.
    proof fn lemma_clone(a: Self, b: Self)
        requires
            cloned(a, b),
        ensures
            a == b,
    ;

    /// Returns the identity value.
    fn mempty() -> (r: Self)
        ensures
            r == Self::identity(),
    ;

    /// Returns `a` combined with `b`, in that order.
    fn mappend(a: &Self, b: &Self) -> (r: Self)
        ensures
            r == Self::combine(*a, *b),
    ;
}

/// The left-to-right fold of `s`: the identity for the empty sequence,
/// otherwise the fold of all but the last element combined with the last.
pub open spec fn fold<T: Monoid>(s: Seq<T>) -> T
    decreases s.len(),
{
    if s.len() == 0 {
        T::identity()
    } else {
        T::combine(fold(s.drop_last()), s.last())
    }
}

/// The fold of a one-element sequence is that element.
pub proof fn lemma_fold_single<T: Monoid>(x: T)
    ensures
        fold(seq![x]) == x,
{
    let s = seq![x];
    assert(s.drop_last() =~= Seq::<T>::empty());
    assert(fold(s.drop_last()) == T::identity());
    T::lemma_left_identity(x);
}

/// Folding a concatenation is combining the folds of its parts.
pub proof fn lemma_fold_concat<T: Monoid>(a: Seq<T>, b: Seq<T>)
    ensures
        fold(a + b) == T::combine(fold(a), fold(b)),
    decreases b.len(),
{
    if b.len() == 0 {
        assert(a + b =~= a);
        T::lemma_right_identity(fold(a));
    } else {
        assert((a + b).drop_last() =~= a + b.drop_last());
        assert((a + b).last() == b.last());
        lemma_fold_concat(a, b.drop_last());
        T::lemma_associative(fold(a), fold(b.drop_last()), b.last());
    }
}

/// Folding a range is combining the folds of its two halves, cut anywhere.
pub proof fn lemma_fold_split<T: Monoid>(s: Seq<T>, i: int, j: int, k: int)
    requires
        0 <= i <= j <= k <= s.len(),
    ensures
        fold(s.subrange(i, k)) == T::combine(fold(s.subrange(i, j)), fold(s.subrange(j, k))),
{
    assert(s.subrange(i, k) =~= s.subrange(i, j) + s.subrange(j, k));
    lemma_fold_concat(s.subrange(i, j), s.subrange(j, k));
}

/// A sequence of identities folds to the identity.
pub proof fn lemma_fold_identities<T: Monoid>(s: Seq<T>)
    requires
        forall|i: int| 0 <= i < s.len() ==> s[i] == T::identity(),
    ensures
        fold(s) == T::identity(),
    decreases s.len(),
{
    if s.len() > 0 {
        lemma_fold_identities(s.drop_last());
        T::lemma_left_identity(s.last());
    }
}

/// Integers under wrapping addition, with zero as the identity.
#[derive(Debug, PartialEq, Eq)]
pub struct Sum<T>(pub T);

impl Clone for Sum<i64> {
    fn clone(&self) -> (r: Self)
        ensures
            r == *self,
    {
        Sum(self.0)
    }
}

impl Copy for Sum<i64> {

}

impl Monoid for Sum<i64> {
    open spec fn identity() -> Self {
        Sum(0i64)
    }

    open spec fn combine(a: Self, b: Self) -> Self {
        Sum(a.0.wrapping_add(b.0))
    }

    proof fn lemma_left_identity(a: Self) {
    }

    proof fn lemma_right_identity(a: Self) {
    }

    proof fn lemma_associative(a: Self, b: Self, c: Self) {
    }

    proof fn lemma_clone(a: Self, b: Self) {
    }

    fn mempty() -> (r: Self) {
        Sum(0i64)
    }

    fn mappend(a: &Self, b: &Self) -> (r: Self) {
        Sum(a.0.wrapping_add(b.0))
    }
}

impl From<i64> for Sum<i64> {
    fn from(v: i64) -> (r: Self) {
        Sum(v)
    }
}

impl vstd::std_specs::convert::FromSpecImpl<i64> for Sum<i64> {
    open spec fn obeys_from_spec() -> bool {
        true
    }

    open spec fn from_spec(v: i64) -> Self {
        Sum(v)
    }
}

/// The last value, if there is one: combining keeps the right operand where
/// it holds a value and the left operand otherwise. The identity holds no
/// value. This monoid is not commutative.
#[derive(Debug, PartialEq, Eq)]
pub struct Last<T>(pub Option<T>);

impl Clone for Last<i64> {
    fn clone(&self) -> (r: Self)
        ensures
            r == *self,
    {
        Last(self.0)
    }
}

impl Copy for Last<i64> {

}

impl Monoid for Last<i64> {
    open spec fn identity() -> Self {
        Last(None)
    }

    open spec fn combine(a: Self, b: Self) -> Self {
        if b.0.is_some() {
            b
        } else {
            a
        }
    }

    proof fn lemma_left_identity(a: Self) {
    }

    proof fn lemma_right_identity(a: Self) {
    }

    proof fn lemma_associative(a: Self, b: Self, c: Self) {
    }

    proof fn lemma_clone(a: Self, b: Self) {
    }

    fn mempty() -> (r: Self) {
        Last(None)
    }

    fn mappend(a: &Self, b: &Self) -> (r: Self) {
        if b.0.is_some() {
            *b
        } else {
            *a
        }
    }
}

impl From<i64> for Last<i64> {
    fn from(v: i64) -> (r: Self) {
        Last(Some(v))
    }
}

impl vstd::std_specs::convert::FromSpecImpl<i64> for Last<i64> {
    open spec fn obeys_from_spec() -> bool {
        true
    }

    open spec fn from_spec(v: i64) -> Self {
        Last(Some(v))
    }
}

/// Folds `seq` from left to right, starting from the identity.
pub fn mconcat<T: Monoid>(seq: &[T]) -> (r: T)
    ensures
        r == fold(seq@),
{
    let mut acc = T::mempty();
    let mut i: usize = 0;
    while i < seq.len()
        invariant
            i <= seq.len(),
            acc == fold(seq@.take(i as int)),
        decreases seq.len() - i,
    {
        proof {
            assert(seq@.take(i + 1).drop_last() =~= seq@.take(i as int));
        }
        acc = T::mappend(&acc, &seq[i]);
        i += 1;
    }
    proof {
        assert(seq@.take(i as int) =~= seq@);
    }
    acc
}

} // verus!
