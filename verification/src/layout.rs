//! Index arithmetic of a perfect binary tree stored in a flat array.
//!
//! A tree with `n` leaves (`n` a power of two) has `2n - 1` nodes. Node `0`
//! is the root, the children of node `ix` are `2 ix + 1` and `2 ix + 2`, and
//! the leaves are the last `n` nodes.

use vstd::prelude::*;

verus! {

/// True when `n` is a power of two.
pub open spec fn is_pow2(n: int) -> bool
    decreases n,
{
    n == 1 || (n > 1 && n % 2 == 0 && is_pow2(n / 2))
}

/// The first of `n`, `2n`, `4n`, ... that is at least `len`.
pub open spec fn doubled_up_to(n: nat, len: nat) -> nat
    decreases (if n < len { len - n } else { 0 }),
{
    if n >= len || n == 0 {
        n
    } else {
        doubled_up_to(2 * n, len)
    }
}

/// The number of leaves of a tree that holds `len` elements: the least
/// power of two that is at least `len`.
pub open spec fn padded(len: nat) -> nat {
    doubled_up_to(1, len)
}

/// Doubling from a power of two ends at a power of two that is at least
/// `len`, and at less than twice `len` if it started below that.
pub proof fn lemma_doubled_up_to(n: nat, len: nat)
    requires
        is_pow2(n as int),
    ensures
        is_pow2(doubled_up_to(n, len) as int),
        doubled_up_to(n, len) >= len,
        doubled_up_to(n, len) >= n,
        n < 2 * len ==> doubled_up_to(n, len) < 2 * len,
    decreases (if n < len { len - n } else { 0 }),
{
    if n < len {
        assert(is_pow2(2 * n as int));
        lemma_doubled_up_to(2 * n, len);
    }
}

/// `padded(len)` is a power of two, at least `len` and at least one, and
/// less than twice `len` unless `len` is zero.
pub proof fn lemma_padded(len: nat)
    ensures
        is_pow2(padded(len) as int),
        padded(len) >= len,
        padded(len) >= 1,
        len >= 1 ==> padded(len) < 2 * len,
        len == 0 ==> padded(len) == 1,
{
    lemma_doubled_up_to(1, len);
}

/// Of two powers of two, the smaller is at most half the larger.
pub proof fn lemma_pow2_gap(a: int, b: int)
    requires
        is_pow2(a),
        is_pow2(b),
        a < b,
    ensures
        2 * a <= b,
    decreases b,
{
    if a > 1 {
        lemma_pow2_gap(a / 2, b / 2);
    }
}

/// Half the range of `usize`, rounded up, is a power of two.
pub proof fn lemma_half_range_is_pow2()
    ensures
        is_pow2(usize::MAX / 2 + 1),
{
    assert(is_pow2(0x8000_0000)) by {
        reveal_with_fuel(is_pow2, 33);
    }
    assert(is_pow2(0x8000_0000_0000_0000)) by {
        reveal_with_fuel(is_pow2, 65);
    }
}

/// Doubling from a power of two stays at or below any power of two that is
/// at least `len` and at least the start.
pub proof fn lemma_doubled_up_to_le(n: nat, len: nat, bound: nat)
    requires
        is_pow2(n as int),
        is_pow2(bound as int),
        n <= bound,
        len <= bound,
    ensures
        doubled_up_to(n, len) <= bound,
    decreases (if n < len { len - n } else { 0 }),
{
    if n < len {
        lemma_pow2_gap(n as int, bound as int);
        assert(is_pow2(2 * n as int));
        lemma_doubled_up_to_le(2 * n, len, bound);
    }
}

/// The nodes of a tree can be counted in a `usize` if its length is at
/// most half the range of `usize`, rounded up.
pub proof fn lemma_padded_fits(len: nat)
    requires
        len <= usize::MAX / 2 + 1,
    ensures
        2 * padded(len) - 1 <= usize::MAX,
{
    lemma_half_range_is_pow2();
    lemma_doubled_up_to_le(1, len, (usize::MAX / 2 + 1) as nat);
}

/// The position of the first leaf below node `ix`, when that node spans
/// `span` leaves of a tree with `n` leaves.
pub open spec fn first_leaf(n: int, ix: int, span: int) -> int {
    (ix + 1) * span - n
}

/// Node `ix` of a tree with `n` leaves is the root of a subtree that spans
/// exactly `span` leaves.
pub open spec fn covers(n: int, ix: int, span: int) -> bool {
    &&& is_pow2(span)
    &&& 0 <= ix
    &&& 0 <= first_leaf(n, ix, span)
    &&& first_leaf(n, ix, span) + span <= n
}

/// The root spans all the leaves, starting at the first.
pub proof fn lemma_root_covers(n: int)
    requires
        is_pow2(n),
    ensures
        covers(n, 0, n),
        first_leaf(n, 0, n) == 0,
{
    assert((0 + 1) * n == n) by (nonlinear_arith);
}

/// A node that spans some leaves lies within the array.
pub proof fn lemma_covers_in_bounds(n: int, ix: int, span: int)
    requires
        covers(n, ix, span),
    ensures
        0 <= ix < 2 * n - 1,
{
    assert(span >= 1);
    assert((ix + 1) * span >= ix + 1) by (nonlinear_arith)
        requires
            span >= 1,
            ix >= 0,
    ;
}

/// A node that spans one leaf is that leaf.
pub proof fn lemma_covers_leaf(n: int, ix: int)
    requires
        covers(n, ix, 1),
    ensures
        ix == n - 1 + first_leaf(n, ix, 1),
{
    assert((ix + 1) * 1 == ix + 1) by (nonlinear_arith);
}

/// A node that spans two or more leaves is internal; its children each span
/// half of them, the left child the first half.
pub proof fn lemma_covers_children(n: int, ix: int, span: int)
    requires
        covers(n, ix, span),
        span >= 2,
    ensures
        0 <= ix < n - 1,
        span % 2 == 0,
        covers(n, 2 * ix + 1, span / 2),
        covers(n, 2 * ix + 2, span / 2),
        first_leaf(n, 2 * ix + 1, span / 2) == first_leaf(n, ix, span),
        first_leaf(n, 2 * ix + 2, span / 2) == first_leaf(n, ix, span) + span / 2,
{
    let m = span / 2;
    assert(span == 2 * m);
    assert(is_pow2(m));
    assert((2 * ix + 1 + 1) * m == (ix + 1) * (2 * m)) by (nonlinear_arith);
    assert((2 * ix + 2 + 1) * m == (ix + 1) * (2 * m) + m) by (nonlinear_arith);
    assert((ix + 1) * span >= (ix + 1) * 2) by (nonlinear_arith)
        requires
            span >= 2,
            ix >= 0,
    ;
}

/// Returns the least power of two that is at least `len`.
pub fn next_power_of_two(len: usize) -> (n: usize)
    requires
        len <= usize::MAX / 2 + 1,
    ensures
        n == padded(len as nat),
{
    proof {
        lemma_padded_fits(len as nat);
    }
    let mut n: usize = 1;
    while n < len
        invariant
            n >= 1,
            doubled_up_to(n as nat, len as nat) == padded(len as nat),
            2 * padded(len as nat) - 1 <= usize::MAX,
            is_pow2(n as int),
        decreases (if n < len { len - n } else { 0 }),
    {
        proof {
            assert(is_pow2(2 * n as int));
            lemma_doubled_up_to((2 * n) as nat, len as nat);
        }
        n = n * 2;
    }
    n
}

} // verus!
