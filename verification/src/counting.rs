//! Counting over a sequence of bucket keys, and the stable rank that a
//! counting sort gives each element.

use vstd::prelude::*;
use vstd::relations::injective_on;
use vstd::set_lib::{lemma_int_range, lemma_map_size, lemma_subset_equality, set_int_range};

verus! {

/// Number of the first `len` keys that are smaller than `c`.
pub open spec fn count_below(keys: Seq<int>, len: int, c: int) -> nat
    decreases len,
{
    if len <= 0 {
        0
    } else {
        count_below(keys, len - 1, c) + (if keys[len - 1] < c { 1nat } else { 0nat })
    }
}

/// Number of the first `len` keys that are equal to `c`.
pub open spec fn count_equal(keys: Seq<int>, len: int, c: int) -> nat
    decreases len,
{
    if len <= 0 {
        0
    } else {
        count_equal(keys, len - 1, c) + (if keys[len - 1] == c { 1nat } else { 0nat })
    }
}

/// Every key is a non-negative integer.
pub open spec fn keys_nonneg(keys: Seq<int>) -> bool {
    forall|i: int| 0 <= i < keys.len() ==> 0 <= #[trigger] keys[i]
}

/// The position that a stable sort by key gives element `i`: all elements
/// with a smaller key come first, then the elements with the same key that
/// stand before `i`.
pub open spec fn rank(keys: Seq<int>, i: int) -> int {
    (count_below(keys, keys.len() as int, keys[i]) + count_equal(keys, i, keys[i])) as int
}

pub proof fn lemma_count_le_len(keys: Seq<int>, len: int, c: int)
    requires
        0 <= len,
    ensures
        count_below(keys, len, c) <= len,
        count_equal(keys, len, c) <= len,
    decreases len,
{
    if len > 0 {
        lemma_count_le_len(keys, len - 1, c);
    }
}

/// Counting below `c + 1` is counting below `c` and then the keys equal to `c`.
pub proof fn lemma_count_split(keys: Seq<int>, len: int, c: int)
    ensures
        count_below(keys, len, c) + count_equal(keys, len, c) == count_below(keys, len, c + 1),
    decreases len,
{
    if len > 0 {
        lemma_count_split(keys, len - 1, c);
    }
}

pub proof fn lemma_count_below_zero(keys: Seq<int>, len: int)
    requires
        keys_nonneg(keys),
        len <= keys.len(),
    ensures
        count_below(keys, len, 0) == 0,
    decreases len,
{
    if len > 0 {
        lemma_count_below_zero(keys, len - 1);
    }
}

/// Counting below a key that no key reaches counts every key.
pub proof fn lemma_count_below_all(keys: Seq<int>, len: int, c: int)
    requires
        0 <= len <= keys.len(),
        forall|i: int| 0 <= i < keys.len() ==> #[trigger] keys[i] < c,
    ensures
        count_below(keys, len, c) == len,
        count_equal(keys, len, c) == 0,
    decreases len,
{
    if len > 0 {
        lemma_count_below_all(keys, len - 1, c);
    }
}

pub proof fn lemma_count_below_mono(keys: Seq<int>, len: int, c1: int, c2: int)
    requires
        c1 <= c2,
    ensures
        count_below(keys, len, c1) <= count_below(keys, len, c2),
    decreases len,
{
    if len > 0 {
        lemma_count_below_mono(keys, len - 1, c1, c2);
    }
}

/// A longer prefix counts at least as many equal keys, and one more when the
/// key at the end of the shorter prefix is the one counted.
pub proof fn lemma_count_equal_prefix(keys: Seq<int>, l1: int, l2: int, c: int)
    requires
        0 <= l1 <= l2,
    ensures
        count_equal(keys, l1, c) <= count_equal(keys, l2, c),
        l1 < l2 && keys[l1] == c ==> count_equal(keys, l1, c) < count_equal(keys, l2, c),
    decreases l2,
{
    if l1 < l2 {
        lemma_count_equal_prefix(keys, l1, l2 - 1, c);
    }
}

/// The rank of an element lies inside the block of its key, hence below the
/// length.
pub proof fn lemma_rank_bounds(keys: Seq<int>, i: int)
    requires
        0 <= i < keys.len(),
    ensures
        count_below(keys, keys.len() as int, keys[i]) <= rank(keys, i),
        rank(keys, i) < count_below(keys, keys.len() as int, keys[i] + 1),
        count_below(keys, keys.len() as int, keys[i] + 1) <= keys.len(),
        0 <= rank(keys, i) < keys.len(),
{
    let n = keys.len() as int;
    lemma_count_equal_prefix(keys, i, n, keys[i]);
    lemma_count_split(keys, n, keys[i]);
    lemma_count_le_len(keys, n, keys[i] + 1);
}

/// Ranks follow the key, and among equal keys the original order.
pub proof fn lemma_rank_order(keys: Seq<int>, i: int, j: int)
    requires
        0 <= i < keys.len(),
        0 <= j < keys.len(),
        keys[i] < keys[j] || (keys[i] == keys[j] && i < j),
    ensures
        rank(keys, i) < rank(keys, j),
{
    let n = keys.len() as int;
    lemma_rank_bounds(keys, i);
    lemma_rank_bounds(keys, j);
    if keys[i] < keys[j] {
        lemma_count_below_mono(keys, n, keys[i] + 1, keys[j]);
    } else {
        lemma_count_equal_prefix(keys, i, j, keys[i]);
    }
}

/// Distinct elements have distinct ranks.
pub proof fn lemma_rank_injective(keys: Seq<int>, i: int, j: int)
    requires
        0 <= i < keys.len(),
        0 <= j < keys.len(),
        i != j,
    ensures
        rank(keys, i) != rank(keys, j),
{
    if keys[i] < keys[j] || (keys[i] == keys[j] && i < j) {
        lemma_rank_order(keys, i, j);
    } else {
        lemma_rank_order(keys, j, i);
    }
}

/// Every position below the length is the rank of some element.
pub proof fn lemma_rank_onto(keys: Seq<int>, k: int)
    requires
        0 <= k < keys.len(),
    ensures
        exists|i: int| 0 <= i < keys.len() && #[trigger] rank(keys, i) == k,
{
    let n = keys.len() as int;
    let dom = set_int_range(0, n);
    let f = |i: int| rank(keys, i);
    lemma_int_range(0, n);
    assert(injective_on(f, dom)) by {
        assert forall|x1: int, x2: int|
            dom.contains(x1) && dom.contains(x2) && #[trigger] f(x1) == #[trigger] f(x2) implies x1
            == x2 by {
            if x1 != x2 {
                lemma_rank_injective(keys, x1, x2);
            }
        }
    }
    let img = dom.map(f);
    lemma_map_size(dom, img, f);
    assert(img.subset_of(dom)) by {
        assert forall|r: int| img.contains(r) implies dom.contains(r) by {
            let i = choose|i: int| dom.contains(i) && r == f(i);
            lemma_rank_bounds(keys, i);
        }
    }
    lemma_subset_equality(img, dom);
    assert(dom.contains(k));
    assert(img.contains(k));
    let i = choose|i: int| dom.contains(i) && k == f(i);
    assert(rank(keys, i) == k);
}

} // verus!
