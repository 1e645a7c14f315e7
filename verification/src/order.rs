//! Stable ordering of rows by a rank, largest rank first.

use vstd::prelude::*;

verus! {

/// A sort rank: compared lexicographically.
pub type Rank = (i128, i128, i128);

/// `a` ranks at least as high as `b`.
pub open spec fn rank_ge(a: Rank, b: Rank) -> bool {
    a.0 > b.0 || (a.0 == b.0 && (a.1 > b.1 || (a.1 == b.1 && a.2 >= b.2)))
}

fn ranks_ge(a: Rank, b: Rank) -> (r: bool)
    ensures
        r == rank_ge(a, b),
{
    a.0 > b.0 || (a.0 == b.0 && (a.1 > b.1 || (a.1 == b.1 && a.2 >= b.2)))
}

/// `order` lists each of `0..n` exactly once.
pub open spec fn is_permutation(order: Seq<usize>, n: int) -> bool {
    &&& order.len() == n
    &&& forall|i: int| 0 <= i < n ==> #[trigger] order[i] < n
    &&& forall|i: int, j: int| 0 <= i < n && 0 <= j < n && i != j ==> #[trigger] order[i] != #[trigger] order[j]
}

/// Along `order`, ranks never increase.
pub open spec fn sorted_by_rank(order: Seq<usize>, ranks: Seq<Rank>) -> bool {
    forall|i: int, j: int|
        0 <= i < j < order.len() ==> rank_ge(ranks[#[trigger] order[i] as int], ranks[#[trigger] order[j] as int])
}

/// Along `order`, positions of equal rank keep their order.
pub open spec fn stable_by_rank(order: Seq<usize>, ranks: Seq<Rank>) -> bool {
    forall|i: int, j: int|
        0 <= i < j < order.len() && ranks[order[i] as int] == ranks[order[j] as int] ==> #[trigger] order[i]
            < #[trigger] order[j]
}

/// The positions of `ranks`, highest rank first (equal ranks keep their order).
pub fn rank_order(ranks: &Vec<Rank>) -> (order: Vec<usize>)
    ensures
        is_permutation(order@, ranks@.len() as int),
        sorted_by_rank(order@, ranks@),
        stable_by_rank(order@, ranks@),
{
    let n = ranks.len();
    let mut order: Vec<usize> = Vec::new();
    let mut i: usize = 0;
    while i < n
        invariant
            i <= n,
            n == ranks@.len(),
            is_permutation(order@, i as int),
            sorted_by_rank(order@, ranks@),
            stable_by_rank(order@, ranks@),
        decreases n - i,
    {
        let mut p: usize = 0;
        loop
            invariant
                p <= order@.len(),
                order@.len() == i,
                i < n,
                n == ranks@.len(),
                is_permutation(order@, i as int),
                forall|q: int| 0 <= q < p ==> rank_ge(ranks@[#[trigger] order@[q] as int], ranks@[i as int]),
            ensures
                p <= order@.len(),
                forall|q: int| 0 <= q < p ==> rank_ge(ranks@[#[trigger] order@[q] as int], ranks@[i as int]),
                p < order@.len() ==> !rank_ge(ranks@[order@[p as int] as int], ranks@[i as int]),
            decreases order@.len() - p,
        {
            if p >= order.len() {
                break;
            }
            if !ranks_ge(ranks[order[p]], ranks[i]) {
                break;
            }
            p += 1;
        }
        let ghost old_order = order@;
        order.insert(p, i);
        proof {
            assert forall|q: int| 0 <= q < order@.len() implies #[trigger] order@[q] == (if q < p {
                old_order[q]
            } else if q == p {
                i
            } else {
                old_order[q - 1]
            }) by {}
            assert forall|a: int, b: int| 0 <= a < b < order@.len() implies rank_ge(
                ranks@[#[trigger] order@[a] as int],
                ranks@[#[trigger] order@[b] as int],
            ) by {
                if a < p && b < p {
                    assert(order@[a] == old_order[a] && order@[b] == old_order[b]);
                } else if a < p && b == p {
                    assert(order@[a] == old_order[a]);
                } else if a < p {
                    assert(order@[a] == old_order[a] && order@[b] == old_order[b - 1]);
                    if a < b - 1 {
                        assert(rank_ge(ranks@[old_order[a] as int], ranks@[old_order[b - 1] as int]));
                    }
                } else if a == p {
                    assert(order@[b] == old_order[b - 1]);
                    assert(p < old_order.len());
                    if p < b - 1 {
                        assert(rank_ge(ranks@[old_order[p as int] as int], ranks@[old_order[b - 1] as int]));
                    }
                } else {
                    assert(order@[a] == old_order[a - 1] && order@[b] == old_order[b - 1]);
                }
            }
            assert forall|a: int, b: int|
                0 <= a < i + 1 && 0 <= b < i + 1 && a != b implies #[trigger] order@[a] != #[trigger] order@[b] by {
                if a != p && b != p {
                    let oa = if a < p { a } else { a - 1 };
                    let ob = if b < p { b } else { b - 1 };
                    assert(order@[a] == old_order[oa] && order@[b] == old_order[ob]);
                } else if a == p {
                    let ob = if b < p { b } else { b - 1 };
                    assert(order@[b] == old_order[ob]);
                } else {
                    let oa = if a < p { a } else { a - 1 };
                    assert(order@[a] == old_order[oa]);
                }
            }
            assert forall|a: int, b: int|
                0 <= a < b < order@.len() && ranks@[order@[a] as int] == ranks@[order@[b] as int] implies #[trigger] order@[a]
                    < #[trigger] order@[b] by {
                if a < p && b < p {
                    assert(order@[a] == old_order[a] && order@[b] == old_order[b]);
                } else if a < p && b == p {
                    assert(order@[a] == old_order[a]);
                    assert(old_order[a] < i);
                } else if a < p {
                    assert(order@[a] == old_order[a] && order@[b] == old_order[b - 1]);
                } else if a == p {
                    assert(order@[b] == old_order[b - 1]);
                    if p < b - 1 {
                        assert(rank_ge(ranks@[old_order[p as int] as int], ranks@[old_order[b - 1] as int]));
                    }
                    assert(false);
                } else {
                    assert(order@[a] == old_order[a - 1] && order@[b] == old_order[b - 1]);
                }
            }
            assert forall|a: int| 0 <= a < i + 1 implies #[trigger] order@[a] < i + 1 by {
                if a < p {
                    assert(order@[a] == old_order[a]);
                } else if a > p {
                    assert(order@[a] == old_order[a - 1]);
                }
            }
        }
        i += 1;
    }
    order
}

/// A permutation of `0..n` reaches every position.
pub proof fn lemma_permutation_covers(order: Seq<usize>, n: int, i: int)
    requires
        is_permutation(order, n),
        0 <= i < n,
    ensures
        exists|k: int| 0 <= k < n && #[trigger] order[k] == i,
{
    let x = vstd::set_lib::set_int_range(0, n);
    let f = |k: int| order[k] as int;
    let y = x.map(f);
    vstd::set_lib::lemma_int_range(0, n);
    assert(vstd::relations::injective_on(f, x)) by {
        assert forall|a: int, b: int| x.contains(a) && x.contains(b) && #[trigger] f(a) == #[trigger] f(b) implies a == b by {
            if a != b {
                assert(order[a] != order[b]);
            }
        }
    }
    vstd::set_lib::lemma_map_size(x, y, f);
    assert(y.subset_of(x)) by {
        assert forall|v: int| y.contains(v) implies x.contains(v) by {
            let a = choose|a: int| x.contains(a) && f(a) == v;
            assert(order[a] < n);
        }
    }
    vstd::set_lib::lemma_subset_equality(y, x);
    assert(x.contains(i));
    assert(y.contains(i));
    let k = choose|k: int| x.contains(k) && f(k) == i;
    assert(order[k] == i);
}

} // verus!
