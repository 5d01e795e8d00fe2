//! Ranking order for retrieval: lexicographic sort keys, the induced total
//! ordering on record positions, and a verified sort of position indices.
//!
//! Sorting positions instead of rows keeps the ordering antisymmetric (the
//! position itself is the final tiebreak), so the sorted result is the one
//! sequence `Seq::sort_by` defines, and contracts downstream are exact.

use vstd::prelude::*;
use vstd::relations::{sorted_by, total_ordering};
use vstd::seq_lib::lemma_sorted_unique;

verus! {

/// A lexicographic sort key: `a` first, then `b`, then `c`, all ascending.
#[derive(Clone, Copy, Debug, PartialEq, Eq, Structural)]
pub struct RankKey {
    pub a: u64,
    pub b: u64,
    pub c: u64,
}

/// Lexicographic order over two key triples extended with a position.
pub open spec fn lex4_le(
    a0: u64,
    a1: u64,
    a2: u64,
    a3: int,
    b0: u64,
    b1: u64,
    b2: u64,
    b3: int,
) -> bool {
    a0 < b0 || (a0 == b0 && (a1 < b1 || (a1 == b1 && (a2 < b2 || (a2 == b2 && a3 <= b3)))))
}

/// Position `i` comes no later than position `j`: by key, ties by position.
pub open spec fn idx_le(keys: Seq<RankKey>, i: usize, j: usize) -> bool {
    lex4_le(
        keys[i as int].a,
        keys[i as int].b,
        keys[i as int].c,
        i as int,
        keys[j as int].a,
        keys[j as int].b,
        keys[j as int].c,
        j as int,
    )
}

/// The ordering on positions induced by a key sequence.
pub open spec fn rank_ordering(keys: Seq<RankKey>) -> spec_fn(usize, usize) -> bool {
    |i: usize, j: usize| idx_le(keys, i, j)
}

/// Positions 0, 1, ..., n-1 in order.
pub open spec fn identity_perm(n: int) -> Seq<usize> {
    Seq::new(n as nat, |i: int| i as usize)
}

/// The ranked order of `n` rows under `keys`: the unique permutation of
/// positions that is sorted by key, ties broken by original position.
pub open spec fn spec_rank(keys: Seq<RankKey>, n: int) -> Seq<usize> {
    identity_perm(n).sort_by(rank_ordering(keys))
}

pub proof fn lemma_rank_ordering_total(keys: Seq<RankKey>)
    ensures
        total_ordering(rank_ordering(keys)),
{
    let leq = rank_ordering(keys);
    assert forall|i: usize| #[trigger] leq(i, i) by {
        assert(idx_le(keys, i, i));
    }
    assert forall|i: usize, j: usize| #[trigger] leq(i, j) && #[trigger] leq(j, i) implies i
        == j by {
        assert(i as int <= j as int && j as int <= i as int ==> i == j);
    }
    assert forall|i: usize, j: usize, k: usize| #[trigger] leq(i, j) && #[trigger] leq(j, k)
        implies leq(i, k) by {
        assert(idx_le(keys, i, j) && idx_le(keys, j, k) ==> idx_le(keys, i, k));
    }
    assert forall|i: usize, j: usize| #[trigger] leq(i, j) || #[trigger] leq(j, i) by {
        assert(idx_le(keys, i, j) || idx_le(keys, j, i));
    }
}

/// Compares two in-range positions exactly as `idx_le` does.
fn idx_le_exec(keys: &Vec<RankKey>, i: usize, j: usize) -> (r: bool)
    requires
        i < keys@.len(),
        j < keys@.len(),
    ensures
        r == idx_le(keys@, i, j),
{
    let ki = keys[i];
    let kj = keys[j];
    if ki.a != kj.a {
        ki.a < kj.a
    } else if ki.b != kj.b {
        ki.b < kj.b
    } else if ki.c != kj.c {
        ki.c < kj.c
    } else {
        i <= j
    }
}

/// Swapping two positions of a sequence keeps its multiset of elements.
proof fn lemma_swap_multiset<A>(s: Seq<A>, i: int, j: int)
    requires
        0 <= i < s.len(),
        0 <= j < s.len(),
        i != j,
    ensures
        s.update(i, s[j]).update(j, s[i]).to_multiset() == s.to_multiset(),
{
    broadcast use vstd::seq_lib::to_multiset_update;
    broadcast use vstd::seq_lib::group_to_multiset_ensures;
    broadcast use vstd::multiset::group_multiset_axioms;

    let s1 = s.update(i, s[j]);
    let s2 = s1.update(j, s[i]);
    assert(s1.to_multiset() == s.to_multiset().insert(s[j]).remove(s[i]));
    assert(s1[j] == s[j]);
    assert(s2.to_multiset() == s1.to_multiset().insert(s[i]).remove(s[j]));
    assert(s.to_multiset().contains(s[i]));
    assert(s2.to_multiset() =~= s.to_multiset());
}

/// Sorts the positions in `order` by `rank_ordering(keys@)`, in place.
pub fn sort_indices(keys: &Vec<RankKey>, order: &mut Vec<usize>)
    requires
        forall|k: int| 0 <= k < old(order)@.len() ==> old(order)@[k] < keys@.len(),
    ensures
        final(order)@.len() == old(order)@.len(),
        forall|k: int| 0 <= k < final(order)@.len() ==> final(order)@[k] < keys@.len(),
        sorted_by(final(order)@, rank_ordering(keys@)),
        final(order)@.to_multiset() == old(order)@.to_multiset(),
{
    let ghost leq = rank_ordering(keys@);
    let n = order.len();
    if n < 2 {
        return;
    }
    let mut i: usize = 1;
    while i < n
        invariant
            n == order@.len(),
            1 <= i <= n,
            forall|k: int| 0 <= k < order@.len() ==> order@[k] < keys@.len(),
            order@.to_multiset() == old(order)@.to_multiset(),
            forall|k: int, l: int| 0 <= k < l < i ==> #[trigger] leq(order@[k], order@[l]),
            leq == rank_ordering(keys@),
        decreases n - i,
    {
        let mut j: usize = i;
        while j > 0 && !idx_le_exec(keys, order[j - 1], order[j])
            invariant
                n == order@.len(),
                0 <= j <= i < n,
                forall|k: int| 0 <= k < order@.len() ==> order@[k] < keys@.len(),
                order@.to_multiset() == old(order)@.to_multiset(),
                forall|k: int, l: int|
                    0 <= k < l <= i && l != j ==> #[trigger] leq(order@[k], order@[l]),
                leq == rank_ordering(keys@),
            decreases j,
        {
            let x = order[j - 1];
            let y = order[j];
            proof {
                lemma_rank_ordering_total(keys@);
                assert(leq(y, x));
                lemma_swap_multiset(order@, j - 1, j as int);
            }
            let ghost before = order@;
            order.set(j - 1, y);
            order.set(j, x);
            proof {
                assert(order@ == before.update(j - 1, y).update(j as int, x));
                assert forall|k: int, l: int|
                    0 <= k < l <= i && l != j - 1 implies #[trigger] leq(
                    order@[k],
                    order@[l],
                ) by {
                    if l == j {
                        if k < j - 1 {
                            assert(leq(before[k], before[j - 1]));
                        }
                    } else if l > j {
                        if k == j - 1 {
                            assert(leq(before[j as int], before[l]));
                        } else if k == j {
                            assert(leq(before[j - 1], before[l]));
                        }
                    }
                }
            }
            j = j - 1;
        }
        proof {
            lemma_rank_ordering_total(keys@);
            assert forall|k: int, l: int| 0 <= k < l < i + 1 implies #[trigger] leq(
                order@[k],
                order@[l],
            ) by {
                if l == j && j > 0 {
                    assert(leq(order@[j - 1], order@[j as int]));
                    if k < j - 1 {
                        assert(leq(order@[k], order@[j - 1]));
                    }
                }
            }
        }
        i = i + 1;
    }
}

/// The sorted positions are exactly `spec_rank(keys, n)`.
pub proof fn lemma_sorted_is_spec_rank(keys: Seq<RankKey>, s: Seq<usize>, n: int)
    requires
        n >= 0,
        s.len() == n,
        sorted_by(s, rank_ordering(keys)),
        s.to_multiset() == identity_perm(n).to_multiset(),
    ensures
        s == spec_rank(keys, n),
{
    let leq = rank_ordering(keys);
    lemma_rank_ordering_total(keys);
    identity_perm(n).lemma_sort_by_ensures(leq);
    lemma_sorted_unique(s, spec_rank(keys, n), leq);
}

} // verus!
