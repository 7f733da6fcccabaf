//! Selections from a pool of tiles: every way to take three or four tiles of
//! the pool in the order of the pool, each kept once.

use crate::sorted_sets::{add_sets, sets_ascend};
use crate::tile::Card;
use vstd::prelude::*;
use vstd::slice::slice_to_vec;

verus! {

/// `picked` can be had from `pool` by leaving tiles out: it holds tiles of
/// distinct places of `pool`, in the order of `pool`.
pub open spec fn is_subsequence(picked: Seq<Card>, pool: Seq<Card>) -> bool
    decreases pool.len(),
{
    if picked.len() == 0 {
        true
    } else if pool.len() == 0 {
        false
    } else {
        ||| is_subsequence(picked, pool.drop_last())
        ||| picked.last() == pool.last() && is_subsequence(picked.drop_last(), pool.drop_last())
    }
}

/// `picked` is a selection from `pool`: tiles of the pool in the order of the
/// pool, three or four of them. A pool of fewer than three tiles has itself as
/// its only selection.
pub open spec fn is_selection(pool: Seq<Card>, picked: Seq<Card>) -> bool {
    &&& is_subsequence(picked, pool)
    &&& picked.len() <= 4
    &&& picked.len() >= 3 || picked.len() == pool.len()
}

/// A subsequence is no longer than the pool, and one of the same length is
/// the pool itself.
pub(crate) proof fn lemma_subsequence_len(picked: Seq<Card>, pool: Seq<Card>)
    requires
        is_subsequence(picked, pool),
    ensures
        picked.len() <= pool.len(),
        picked.len() == pool.len() ==> picked == pool,
    decreases pool.len(),
{
    if picked.len() > 0 {
        if is_subsequence(picked, pool.drop_last()) {
            lemma_subsequence_len(picked, pool.drop_last());
        } else {
            lemma_subsequence_len(picked.drop_last(), pool.drop_last());
            if picked.len() == pool.len() {
                assert(picked =~= picked.drop_last().push(picked.last()));
                assert(pool =~= pool.drop_last().push(pool.last()));
            }
        }
    } else {
        assert(picked.len() == pool.len() ==> picked =~= pool);
    }
}

/// Every sequence is a subsequence of itself.
pub(crate) proof fn lemma_subsequence_refl(pool: Seq<Card>)
    ensures
        is_subsequence(pool, pool),
    decreases pool.len(),
{
    if pool.len() > 0 {
        lemma_subsequence_refl(pool.drop_last());
    }
}

/// A subsequence of the pool without one tile is a subsequence of the pool.
pub(crate) proof fn lemma_subsequence_of_smaller(picked: Seq<Card>, pool: Seq<Card>, i: int)
    requires
        0 <= i < pool.len(),
        is_subsequence(picked, pool.remove(i)),
    ensures
        is_subsequence(picked, pool),
    decreases pool.len(),
{
    let smaller = pool.remove(i);
    if picked.len() > 0 {
        if i == pool.len() - 1 {
            assert(smaller =~= pool.drop_last());
        } else {
            assert(smaller.drop_last() =~= pool.drop_last().remove(i));
            assert(smaller.last() == pool.last());
            if is_subsequence(picked, smaller.drop_last()) {
                lemma_subsequence_of_smaller(picked, pool.drop_last(), i);
            } else {
                lemma_subsequence_of_smaller(picked.drop_last(), pool.drop_last(), i);
            }
        }
    }
}

/// A subsequence shorter than the pool leaves some tile of the pool out.
pub(crate) proof fn lemma_subsequence_leaves_out(picked: Seq<Card>, pool: Seq<Card>) -> (i: int)
    requires
        is_subsequence(picked, pool),
        picked.len() < pool.len(),
    ensures
        0 <= i < pool.len(),
        is_subsequence(picked, pool.remove(i)),
    decreases pool.len(),
{
    let last = pool.len() - 1;
    if picked.len() == 0 {
        0
    } else if is_subsequence(picked, pool.drop_last()) {
        assert(pool.remove(last) =~= pool.drop_last());
        last
    } else {
        let i = lemma_subsequence_leaves_out(picked.drop_last(), pool.drop_last());
        let smaller = pool.remove(i);
        assert(smaller.drop_last() =~= pool.drop_last().remove(i));
        assert(smaller.last() == pool.last());
        i
    }
}

/// `picked` is the pool itself, where the pool has no more than four tiles,
/// or a selection from the pool without one of its first `upto` tiles.
pub open spec fn selected_up_to(pool: Seq<Card>, upto: int, picked: Seq<Card>) -> bool {
    ||| pool.len() <= 4 && picked == pool
    ||| exists|i: int| 0 <= i < upto && is_selection(#[trigger] pool.remove(i), picked)
}

/// The selections from a pool of more than three tiles are the pool itself,
/// where it has four tiles, and the selections from the pool without one of
/// its tiles.
proof fn lemma_selections_of_smaller(pool: Seq<Card>, picked: Seq<Card>)
    requires
        pool.len() > 3,
    ensures
        selected_up_to(pool, pool.len() as int, picked) <==> is_selection(pool, picked),
{
    if pool.len() <= 4 && picked == pool {
        lemma_subsequence_refl(pool);
    }
    if exists|i: int| 0 <= i < pool.len() && is_selection(#[trigger] pool.remove(i), picked) {
        let i = choose|i: int|
            0 <= i < pool.len() && is_selection(#[trigger] pool.remove(i), picked);
        lemma_subsequence_of_smaller(picked, pool, i);
    }
    if is_selection(pool, picked) {
        lemma_subsequence_len(picked, pool);
        if picked.len() < pool.len() {
            let i = lemma_subsequence_leaves_out(picked, pool);
            assert(is_selection(pool.remove(i), picked));
        }
    }
}

/// Every selection from the tiles of `set`, each once and in ascending order:
/// all ways to keep three or four of the tiles in their order. A set of fewer
/// than three tiles is returned as its only selection.
pub fn create_permutations<'a>(set: &[&'a Card]) -> (permutations: Vec<Vec<&'a Card>>)
    ensures
        sets_ascend(permutations.deep_view()),
        forall|picked: Seq<Card>| #[trigger]
            permutations.deep_view().contains(picked) <==> is_selection(set.deep_view(), picked),
    decreases set.len(),
{
    let ghost pool = set.deep_view();
    let mut permutations: Vec<Vec<&Card>> = Vec::new();
    if set.len() <= 4 {
        let whole = slice_to_vec(set);
        assert(whole.deep_view() =~= pool);
        permutations.push(whole);
        assert(permutations.deep_view() =~= seq![pool]);
    }
    if set.len() > 3 {
        let mut remove_idx: usize = 0;
        proof {
            let held = permutations.deep_view();
            assert forall|picked: Seq<Card>| #[trigger]
                held.contains(picked) <==> selected_up_to(pool, 0, picked) by {
                if pool.len() <= 4 && picked == pool {
                    assert(held[0] == picked);
                }
            }
        }
        while remove_idx < set.len()
            invariant
                remove_idx <= set.len(),
                pool == set.deep_view(),
                sets_ascend(permutations.deep_view()),
                forall|picked: Seq<Card>| #[trigger]
                    permutations.deep_view().contains(picked) <==> selected_up_to(
                        pool,
                        remove_idx as int,
                        picked,
                    ),
            decreases set.len() - remove_idx,
        {
            let mut subset = slice_to_vec(set);
            subset.remove(remove_idx);
            assert(subset.deep_view() =~= pool.remove(remove_idx as int));
            let smaller = subset.as_slice();
            assert(smaller.deep_view() =~= subset.deep_view());
            let subpermutations = create_permutations(smaller);
            add_sets(&mut permutations, &subpermutations);
            remove_idx += 1;
        }
        proof {
            assert forall|picked: Seq<Card>| #[trigger]
                permutations.deep_view().contains(picked) <==> is_selection(pool, picked) by {
                lemma_selections_of_smaller(pool, picked);
            }
        }
    } else {
        proof {
            assert forall|picked: Seq<Card>| #[trigger]
                permutations.deep_view().contains(picked) <==> is_selection(pool, picked) by {
                if picked == pool {
                    lemma_subsequence_refl(pool);
                    assert(permutations.deep_view()[0] == picked);
                }
                if is_selection(pool, picked) {
                    lemma_subsequence_len(picked, pool);
                }
            }
        }
    }
    permutations
}

} // verus!
