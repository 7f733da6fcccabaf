//! The group finder: sets of three or four tiles of one number in distinct
//! colours, with wildcards standing in for colours that the hand lacks.

use crate::adaptors::{first_of_each_color, group_by_number, unique_by_color};
use crate::grouping::{groups_cover, lemma_groups_cover, number_of_group};
use crate::hand::{
    count_wildcards, get_wildcards, has_number, lemma_has_wildcard, reaches_three, same_tiles,
};
use crate::order::{ascending, not_after, numbered_tiles, sorted_tiles};
use crate::pool::{lemma_group_numbers, lemma_pool_selections, pool_of};
use crate::selection::create_permutations;
use crate::sorted_sets::{
    add_sets, lemma_ascending_sets_differ, lemma_ascending_sets_equal, sets_ascend,
};
use crate::tile::{lemma_rank_is_injective, Card};
use vstd::prelude::*;

verus! {

/// The two tiles can stand in one group: if both are numbered, they have the
/// same number and different colours.
pub open spec fn group_mates(a: Card, b: Card) -> bool {
    a is Numbered && b is Numbered ==> a->number == b->number && a->color != b->color
}

/// The rule of the game for a group: three or four tiles whose numbered tiles
/// share one number and have pairwise distinct colours.
pub open spec fn is_group(set: Seq<Card>) -> bool {
    &&& 3 <= set.len() <= 4
    &&& forall|i: int, j: int|
        0 <= i < j < set.len() ==> group_mates(#[trigger] set[i], #[trigger] set[j])
}

/// The two tiles may stand in this order in a group that the finder emits:
/// the first comes before the second in the order on tiles, or the second is
/// a wildcard.
pub open spec fn in_order(first: Card, second: Card) -> bool {
    first.comes_before(second) || second is Wildcard
}

/// The order of the tiles within a group that the finder emits: numbered
/// tiles come in strictly ascending order, and wildcards come last.
pub open spec fn in_group_order(tiles: Seq<Card>) -> bool {
    forall|i: int, j: int|
        0 <= i < j < tiles.len() ==> in_order(#[trigger] tiles[i], #[trigger] tiles[j])
}

/// The tile is a tile of the hand with the given number.
pub open spec fn holds_numbered(hand: Seq<Card>, tile: Card, number: i8) -> bool {
    tile.number_of() == Some(number) && hand.contains(tile)
}

/// The hand can form `set` as a group of the given number: the hand holds a
/// tile of the number, the set has three or four tiles in group order, each of
/// them a wildcard or a tile of the hand with that number, and the set has no
/// more wildcards than the hand.
pub open spec fn group_with_number(hand: Seq<Card>, set: Seq<Card>, number: i8) -> bool {
    &&& has_number(hand, number)
    &&& 3 <= set.len() <= 4
    &&& in_group_order(set)
    &&& forall|i: int|
        0 <= i < set.len() ==> #[trigger] set[i] is Wildcard || holds_numbered(hand, set[i], number)
    &&& count_wildcards(set) <= count_wildcards(hand)
}

/// The hand can form `set` as a group.
pub open spec fn is_group_of(hand: Seq<Card>, set: Seq<Card>) -> bool {
    exists|number: i8| group_with_number(hand, set, number)
}

/// `sets` is the outcome of the group search on the hand: it holds every
/// group that the hand can form and nothing else, each group once and the
/// groups in ascending order.
pub open spec fn is_group_search(hand: Seq<Card>, sets: Seq<Seq<Card>>) -> bool {
    &&& sets_ascend(sets)
    &&& forall|set: Seq<Card>| #[trigger] sets.contains(set) <==> is_group_of(hand, set)
}

/// The hand can form `set` as a group with the number of one of the first
/// `k` groups of its sorted tiles.
pub open spec fn formed_by_first(
    hand: Seq<Card>,
    groups: Seq<Seq<Card>>,
    k: int,
    set: Seq<Card>,
) -> bool {
    exists|j: int| 0 <= j < k && group_with_number(hand, set, #[trigger] number_of_group(groups, j))
}

/// Finds every group that the hand can form. The numbered tiles are sorted
/// and split by number; of each number one tile of each colour is kept; these
/// tiles and the wildcards of the hand make the pool of the number, and every
/// selection of three or four tiles from a pool is a group. A group that
/// comes about in several ways is emitted once, and the groups are emitted in
/// ascending order.
pub fn find_same_numbers(cards: &[Card]) -> (sets: Vec<Vec<&Card>>)
    ensures
        is_group_search(cards@, sets.deep_view()),
        forall|i: int| 0 <= i < sets.len() ==> is_group(#[trigger] sets.deep_view()[i]),
        forall|i: int|
            0 <= i < sets.len() ==> count_wildcards(#[trigger] sets.deep_view()[i])
                <= count_wildcards(cards@),
        forall|i: int, j: int|
            0 <= i < j < sets.len() ==> !same_tiles(
                #[trigger] sets.deep_view()[i],
                #[trigger] sets.deep_view()[j],
            ),
{
    let ghost hand = cards@;
    let wildcards = get_wildcards(cards);
    let ghost wilds = wildcards.deep_view();
    // Sort the cards by number and color (with Wildcards at the end)
    let sorted_cards = sorted_tiles(cards);
    let ghost sorted = sorted_cards.deep_view();
    // Group cards (excluding wildcards) by their number
    let numbered = numbered_tiles(&sorted_cards);
    let grouped_cards = group_by_number(numbered);
    let ghost groups = grouped_cards.deep_view();
    let mut sets: Vec<Vec<&Card>> = Vec::new();
    let mut k: usize = 0;
    proof {
        lemma_groups_cover(hand, sorted, groups);
    }
    while k < grouped_cards.len()
        invariant
            k <= grouped_cards.len(),
            hand == cards@,
            wilds == wildcards.deep_view(),
            wilds == hand.filter(|c: Card| c is Wildcard),
            groups == grouped_cards.deep_view(),
            groups_cover(hand, groups),
            sets_ascend(sets.deep_view()),
            forall|set: Seq<Card>| #[trigger]
                sets.deep_view().contains(set) <==> formed_by_first(hand, groups, k as int, set),
        decreases grouped_cards.len() - k,
    {
        let ghost number = number_of_group(groups, k as int);
        // Exclude cards with duplicated color
        let mut pool = unique_by_color(&grouped_cards[k]);
        let ghost kept = pool.deep_view();
        assert(kept == first_of_each_color(groups[k as int]));
        // Take only groups with 3 cards or more (even with the help of wildcards)
        if reaches_three(pool.len(), wildcards.len()) {
            // Add wildcards to the set
            let mut w: usize = 0;
            while w < wildcards.len()
                invariant
                    w <= wildcards.len(),
                    wilds == wildcards.deep_view(),
                    pool.deep_view() =~= kept + wilds.take(w as int),
                decreases wildcards.len() - w,
            {
                let ghost shorter = pool.deep_view();
                pool.push(wildcards[w]);
                proof {
                    let longer = kept + wilds.take(w + 1);
                    assert(wilds.len() == wildcards.len());
                    assert(shorter.len() == kept.len() + w);
                    assert(pool.deep_view().len() == longer.len());
                    assert forall|i: int| 0 <= i < longer.len() implies pool.deep_view()[i]
                        == longer[i] by {
                        if i < shorter.len() {
                            assert(pool.deep_view()[i] == shorter[i]);
                        }
                    }
                }
                w += 1;
            }
            assert(wilds.take(w as int) =~= wilds);
            let candidates = pool.as_slice();
            assert(candidates.deep_view() =~= pool_of(hand, groups[k as int]));
            // The pool can hold more than 4 tiles: the selections keep 3 or 4 of them
            let permutations = create_permutations(candidates);
            add_sets(&mut sets, &permutations);
            proof {
                let after = sets.deep_view();
                assert forall|set: Seq<Card>| #[trigger]
                    after.contains(set) <==> formed_by_first(hand, groups, k + 1, set) by {
                    lemma_pool_selections(hand, groups, k as int, set);
                    if group_with_number(hand, set, number) {
                        assert(number_of_group(groups, k as int) == number);
                    }
                }
            }
        } else {
            proof {
                assert forall|set: Seq<Card>| !group_with_number(hand, set, number) by {
                    lemma_pool_selections(hand, groups, k as int, set);
                }
            }
        }
        k += 1;
    }
    proof {
        let found = sets.deep_view();
        assert forall|set: Seq<Card>| #[trigger] found.contains(set) <==> is_group_of(
            hand,
            set,
        ) by {
            lemma_group_numbers(hand, groups, set);
        }
        assert forall|i: int| 0 <= i < found.len() implies is_group(#[trigger] found[i])
            && count_wildcards(found[i]) <= count_wildcards(hand) by {
            lemma_emitted_group_is_valid(hand, found, i);
        }
        assert forall|i: int, j: int| 0 <= i < j < found.len() implies !same_tiles(
            #[trigger] found[i],
            #[trigger] found[j],
        ) by {
            lemma_emitted_groups_differ(hand, found, i, j);
        }
    }
    sets
}

/// Every group that the search emits obeys the rule of the game, is made of
/// tiles of the hand, uses no more wildcards than the hand has, and holds its
/// tiles in ascending order.
pub proof fn lemma_emitted_group_is_valid(hand: Seq<Card>, sets: Seq<Seq<Card>>, i: int)
    requires
        is_group_search(hand, sets),
        0 <= i < sets.len(),
    ensures
        is_group(sets[i]),
        count_wildcards(sets[i]) <= count_wildcards(hand),
        forall|k: int| 0 <= k < sets[i].len() ==> hand.contains(#[trigger] sets[i][k]),
        ascending(sets[i]),
{
    let set = sets[i];
    assert(sets.contains(set));
    let number = choose|number: i8| group_with_number(hand, set, number);
    assert forall|a: int, b: int| 0 <= a < b < set.len() implies group_mates(
        #[trigger] set[a],
        #[trigger] set[b],
    ) by {
        assert(in_order(set[a], set[b]));
    }
    lemma_has_wildcard(set);
    lemma_has_wildcard(hand);
    assert forall|k: int| 0 <= k < set.len() implies hand.contains(#[trigger] set[k]) by {
        if set[k] is Wildcard {
            let w = choose|w: int| 0 <= w < hand.len() && #[trigger] hand[w] is Wildcard;
            assert(hand[w] == set[k]);
        }
    }
    assert forall|a: int, b: int| 0 <= a < b < set.len() implies not_after(
        #[trigger] set[a],
        #[trigger] set[b],
    ) by {
        assert(in_order(set[a], set[b]));
    }
}

/// The outcome of the group search is a function of the tiles of the hand:
/// two outcomes for the same hand hold the same groups in the same order.
pub proof fn lemma_group_search_is_unique(
    hand: Seq<Card>,
    once: Seq<Seq<Card>>,
    again: Seq<Seq<Card>>,
)
    requires
        is_group_search(hand, once),
        is_group_search(hand, again),
    ensures
        once == again,
{
    lemma_ascending_sets_equal(once, again);
}

/// No two groups that the search emits hold the same tiles, in whatever
/// order the tiles are taken.
pub proof fn lemma_emitted_groups_differ(hand: Seq<Card>, sets: Seq<Seq<Card>>, i: int, j: int)
    requires
        is_group_search(hand, sets),
        0 <= i < sets.len(),
        0 <= j < sets.len(),
        i != j,
    ensures
        !same_tiles(sets[i], sets[j]),
{
    assert(sets.contains(sets[i]) && sets.contains(sets[j]));
    lemma_ascending_sets_differ(sets);
    let n = choose|number: i8| group_with_number(hand, sets[i], number);
    let m = choose|number: i8| group_with_number(hand, sets[j], number);
    if same_tiles(sets[i], sets[j]) {
        lemma_same_tiles_same_group(sets[i], sets[j]);
    }
}

/// Two sets in group order that hold the same tiles are equal.
pub proof fn lemma_same_tiles_same_group(a: Seq<Card>, b: Seq<Card>)
    requires
        in_group_order(a),
        in_group_order(b),
        same_tiles(a, b),
    ensures
        a == b,
{
    let leq = |x: Card, y: Card| x.rank() <= y.rank();
    assert(vstd::relations::total_ordering(leq)) by {
        assert forall|x: Card, y: Card| #[trigger] leq(x, y) && #[trigger] leq(y, x) implies x
            == y by {
            lemma_rank_is_injective(x, y);
        }
    }
    assert(vstd::relations::sorted_by(a, leq)) by {
        assert forall|i: int, j: int| 0 <= i < j < a.len() implies #[trigger] leq(a[i], a[j]) by {
            assert(in_order(a[i], a[j]));
        }
    }
    assert(vstd::relations::sorted_by(b, leq)) by {
        assert forall|i: int, j: int| 0 <= i < j < b.len() implies #[trigger] leq(b[i], b[j]) by {
            assert(in_order(b[i], b[j]));
        }
    }
    vstd::seq_lib::lemma_sorted_unique(a, b, leq);
}

} // verus!
