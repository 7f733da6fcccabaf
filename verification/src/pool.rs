//! The pool of a number: the tiles of that number in distinct colours,
//! followed by the wildcards of the hand. The selections from the pool are the
//! groups of the number.

use crate::adaptors::first_of_each_color;
use crate::grouping::{
    belongs_to, groups_cover, lemma_kept_ascending, lemma_kept_color, lemma_kept_distinct,
    lemma_kept_within, lower_group, number_of_group,
};
use crate::groups::{
    formed_by_first, group_with_number, holds_numbered, in_group_order, in_order, is_group_of,
};
use crate::hand::{
    count_wildcards, has_number, lemma_count_all_wild, lemma_count_without_last, lemma_has_wildcard,
};
use crate::order::not_after;
use crate::selection::{is_selection, is_subsequence, lemma_subsequence_len};
use crate::tile::Card;
use vstd::prelude::*;

verus! {

/// The pool of a group is its tiles of distinct colours followed by the
/// wildcards of the hand.
pub open spec fn pool_of(hand: Seq<Card>, group: Seq<Card>) -> Seq<Card> {
    first_of_each_color(group) + hand.filter(|c: Card| c is Wildcard)
}

/// Tiles in group order stay in group order when the last is taken away.
proof fn lemma_group_order_without_last(tiles: Seq<Card>)
    requires
        in_group_order(tiles),
        tiles.len() > 0,
    ensures
        in_group_order(tiles.drop_last()),
{
    let init = tiles.drop_last();
    assert forall|i: int, j: int| 0 <= i < j < init.len() implies in_order(init[i], init[j]) by {
        assert(in_order(tiles[i], tiles[j]));
    }
}

/// Each tile of a subsequence stands in the pool.
pub(crate) proof fn lemma_subsequence_within(picked: Seq<Card>, pool: Seq<Card>)
    requires
        is_subsequence(picked, pool),
    ensures
        forall|i: int| 0 <= i < picked.len() ==> pool.contains(#[trigger] picked[i]),
    decreases pool.len(),
{
    if picked.len() > 0 {
        let rest = pool.drop_last();
        assert forall|i: int| 0 <= i < picked.len() implies pool.contains(#[trigger] picked[i]) by {
            if is_subsequence(picked, rest) {
                lemma_subsequence_within(picked, rest);
                assert(rest.contains(picked[i]));
                let m = choose|m: int| 0 <= m < rest.len() && rest[m] == picked[i];
                assert(pool[m] == picked[i]);
            } else {
                lemma_subsequence_within(picked.drop_last(), rest);
                if i < picked.len() - 1 {
                    assert(rest.contains(picked.drop_last()[i]));
                    let m = choose|m: int| 0 <= m < rest.len() && rest[m] == picked[i];
                    assert(pool[m] == picked[i]);
                } else {
                    assert(pool[pool.len() - 1] == picked[i]);
                }
            }
        }
    }
}

/// A subsequence of a pool in group order is in group order.
pub(crate) proof fn lemma_subsequence_in_order(picked: Seq<Card>, pool: Seq<Card>)
    requires
        is_subsequence(picked, pool),
        in_group_order(pool),
    ensures
        in_group_order(picked),
    decreases pool.len(),
{
    if picked.len() > 0 {
        let rest = pool.drop_last();
        lemma_group_order_without_last(pool);
        if is_subsequence(picked, rest) {
            lemma_subsequence_in_order(picked, rest);
        } else {
            let init = picked.drop_last();
            lemma_subsequence_in_order(init, rest);
            lemma_subsequence_within(init, rest);
            assert forall|i: int, j: int| 0 <= i < j < picked.len() implies in_order(
                #[trigger] picked[i],
                #[trigger] picked[j],
            ) by {
                if j < picked.len() - 1 {
                    assert(init[i] == picked[i] && init[j] == picked[j]);
                } else {
                    assert(rest.contains(init[i]));
                    let m = choose|m: int| 0 <= m < rest.len() && rest[m] == picked[i];
                    assert(pool[m] == picked[i] && pool[pool.len() - 1] == picked[j]);
                }
            }
        }
    }
}

/// A subsequence has no more wildcards than the pool.
pub(crate) proof fn lemma_subsequence_wildcards(picked: Seq<Card>, pool: Seq<Card>)
    requires
        is_subsequence(picked, pool),
    ensures
        count_wildcards(picked) <= count_wildcards(pool),
    decreases pool.len(),
{
    if picked.len() > 0 {
        lemma_count_without_last(pool);
        if is_subsequence(picked, pool.drop_last()) {
            lemma_subsequence_wildcards(picked, pool.drop_last());
        } else {
            lemma_count_without_last(picked);
            lemma_subsequence_wildcards(picked.drop_last(), pool.drop_last());
        }
    } else {
        assert(picked.filter(|c: Card| c is Wildcard).len() == 0) by {
            reveal(Seq::filter);
        }
    }
}

/// Tiles in group order are a subsequence of a pool in group order if the
/// pool holds each of their numbered tiles and has as many wildcards.
pub(crate) proof fn lemma_ordered_is_subsequence(picked: Seq<Card>, pool: Seq<Card>)
    requires
        in_group_order(picked),
        in_group_order(pool),
        forall|i: int|
            0 <= i < picked.len() && #[trigger] picked[i] is Numbered ==> pool.contains(picked[i]),
        count_wildcards(picked) <= count_wildcards(pool),
    ensures
        is_subsequence(picked, pool),
    decreases pool.len(),
{
    if picked.len() == 0 {
    } else if pool.len() == 0 {
        lemma_has_wildcard(picked);
        lemma_has_wildcard(pool);
        let x = picked[picked.len() - 1];
        if x is Numbered {
            assert(pool.contains(x));
        }
    } else {
        let x = picked.last();
        let p = pool.last();
        let init = picked.drop_last();
        let rest = pool.drop_last();
        let top = picked.len() - 1;
        let end = pool.len() - 1;
        lemma_count_without_last(picked);
        lemma_count_without_last(pool);
        lemma_has_wildcard(picked);
        lemma_has_wildcard(pool);
        lemma_group_order_without_last(pool);
        if x == p {
            // The last tile is taken from the end of the pool, the others
            // from the rest of it.
            lemma_group_order_without_last(picked);
            assert forall|i: int|
                0 <= i < init.len() && #[trigger] init[i] is Numbered implies rest.contains(
                init[i],
            ) by {
                assert(picked[i] == init[i]);
                assert(pool.contains(picked[i]));
                let m = choose|m: int| 0 <= m < pool.len() && pool[m] == picked[i];
                assert(in_order(picked[i], picked[top]));
                assert(rest[m] == init[i]);
            }
            lemma_ordered_is_subsequence(init, rest);
        } else {
            // The end of the pool is left out: no tile of the set is taken
            // from there.
            assert forall|i: int|
                0 <= i < picked.len() && #[trigger] picked[i] is Numbered implies rest.contains(
                picked[i],
            ) by {
                assert(pool.contains(picked[i]));
                let m = choose|m: int| 0 <= m < pool.len() && pool[m] == picked[i];
                if m == end {
                    assert(in_order(picked[i], picked[top]));
                    if x is Wildcard {
                        let q = choose|q: int|
                            0 <= q < pool.len() && #[trigger] pool[q] is Wildcard;
                        assert(in_order(pool[q], pool[end]));
                    } else {
                        assert(pool.contains(picked[top]));
                        let n = choose|n: int| 0 <= n < pool.len() && pool[n] == picked[top];
                        assert(in_order(pool[n], pool[end]));
                    }
                }
                assert(rest[m] == picked[i]);
            }
            if p is Wildcard && count_wildcards(picked) >= 1 {
                let q = choose|q: int| 0 <= q < picked.len() && #[trigger] picked[q] is Wildcard;
                assert(in_order(picked[q], picked[top]));
            }
            lemma_ordered_is_subsequence(picked, rest);
        }
    }
}

/// What the pool of a group holds: it is in group order, it has the
/// wildcards of the hand, and its numbered tiles are the tiles of the hand
/// with the number of the group.
proof fn lemma_pool(hand: Seq<Card>, groups: Seq<Seq<Card>>, k: int)
    requires
        groups_cover(hand, groups),
        0 <= k < groups.len(),
    ensures
        in_group_order(pool_of(hand, groups[k])),
        count_wildcards(pool_of(hand, groups[k])) == count_wildcards(hand),
        has_number(hand, number_of_group(groups, k)),
        forall|tile: Card|
            tile is Numbered ==> (#[trigger] pool_of(hand, groups[k]).contains(tile)
                <==> holds_numbered(hand, tile, number_of_group(groups, k))),
{
    reveal(groups_cover);
    let group = groups[k];
    let number = number_of_group(groups, k);
    let kept = first_of_each_color(group);
    let wilds = hand.filter(|c: Card| c is Wildcard);
    let pool = pool_of(hand, group);
    assert(belongs_to(hand, group, groups[k][0]));
    assert(has_number(hand, number)) by {
        let i = choose|i: int| 0 <= i < hand.len() && hand[i] == group[0];
        assert(hand[i].number_of() == Some(number));
    }
    assert forall|i: int| 0 <= i < wilds.len() implies #[trigger] wilds[i] is Wildcard by {
        hand.lemma_filter_pred(|c: Card| c is Wildcard, i);
    }
    assert forall|i: int| 0 <= i < kept.len() implies belongs_to(
        hand,
        group,
        #[trigger] kept[i],
    ) by {
        let m = lemma_kept_within(group, i);
        assert(groups[k][m] == kept[i]);
    }
    lemma_kept_ascending(group);
    assert forall|i: int, j: int| 0 <= i < j < pool.len() implies in_order(
        #[trigger] pool[i],
        #[trigger] pool[j],
    ) by {
        if j < kept.len() {
            lemma_kept_distinct(group, i, j);
            assert(not_after(kept[i], kept[j]));
            assert(belongs_to(hand, group, kept[i]) && belongs_to(hand, group, kept[j]));
            assert(pool[i] == kept[i] && pool[j] == kept[j]);
        } else {
            assert(pool[j] == wilds[j - kept.len()]);
        }
    }
    assert(count_wildcards(pool) == count_wildcards(hand)) by {
        Seq::filter_distributes_over_add(kept, wilds, |c: Card| c is Wildcard);
        lemma_count_all_wild(wilds);
        lemma_has_wildcard(kept);
        if count_wildcards(kept) >= 1 {
            let i = choose|i: int| 0 <= i < kept.len() && #[trigger] kept[i] is Wildcard;
            assert(belongs_to(hand, group, kept[i]));
        }
    }
    assert forall|tile: Card| tile is Numbered implies (#[trigger] pool.contains(tile)
        <==> holds_numbered(hand, tile, number)) by {
        if pool.contains(tile) {
            let i = choose|i: int| 0 <= i < pool.len() && pool[i] == tile;
            if i < kept.len() {
                assert(belongs_to(hand, group, kept[i]));
            } else {
                assert(pool[i] == wilds[i - kept.len()]);
            }
        }
        if holds_numbered(hand, tile, number) {
            let l = choose|l: int| 0 <= l < groups.len() && (#[trigger] groups[l]).contains(tile);
            let i = choose|i: int| 0 <= i < groups[l].len() && groups[l][i] == tile;
            assert(belongs_to(hand, groups[l], groups[l][i]));
            if l < k {
                assert(lower_group(groups[l], groups[k]));
            }
            if k < l {
                assert(lower_group(groups[k], groups[l]));
            }
            let j = lemma_kept_color(group, i);
            assert(belongs_to(hand, group, kept[j]));
            assert(pool[j] == tile);
        }
    }
}

/// The selections from the pool of a group are the groups that the hand can
/// form with the number of the group.
pub(crate) proof fn lemma_pool_selections(
    hand: Seq<Card>,
    groups: Seq<Seq<Card>>,
    k: int,
    set: Seq<Card>,
)
    requires
        groups_cover(hand, groups),
        0 <= k < groups.len(),
    ensures
        group_with_number(hand, set, number_of_group(groups, k)) <==> pool_of(
            hand,
            groups[k],
        ).len() >= 3 && is_selection(pool_of(hand, groups[k]), set),
{
    let pool = pool_of(hand, groups[k]);
    let number = number_of_group(groups, k);
    lemma_pool(hand, groups, k);
    if group_with_number(hand, set, number) {
        assert forall|i: int|
            0 <= i < set.len() && #[trigger] set[i] is Numbered implies pool.contains(set[i]) by {
            assert(holds_numbered(hand, set[i], number));
        }
        lemma_ordered_is_subsequence(set, pool);
        lemma_subsequence_len(set, pool);
    }
    if pool.len() >= 3 && is_selection(pool, set) {
        lemma_subsequence_len(set, pool);
        lemma_subsequence_in_order(set, pool);
        lemma_subsequence_within(set, pool);
        lemma_subsequence_wildcards(set, pool);
        assert forall|i: int| 0 <= i < set.len() implies #[trigger] set[i] is Wildcard
            || holds_numbered(hand, set[i], number) by {
            assert(pool.contains(set[i]));
        }
    }
}

/// The hand can form a group exactly when it can form it with the number of
/// one of the groups.
pub(crate) proof fn lemma_group_numbers(hand: Seq<Card>, groups: Seq<Seq<Card>>, set: Seq<Card>)
    requires
        groups_cover(hand, groups),
    ensures
        is_group_of(hand, set) <==> formed_by_first(hand, groups, groups.len() as int, set),
{
    reveal(groups_cover);
    if is_group_of(hand, set) {
        let number = choose|number: i8| group_with_number(hand, set, number);
        let i = choose|i: int|
            0 <= i < hand.len() && (#[trigger] hand[i]).number_of() == Some(number);
        assert(hand.contains(hand[i]));
        let k = choose|k: int| 0 <= k < groups.len() && (#[trigger] groups[k]).contains(hand[i]);
        let m = choose|m: int| 0 <= m < groups[k].len() && groups[k][m] == hand[i];
        assert(belongs_to(hand, groups[k], groups[k][m]));
        assert(number_of_group(groups, k) == number);
    }
}

} // verus!
