//! What follows from the contracts of the two adaptors for the tiles of a
//! sorted hand: the groups of the hand by number, and the tiles of a group in
//! distinct colours.

use crate::adaptors::{first_of_each_color, holds_color_of, is_grouping_by_number, same_number};
use crate::order::{
    ascending, lemma_ascending_prefix, lemma_numbered_of, not_after, numbered_of,
};
use crate::tile::Card;
use vstd::prelude::*;

verus! {

/// Each tile that stays is one of the tiles.
pub(crate) proof fn lemma_kept_within(tiles: Seq<Card>, i: int) -> (m: int)
    requires
        0 <= i < first_of_each_color(tiles).len(),
    ensures
        0 <= m < tiles.len(),
        tiles[m] == first_of_each_color(tiles)[i],
    decreases tiles.len(),
{
    let earlier = tiles.drop_last();
    if i < first_of_each_color(earlier).len() {
        lemma_kept_within(earlier, i)
    } else {
        tiles.len() - 1
    }
}

/// Every colour of the tiles stays.
pub(crate) proof fn lemma_kept_color(tiles: Seq<Card>, i: int) -> (j: int)
    requires
        0 <= i < tiles.len(),
    ensures
        0 <= j < first_of_each_color(tiles).len(),
        first_of_each_color(tiles)[j].color_of() == tiles[i].color_of(),
    decreases tiles.len(),
{
    let earlier = tiles.drop_last();
    let last = tiles.last();
    if i < earlier.len() {
        lemma_kept_color(earlier, i)
    } else if holds_color_of(earlier, last) {
        let m = choose|m: int|
            0 <= m < earlier.len() && (#[trigger] earlier[m]).color_of() == last.color_of();
        lemma_kept_color(earlier, m)
    } else {
        first_of_each_color(earlier).len() as int
    }
}

/// No colour stays twice.
pub(crate) proof fn lemma_kept_distinct(tiles: Seq<Card>, i: int, j: int)
    requires
        0 <= i < j < first_of_each_color(tiles).len(),
    ensures
        first_of_each_color(tiles)[i].color_of() != first_of_each_color(tiles)[j].color_of(),
    decreases tiles.len(),
{
    let earlier = tiles.drop_last();
    if j < first_of_each_color(earlier).len() {
        lemma_kept_distinct(earlier, i, j);
    } else {
        let m = lemma_kept_within(earlier, i);
    }
}

/// Ascending tiles stay ascending.
pub(crate) proof fn lemma_kept_ascending(tiles: Seq<Card>)
    requires
        ascending(tiles),
    ensures
        ascending(first_of_each_color(tiles)),
    decreases tiles.len(),
{
    let kept = first_of_each_color(tiles);
    if tiles.len() > 0 {
        let earlier = tiles.drop_last();
        let before = first_of_each_color(earlier);
        assert(earlier =~= tiles.take(tiles.len() - 1));
        lemma_ascending_prefix(tiles, tiles.len() - 1);
        lemma_kept_ascending(earlier);
        assert forall|i: int, j: int| 0 <= i < j < kept.len() implies not_after(
            #[trigger] kept[i],
            #[trigger] kept[j],
        ) by {
            if j < before.len() {
                assert(before[i] == kept[i] && before[j] == kept[j]);
            } else {
                let m = lemma_kept_within(earlier, i);
                assert(tiles[m] == kept[i]);
                assert(tiles[tiles.len() - 1] == kept[j]);
            }
        }
    }
}

/// The tile is a numbered tile of the hand with the number of the group.
pub open spec fn belongs_to(hand: Seq<Card>, group: Seq<Card>, tile: Card) -> bool {
    tile is Numbered && same_number(tile, group[0]) && hand.contains(tile)
}

/// The first group has the lower number.
pub open spec fn lower_group(first: Seq<Card>, second: Seq<Card>) -> bool {
    first[0].rank() < second[0].rank() && !same_number(first[0], second[0])
}

/// What the groups of the sorted numbered tiles of a hand are to the hand:
/// each group holds tiles of the hand of one number, in ascending order; the
/// numbers of the groups ascend; and each numbered tile of the hand stands in
/// a group.
#[verifier::opaque]
pub open spec fn groups_cover(hand: Seq<Card>, groups: Seq<Seq<Card>>) -> bool {
    &&& forall|k: int| 0 <= k < groups.len() ==> (#[trigger] groups[k]).len() > 0
    &&& forall|k: int, i: int|
        0 <= k < groups.len() && 0 <= i < groups[k].len() ==> belongs_to(
            hand,
            groups[k],
            #[trigger] groups[k][i],
        )
    &&& forall|k: int| 0 <= k < groups.len() ==> ascending(#[trigger] groups[k])
    &&& forall|k: int, l: int|
        0 <= k < l < groups.len() ==> lower_group(#[trigger] groups[k], #[trigger] groups[l])
    &&& forall|tile: Card|
        hand.contains(tile) && tile is Numbered ==> exists|k: int|
            0 <= k < groups.len() && (#[trigger] groups[k]).contains(tile)
}

/// The number of the tiles of the group at place `k`.
pub open spec fn number_of_group(groups: Seq<Seq<Card>>, k: int) -> i8 {
    groups[k][0]->number
}

/// Where there are groups: the groups but the last split the tiles but those
/// of the last group, and the last group is the end of the tiles.
proof fn lemma_grouping_step(tiles: Seq<Card>, groups: Seq<Seq<Card>>)
    requires
        is_grouping_by_number(tiles, groups),
        groups.len() > 0,
    ensures
        is_grouping_by_number(groups.drop_last().flatten(), groups.drop_last()),
        tiles == groups.drop_last().flatten() + groups.last(),
        groups.last().len() > 0,
{
    let init = groups.drop_last();
    let last = groups.last();
    assert(groups =~= init.push(last));
    init.lemma_flatten_push(last);
    assert(last == groups[groups.len() - 1]);
    assert forall|k: int| 0 <= k < init.len() implies (#[trigger] init[k]).len() > 0 by {
        assert(init[k] == groups[k]);
    }
    assert forall|k: int, i: int|
        0 <= k < init.len() && 0 <= i < init[k].len() implies same_number(
        #[trigger] init[k][i],
        init[k][0],
    ) by {
        assert(init[k] == groups[k]);
    }
    assert forall|k: int| 0 < k < init.len() implies !same_number(
        init[k - 1].last(),
        (#[trigger] init[k]).first(),
    ) by {
        assert(init[k] == groups[k] && init[k - 1] == groups[k - 1]);
    }
}

/// The tiles of a group stand at one place of the tiles, in their order, and
/// right after the tiles of the group before it.
proof fn lemma_group_place(tiles: Seq<Card>, groups: Seq<Seq<Card>>, k: int) -> (start: int)
    requires
        is_grouping_by_number(tiles, groups),
        0 <= k < groups.len(),
    ensures
        0 <= start,
        start + groups[k].len() <= tiles.len(),
        groups[k] == tiles.subrange(start, start + groups[k].len()),
        k > 0 ==> start > 0 && tiles[start - 1] == groups[k - 1].last(),
    decreases groups.len(),
{
    lemma_grouping_step(tiles, groups);
    let init = groups.drop_last();
    let head = init.flatten();
    let last = groups.last();
    if k == groups.len() - 1 {
        assert(groups[k] =~= tiles.subrange(head.len() as int, (head.len() + last.len()) as int));
        if k > 0 {
            let before = lemma_group_place(head, init, k - 1);
            assert(init[k - 1] == groups[k - 1]);
            lemma_last_group_ends(head, init);
        }
        head.len() as int
    } else {
        let start = lemma_group_place(head, init, k);
        assert(init[k] == groups[k]);
        assert(groups[k] =~= tiles.subrange(start, start + groups[k].len()));
        if k > 0 {
            assert(init[k - 1] == groups[k - 1]);
        }
        start
    }
}

/// The last tile of the last group is the last of the tiles.
proof fn lemma_last_group_ends(tiles: Seq<Card>, groups: Seq<Seq<Card>>)
    requires
        is_grouping_by_number(tiles, groups),
        groups.len() > 0,
    ensures
        tiles.len() > 0,
        tiles.last() == groups.last().last(),
{
    lemma_grouping_step(tiles, groups);
}

/// Each tile stands in a group.
proof fn lemma_group_of_tile(tiles: Seq<Card>, groups: Seq<Seq<Card>>, i: int) -> (k: int)
    requires
        is_grouping_by_number(tiles, groups),
        0 <= i < tiles.len(),
    ensures
        0 <= k < groups.len(),
        groups[k].contains(tiles[i]),
    decreases groups.len(),
{
    if groups.len() == 0 {
        assert(groups.flatten() =~= Seq::<Card>::empty());
        0
    } else {
        lemma_grouping_step(tiles, groups);
        let init = groups.drop_last();
        let head = init.flatten();
        let last = groups.last();
        if i < head.len() {
            let k = lemma_group_of_tile(head, init, i);
            assert(init[k] == groups[k]);
            assert(head[i] == tiles[i]);
            k
        } else {
            assert(last[i - head.len()] == tiles[i]);
            groups.len() - 1
        }
    }
}

/// In ascending numbered tiles, a later group has a higher number.
proof fn lemma_groups_ascend(tiles: Seq<Card>, groups: Seq<Seq<Card>>, k: int, l: int)
    requires
        is_grouping_by_number(tiles, groups),
        ascending(tiles),
        forall|i: int| 0 <= i < tiles.len() ==> #[trigger] tiles[i] is Numbered,
        0 <= k < l < groups.len(),
    ensures
        groups[k][0] is Numbered,
        groups[l][0] is Numbered,
        groups[k][0]->number < groups[l][0]->number,
    decreases l - k,
{
    let start = lemma_group_place(tiles, groups, l);
    let before = lemma_group_place(tiles, groups, l - 1);
    let prev = groups[l - 1];
    assert(groups[l][0] == tiles[start]);
    assert(prev[0] == tiles[before]);
    assert(prev.last() == prev[prev.len() - 1]);
    assert(same_number(prev[prev.len() - 1], prev[0]));
    assert(!same_number(prev.last(), groups[l].first()));
    assert(not_after(tiles[start - 1], tiles[start]));
    assert(tiles[start - 1] is Numbered && tiles[start] is Numbered && tiles[before] is Numbered);
    if k < l - 1 {
        lemma_groups_ascend(tiles, groups, k, l - 1);
    }
}

/// The groups of the sorted numbered tiles of a hand cover the hand.
pub(crate) proof fn lemma_groups_cover(
    hand: Seq<Card>,
    sorted: Seq<Card>,
    groups: Seq<Seq<Card>>,
)
    requires
        sorted.to_multiset() == hand.to_multiset(),
        ascending(sorted),
        is_grouping_by_number(numbered_of(sorted), groups),
    ensures
        groups_cover(hand, groups),
{
    reveal(groups_cover);
    let numbered = numbered_of(sorted);
    lemma_numbered_of(sorted);
    assert forall|c: Card| sorted.contains(c) <==> hand.contains(c) by {
        vstd::seq_lib::to_multiset_contains(sorted, c);
        vstd::seq_lib::to_multiset_contains(hand, c);
    }
    assert forall|i: int| 0 <= i < numbered.len() implies #[trigger] numbered[i] is Numbered by {
        assert(numbered.contains(numbered[i]));
    }
    assert forall|k: int, i: int|
        0 <= k < groups.len() && 0 <= i < groups[k].len() implies belongs_to(
        hand,
        groups[k],
        #[trigger] groups[k][i],
    ) by {
        let start = lemma_group_place(numbered, groups, k);
        assert(groups[k][i] == numbered[start + i]);
        assert(numbered.contains(groups[k][i]));
    }
    assert forall|k: int| 0 <= k < groups.len() implies ascending(#[trigger] groups[k]) by {
        let start = lemma_group_place(numbered, groups, k);
        let group = groups[k];
        assert forall|i: int, j: int| 0 <= i < j < group.len() implies not_after(
            #[trigger] group[i],
            #[trigger] group[j],
        ) by {
            assert(group[i] == numbered[start + i] && group[j] == numbered[start + j]);
        }
    }
    assert forall|k: int, l: int| 0 <= k < l < groups.len() implies lower_group(
        #[trigger] groups[k],
        #[trigger] groups[l],
    ) by {
        lemma_groups_ascend(numbered, groups, k, l);
    }
    assert forall|tile: Card| hand.contains(tile) && tile is Numbered implies exists|k: int|
        0 <= k < groups.len() && (#[trigger] groups[k]).contains(tile) by {
        assert(numbered.contains(tile));
        let i = choose|i: int| 0 <= i < numbered.len() && numbered[i] == tile;
        let k = lemma_group_of_tile(numbered, groups, i);
        assert(groups[k].contains(tile));
    }
}

} // verus!
