//! The two iterator adaptors of `iter_tools` that the group finder uses, each
//! behind a function whose contract says what the adaptor yields. The
//! contracts are taken from the documentation of `Itertools::group_by` and
//! `Itertools::unique_by`; Verus does not check them against the adaptors.

use crate::tile::Card;
use iter_tools::Itertools;
use vstd::prelude::*;

verus! {

/// The two tiles have the same number. Wildcards, which have no number, count
/// as tiles of one number.
pub open spec fn same_number(a: Card, b: Card) -> bool {
    a.number_of() == b.number_of()
}

/// `groups` splits `tiles` into its stretches of one number: the groups laid
/// end to end are the tiles, no group is empty, the tiles of a group all have
/// the same number, and a group does not go on with the number with which the
/// group before it ends.
pub open spec fn is_grouping_by_number(tiles: Seq<Card>, groups: Seq<Seq<Card>>) -> bool {
    &&& groups.flatten() == tiles
    &&& forall|k: int| 0 <= k < groups.len() ==> (#[trigger] groups[k]).len() > 0
    &&& forall|k: int, i: int|
        0 <= k < groups.len() && 0 <= i < groups[k].len() ==> same_number(
            #[trigger] groups[k][i],
            groups[k][0],
        )
    &&& forall|k: int|
        0 < k < groups.len() ==> !same_number(groups[k - 1].last(), (#[trigger] groups[k]).first())
}

/// One of the tiles has the colour of `tile`. Wildcards, which have no
/// colour, count as tiles of one colour.
pub open spec fn holds_color_of(tiles: Seq<Card>, tile: Card) -> bool {
    exists|j: int| 0 <= j < tiles.len() && (#[trigger] tiles[j]).color_of() == tile.color_of()
}

/// The tiles without those whose colour an earlier tile has: of the tiles of
/// one colour the first stays, and the tiles that stay keep their order.
pub open spec fn first_of_each_color(tiles: Seq<Card>) -> Seq<Card>
    decreases tiles.len(),
{
    if tiles.len() == 0 {
        tiles
    } else {
        let kept = first_of_each_color(tiles.drop_last());
        if holds_color_of(tiles.drop_last(), tiles.last()) {
            kept
        } else {
            kept.push(tiles.last())
        }
    }
}

/// Groups consecutive tiles of the same number, by `Itertools::group_by` with
/// `Card::number` as the key. `group_by` puts consecutive elements that map to
/// the same key into one group, and starts a new group where the key changes;
/// the groups are handed out in order, each with its elements in order. The
/// contract states this of the collected groups and is not verified.
#[verifier::external_body]
pub(crate) fn group_by_number<'a>(cards: Vec<&'a Card>) -> (groups: Vec<Vec<&'a Card>>)
    ensures
        is_grouping_by_number(cards.deep_view(), groups.deep_view()),
{
    let grouped = cards.into_iter().group_by(|c| c.number());
    let groups = (&grouped).into_iter().map(|(_, group)| group.collect()).collect();
    groups
}

/// Drops the tiles whose colour an earlier tile has, by `Itertools::unique_by`
/// with `Card::color` as the key. `unique_by` yields the elements whose key no
/// earlier element has, in the order in which they occur: of the elements
/// with one key the first is retained. The contract states this of the
/// collected elements and is not verified.
#[verifier::external_body]
pub(crate) fn unique_by_color<'a>(cards: &Vec<&'a Card>) -> (kept: Vec<&'a Card>)
    ensures
        kept.deep_view() == first_of_each_color(cards.deep_view()),
{
    cards.iter().copied().unique_by(|c| c.color()).collect()
}

} // verus!
