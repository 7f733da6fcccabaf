//! The search for every set that a hand can form: its groups and its runs.

use crate::groups::{
    find_same_numbers, group_with_number, in_order, is_group, is_group_of, is_group_search,
    lemma_emitted_group_is_valid, lemma_emitted_groups_differ, lemma_group_search_is_unique,
};
use crate::hand::{count_wildcards, lemma_has_wildcard, lemma_same_tiles_within, same_tiles};
use crate::runs::{
    find_runs, is_run, is_run_search, is_run_search_by, lemma_emitted_run_is_valid,
    lemma_plain_run_is_emitted_once, lemma_run_search_is_unique, realizable, run_of, Window,
};
use crate::tile::Card;
use vstd::prelude::*;

verus! {

/// `sets` is the outcome of the search on the hand: the first `groups` sets
/// are the outcome of the group search, and the sets after them are the
/// outcome of the run search.
pub open spec fn is_valid_sets_split(hand: Seq<Card>, sets: Seq<Seq<Card>>, groups: int) -> bool {
    &&& 0 <= groups <= sets.len()
    &&& is_group_search(hand, sets.take(groups))
    &&& is_run_search(hand, sets.skip(groups))
}

/// `sets` is the outcome of the search on the hand: the groups that the hand
/// can form, followed by the runs that it can form.
pub open spec fn is_valid_sets(hand: Seq<Card>, sets: Seq<Seq<Card>>) -> bool {
    exists|groups: int| is_valid_sets_split(hand, sets, groups)
}

/// The hand can form the set: as a group, or as the run of a window that it
/// can realize.
pub open spec fn can_form(hand: Seq<Card>, set: Seq<Card>) -> bool {
    ||| is_group_of(hand, set)
    ||| exists|window: Window| realizable(hand, window) && set == run_of(hand, window)
}

/// The set is a group or a run by the rules of the game, it is made of tiles
/// of the hand, and it has no more wildcards than the hand.
pub open spec fn is_valid_set(hand: Seq<Card>, set: Seq<Card>) -> bool {
    &&& is_group(set) || is_run(set)
    &&& forall|k: int| 0 <= k < set.len() ==> hand.contains(#[trigger] set[k])
    &&& count_wildcards(set) <= count_wildcards(hand)
}

/// Finds every set that the hand can form: the groups, then the runs.
pub fn valid_sets(cards: &[Card]) -> (sets: Vec<Vec<&Card>>)
    ensures
        is_valid_sets(cards@, sets.deep_view()),
        forall|i: int| 0 <= i < sets.len() ==> is_valid_set(cards@, #[trigger] sets.deep_view()[i]),
{
    let mut runs = find_runs(cards);
    let mut same_numbers = find_same_numbers(cards);
    let ghost groups = same_numbers.deep_view();
    let ghost windows = runs.deep_view();
    same_numbers.append(&mut runs);
    proof {
        let sets = same_numbers.deep_view();
        assert(sets.take(groups.len() as int) =~= groups);
        assert(sets.skip(groups.len() as int) =~= windows);
        assert(is_valid_sets_split(cards@, sets, groups.len() as int));
        assert forall|i: int| 0 <= i < sets.len() implies is_valid_set(
            cards@,
            #[trigger] sets[i],
        ) by {
            lemma_emitted_set_is_valid(cards@, sets, i);
        }
    }
    same_numbers
}

/// Every set that the search emits is a group or a run by the rules of the
/// game, is made of tiles of the hand, and has no more wildcards than the
/// hand. No set is shorter than three tiles, and none is longer than the
/// thirteen numbers of the game.
pub proof fn lemma_emitted_set_is_valid(hand: Seq<Card>, sets: Seq<Seq<Card>>, i: int)
    requires
        is_valid_sets(hand, sets),
        0 <= i < sets.len(),
    ensures
        is_valid_set(hand, sets[i]),
        3 <= sets[i].len() <= 13,
{
    let groups = choose|groups: int| is_valid_sets_split(hand, sets, groups);
    if i < groups {
        assert(sets.take(groups)[i] == sets[i]);
        lemma_emitted_group_is_valid(hand, sets.take(groups), i);
    } else {
        assert(sets.skip(groups)[i - groups] == sets[i]);
        lemma_emitted_run_is_valid(hand, sets.skip(groups), i - groups);
    }
}

/// The search emits the sets that the hand can form, and no others.
pub proof fn lemma_search_is_exact(hand: Seq<Card>, sets: Seq<Seq<Card>>, set: Seq<Card>)
    requires
        is_valid_sets(hand, sets),
    ensures
        sets.contains(set) <==> can_form(hand, set),
{
    let groups = choose|groups: int| is_valid_sets_split(hand, sets, groups);
    let found = sets.take(groups);
    let runs = sets.skip(groups);
    let windows = choose|windows: Seq<Window>| is_run_search_by(hand, runs, windows);
    if sets.contains(set) {
        let i = choose|i: int| 0 <= i < sets.len() && sets[i] == set;
        if i < groups {
            assert(found[i] == set);
            assert(found.contains(set));
        } else {
            assert(runs[i - groups] == set);
            assert(windows.contains(windows[i - groups]));
        }
    }
    if is_group_of(hand, set) {
        assert(found.contains(set));
        let i = choose|i: int| 0 <= i < found.len() && found[i] == set;
        assert(sets[i] == set);
    }
    if exists|window: Window| realizable(hand, window) && set == run_of(hand, window) {
        let window = choose|window: Window|
            realizable(hand, window) && set == run_of(hand, window);
        assert(windows.contains(window));
        let i = choose|i: int| 0 <= i < windows.len() && windows[i] == window;
        assert(runs[i] == set);
        assert(sets[groups + i] == set);
    }
}

/// The outcome of the search is a function of the tiles of the hand: two
/// searches on the same hand emit the same sets in the same order.
pub proof fn lemma_search_is_deterministic(
    hand: Seq<Card>,
    once: Seq<Seq<Card>>,
    again: Seq<Seq<Card>>,
)
    requires
        is_valid_sets(hand, once),
        is_valid_sets(hand, again),
    ensures
        once == again,
{
    let g = choose|groups: int| is_valid_sets_split(hand, once, groups);
    let h = choose|groups: int| is_valid_sets_split(hand, again, groups);
    lemma_group_search_is_unique(hand, once.take(g), again.take(h));
    lemma_run_search_is_unique(hand, once.skip(g), again.skip(h));
    assert(once.take(g).len() == g && again.take(h).len() == h);
    assert(once =~= once.take(g) + once.skip(g));
    assert(again =~= again.take(h) + again.skip(h));
}

/// A set without wildcards is emitted once: no other set that the search
/// emits holds the same tiles, in whatever order the tiles are taken.
///
/// Of sets with wildcards this does not hold: a tile and two wildcards are
/// both a group and a run, and a wildcard may stand at either end of a run.
pub proof fn lemma_plain_set_is_emitted_once(hand: Seq<Card>, sets: Seq<Seq<Card>>, i: int, j: int)
    requires
        is_valid_sets(hand, sets),
        0 <= i < sets.len(),
        0 <= j < sets.len(),
        i != j,
        count_wildcards(sets[i]) == 0,
    ensures
        !same_tiles(sets[i], sets[j]),
{
    let groups = choose|groups: int| is_valid_sets_split(hand, sets, groups);
    let found = sets.take(groups);
    let runs = sets.skip(groups);
    let windows = choose|windows: Seq<Window>| is_run_search_by(hand, runs, windows);
    let a = sets[i];
    let b = sets[j];
    lemma_has_wildcard(a);
    if same_tiles(a, b) {
        vstd::seq_lib::to_multiset_len(a);
        vstd::seq_lib::to_multiset_len(b);
        if i < groups && j < groups {
            // Two groups never hold the same tiles.
            assert(found[i] == a && found[j] == b);
            lemma_emitted_groups_differ(hand, found, i, j);
        } else if i < groups {
            // The tiles of a group have one number, the first two tiles of a
            // run without wildcards have two.
            assert(found[i] == a);
            assert(found.contains(a));
            let number = choose|number: i8| group_with_number(hand, a, number);
            let window = windows[j - groups];
            assert(windows.contains(window));
            assert(b == runs[j - groups]);
            let m0 = lemma_same_tiles_within(a, b, 0);
            let m1 = lemma_same_tiles_within(a, b, 1);
            assert(a[m0] is Numbered && a[m1] is Numbered);
        } else if j < groups {
            // The tiles of a run have one colour, the first two tiles of a
            // group without wildcards have two.
            assert(found[j] == b);
            assert(found.contains(b));
            let number = choose|number: i8| group_with_number(hand, b, number);
            let window = windows[i - groups];
            assert(windows.contains(window));
            assert(a == runs[i - groups]);
            let m0 = lemma_same_tiles_within(a, b, 0);
            let m1 = lemma_same_tiles_within(a, b, 1);
            assert(a[m0] is Numbered && a[m1] is Numbered);
            assert(in_order(b[0], b[1]));
        } else {
            // Two runs without wildcards never hold the same tiles.
            assert(a == runs[i - groups] && b == runs[j - groups]);
            lemma_plain_run_is_emitted_once(hand, runs, i - groups, j - groups);
        }
    }
}

} // verus!
