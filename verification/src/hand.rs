//! What a hand of tiles holds: its wildcards, and which numbered tiles occur
//! in it.

use crate::tile::{Card, Color};
use vstd::prelude::*;

verus! {

/// Every numbered tile of the hand carries a number of the game.
pub open spec fn hand_wf(hand: Seq<Card>) -> bool {
    forall|i: int| 0 <= i < hand.len() ==> (#[trigger] hand[i]).wf()
}

/// The number of wildcards among the tiles.
pub open spec fn count_wildcards(tiles: Seq<Card>) -> nat {
    tiles.filter(|c: Card| c is Wildcard).len()
}

/// The two sets hold the same tiles, in whatever order: sorted by the order on
/// tiles they are the same sequence.
pub open spec fn same_tiles(a: Seq<Card>, b: Seq<Card>) -> bool {
    a.to_multiset() == b.to_multiset()
}

/// The hand holds the numbered tile of this number and colour.
pub open spec fn has_tile(hand: Seq<Card>, number: i8, color: Color) -> bool {
    hand.contains(Card::Numbered { number, color })
}

/// The hand holds a numbered tile of this colour.
pub open spec fn has_color(hand: Seq<Card>, color: Color) -> bool {
    exists|i: int| 0 <= i < hand.len() && (#[trigger] hand[i]).color_of() == Some(color)
}

/// The hand holds a numbered tile of this number.
pub open spec fn has_number(hand: Seq<Card>, number: i8) -> bool {
    exists|i: int| 0 <= i < hand.len() && (#[trigger] hand[i]).number_of() == Some(number)
}

/// Whether every numbered tile of the hand carries a number of the game.
pub fn is_well_formed_hand(cards: &[Card]) -> (ok: bool)
    ensures
        ok == hand_wf(cards@),
{
    let mut i: usize = 0;
    while i < cards.len()
        invariant
            i <= cards.len(),
            forall|j: int| 0 <= j < i ==> (#[trigger] cards@[j]).wf(),
        decreases cards.len() - i,
    {
        if !cards[i].is_well_formed() {
            assert(!cards@[i as int].wf());
            return false;
        }
        i += 1;
    }
    true
}

/// The wildcards of the hand, in the order in which the hand holds them.
pub fn get_wildcards(cards: &[Card]) -> (wildcards: Vec<&Card>)
    ensures
        wildcards.deep_view() == cards@.filter(|c: Card| c is Wildcard),
        wildcards.len() == count_wildcards(cards@),
{
    let mut wildcards: Vec<&Card> = Vec::new();
    let mut i: usize = 0;
    assert(cards@.take(0) =~= Seq::empty());
    proof {
        reveal(Seq::filter);
    }
    while i < cards.len()
        invariant
            i <= cards.len(),
            wildcards.deep_view() =~= cards@.take(i as int).filter(|c: Card| c is Wildcard),
        decreases cards.len() - i,
    {
        proof {
            cards@.take(i as int).lemma_filter_push(cards@[i as int], |c: Card| c is Wildcard);
            assert(cards@.take(i + 1) =~= cards@.take(i as int).push(cards@[i as int]));
        }
        if cards[i].is_wildcard() {
            wildcards.push(&cards[i]);
        }
        i += 1;
    }
    assert(cards@.take(i as int) =~= cards@);
    wildcards
}

/// The first tile of the hand that carries this number in this colour, if
/// the hand holds one.
pub fn find_tile<'a>(cards: &'a [Card], number: i8, color: Color) -> (found: Option<&'a Card>)
    ensures
        match found {
            Some(card) => *card == (Card::Numbered { number, color }) && cards@.contains(*card),
            None => !has_tile(cards@, number, color),
        },
{
    let mut i: usize = 0;
    while i < cards.len()
        invariant
            i <= cards.len(),
            forall|j: int| 0 <= j < i ==> cards@[j] != (Card::Numbered { number, color }),
        decreases cards.len() - i,
    {
        match &cards[i] {
            Card::Numbered { number: n, color: c } => {
                if *n == number && *c == color {
                    assert(cards@[i as int] == (Card::Numbered { number, color }));
                    return Some(&cards[i]);
                }
            },
            Card::Wildcard => {},
        }
        i += 1;
    }
    None
}

/// Whether the hand holds a numbered tile of this colour.
pub fn holds_color(cards: &[Card], color: Color) -> (held: bool)
    ensures
        held == has_color(cards@, color),
{
    let mut i: usize = 0;
    while i < cards.len()
        invariant
            i <= cards.len(),
            forall|j: int| 0 <= j < i ==> (#[trigger] cards@[j]).color_of() != Some(color),
        decreases cards.len() - i,
    {
        match &cards[i] {
            Card::Numbered { number: _, color: c } => {
                if *c == color {
                    assert(cards@[i as int].color_of() == Some(color));
                    return true;
                }
            },
            Card::Wildcard => {},
        }
        i += 1;
    }
    false
}

/// Whether `present` tiles and `spare` wildcards together make the three
/// tiles of the shortest set.
pub fn reaches_three(present: usize, spare: usize) -> (enough: bool)
    ensures
        enough == (present + spare >= 3),
{
    present >= 3 || spare >= 3 - present
}

/// Sets that hold the same tiles hold each other's tiles.
pub(crate) proof fn lemma_same_tiles_within(a: Seq<Card>, b: Seq<Card>, k: int) -> (m: int)
    requires
        same_tiles(a, b),
        0 <= k < b.len(),
    ensures
        0 <= m < a.len(),
        a[m] == b[k],
{
    assert(b.contains(b[k]));
    vstd::seq_lib::to_multiset_contains(a, b[k]);
    vstd::seq_lib::to_multiset_contains(b, b[k]);
    choose|m: int| 0 <= m < a.len() && a[m] == b[k]
}

/// Tiles hold a wildcard exactly when their count of wildcards is not zero.
pub(crate) proof fn lemma_has_wildcard(tiles: Seq<Card>)
    ensures
        count_wildcards(tiles) >= 1 <==> exists|i: int|
            0 <= i < tiles.len() && #[trigger] tiles[i] is Wildcard,
{
    let wild = |c: Card| c is Wildcard;
    if count_wildcards(tiles) >= 1 {
        let first = tiles.filter(wild)[0];
        tiles.lemma_filter_pred(wild, 0);
        assert(tiles.filter(wild).contains(first));
        tiles.lemma_filter_contains_rev(wild, first);
        let i = choose|i: int| 0 <= i < tiles.len() && tiles[i] == first;
        assert(tiles[i] is Wildcard);
    }
    if exists|i: int| 0 <= i < tiles.len() && #[trigger] tiles[i] is Wildcard {
        let i = choose|i: int| 0 <= i < tiles.len() && #[trigger] tiles[i] is Wildcard;
        tiles.lemma_filter_contains(wild, i);
    }
}

/// Taking the last tile away lowers the count of wildcards by one if that
/// tile is a wildcard, and leaves it otherwise.
pub(crate) proof fn lemma_count_without_last(tiles: Seq<Card>)
    requires
        tiles.len() > 0,
    ensures
        count_wildcards(tiles) == count_wildcards(tiles.drop_last()) + if tiles.last() is Wildcard {
            1int
        } else {
            0int
        },
{
    assert(tiles =~= tiles.drop_last().push(tiles.last()));
    tiles.drop_last().lemma_filter_len_push(|c: Card| c is Wildcard, tiles.last());
}

/// Tiles that are all wildcards count as many wildcards as they are.
pub(crate) proof fn lemma_count_all_wild(tiles: Seq<Card>)
    requires
        forall|i: int| 0 <= i < tiles.len() ==> #[trigger] tiles[i] is Wildcard,
    ensures
        count_wildcards(tiles) == tiles.len(),
    decreases tiles.len(),
{
    if tiles.len() > 0 {
        let init = tiles.drop_last();
        assert forall|i: int| 0 <= i < init.len() implies #[trigger] init[i] is Wildcard by {
            assert(init[i] == tiles[i]);
        }
        lemma_count_all_wild(init);
        lemma_count_without_last(tiles);
    } else {
        assert(tiles.filter(|c: Card| c is Wildcard).len() == 0) by {
            reveal(Seq::filter);
        }
    }
}

} // verus!
