//! Tiles in ascending order: sorting a hand, and the numbered tiles of a
//! sorted hand.

use crate::tile::Card;
use vstd::prelude::*;

verus! {

/// The first tile does not come after the second in the order on tiles.
pub open spec fn not_after(first: Card, second: Card) -> bool {
    !second.comes_before(first)
}

/// The tiles stand in ascending order: no tile comes after a later one.
pub open spec fn ascending(tiles: Seq<Card>) -> bool {
    forall|i: int, j: int|
        0 <= i < j < tiles.len() ==> not_after(#[trigger] tiles[i], #[trigger] tiles[j])
}

/// The numbered tiles among the tiles, in their order.
pub open spec fn numbered_of(tiles: Seq<Card>) -> Seq<Card> {
    tiles.filter(|c: Card| c is Numbered)
}

/// A prefix of ascending tiles is ascending.
pub(crate) proof fn lemma_ascending_prefix(tiles: Seq<Card>, n: int)
    requires
        ascending(tiles),
        0 <= n <= tiles.len(),
    ensures
        ascending(tiles.take(n)),
{
    let head = tiles.take(n);
    assert forall|i: int, j: int| 0 <= i < j < head.len() implies
        not_after(#[trigger] head[i], #[trigger] head[j])
    by {
        assert(head[i] == tiles[i] && head[j] == tiles[j]);
    }
}

/// The numbered tiles of ascending tiles are ascending, and they are the
/// numbered tiles that the tiles hold.
pub(crate) proof fn lemma_numbered_of(tiles: Seq<Card>)
    ensures
        ascending(tiles) ==> ascending(numbered_of(tiles)),
        forall|c: Card| #[trigger]
            numbered_of(tiles).contains(c) <==> tiles.contains(c) && c is Numbered,
    decreases tiles.len(),
{
    reveal(Seq::filter);
    if tiles.len() > 0 {
        let init = tiles.drop_last();
        let last = tiles.last();
        let before = numbered_of(init);
        let kept = numbered_of(tiles);
        lemma_numbered_of(init);
        assert(tiles =~= init.push(last));
        init.lemma_filter_push(last, |c: Card| c is Numbered);
        assert forall|c: Card| #[trigger]
            kept.contains(c) <==> tiles.contains(c) && c is Numbered by {
            if kept.contains(c) {
                let i = choose|i: int| 0 <= i < kept.len() && kept[i] == c;
                if i < before.len() {
                    assert(before.contains(c));
                    let j = choose|j: int| 0 <= j < init.len() && init[j] == c;
                    assert(tiles[j] == c);
                } else {
                    assert(tiles[tiles.len() - 1] == c);
                }
            }
            if tiles.contains(c) && c is Numbered {
                let j = choose|j: int| 0 <= j < tiles.len() && tiles[j] == c;
                if j < init.len() {
                    assert(init[j] == c);
                    assert(before.contains(c));
                    let i = choose|i: int| 0 <= i < before.len() && before[i] == c;
                    assert(kept[i] == c);
                } else {
                    assert(kept[kept.len() - 1] == c);
                }
            }
        }
        if ascending(tiles) {
            assert(init =~= tiles.take(tiles.len() - 1));
            lemma_ascending_prefix(tiles, tiles.len() - 1);
            assert forall|i: int, j: int| 0 <= i < j < kept.len() implies not_after(
                #[trigger] kept[i],
                #[trigger] kept[j],
            ) by {
                if j == before.len() {
                    assert(before.contains(kept[i]));
                    let m = choose|m: int| 0 <= m < init.len() && init[m] == kept[i];
                    assert(tiles[m] == kept[i]);
                } else {
                    assert(before[i] == kept[i] && before[j] == kept[j]);
                }
            }
        }
    }
}

/// The tiles of the hand in ascending order: numbered tiles by number and then
/// by colour, wildcards last. Tiles that compare equal keep the order in which
/// the hand holds them.
pub fn sorted_tiles(cards: &[Card]) -> (sorted: Vec<&Card>)
    ensures
        sorted.deep_view().to_multiset() == cards@.to_multiset(),
        ascending(sorted.deep_view()),
{
    let mut sorted: Vec<&Card> = Vec::new();
    let mut i: usize = 0;
    assert(cards@.take(0) =~= Seq::empty());
    assert(sorted.deep_view() =~= Seq::empty());
    while i < cards.len()
        invariant
            i <= cards.len(),
            sorted.len() == i,
            sorted.deep_view().to_multiset() == cards@.take(i as int).to_multiset(),
            ascending(sorted.deep_view()),
        decreases cards.len() - i,
    {
        let card = &cards[i];
        let ghost before = sorted.deep_view();
        let mut place: usize = sorted.len();
        while place > 0 && *sorted[place - 1] > *card
            invariant
                place <= sorted.len(),
                before == sorted.deep_view(),
                forall|j: int|
                    place <= j < before.len() ==> card.comes_before(#[trigger] before[j]),
            decreases place,
        {
            place -= 1;
        }
        sorted.insert(place, card);
        proof {
            let after = sorted.deep_view();
            assert(after =~= before.insert(place as int, *card));
            vstd::seq_lib::to_multiset_insert(before, place as int, *card);
            assert(cards@.take(i + 1) =~= cards@.take(i as int).push(*card));
            vstd::seq_lib::to_multiset_build(cards@.take(i as int), *card);
            assert forall|a: int, b: int| 0 <= a < b < after.len() implies
                not_after(#[trigger] after[a], #[trigger] after[b])
            by {
                let x = if a < place { a } else { a - 1 };
                let y = if b < place { b } else { b - 1 };
                if a != place && b != place {
                    assert(after[a] == before[x] && after[b] == before[y]);
                } else if a == place {
                    assert(after[b] == before[y]);
                } else {
                    assert(after[a] == before[x]);
                    if place > 0 {
                        assert(not_after(before[place - 1], *card));
                    }
                }
            }
        }
        i += 1;
    }
    assert(cards@.take(i as int) =~= cards@);
    sorted
}

/// The numbered tiles among the tiles, in their order.
pub fn numbered_tiles<'a>(tiles: &Vec<&'a Card>) -> (numbered: Vec<&'a Card>)
    ensures
        numbered.deep_view() == numbered_of(tiles.deep_view()),
{
    let ghost all = tiles.deep_view();
    let mut numbered: Vec<&Card> = Vec::new();
    let mut i: usize = 0;
    proof {
        reveal(Seq::filter);
        assert(all.take(0) =~= Seq::empty());
    }
    while i < tiles.len()
        invariant
            i <= tiles.len(),
            all == tiles.deep_view(),
            numbered.deep_view() =~= numbered_of(all.take(i as int)),
        decreases tiles.len() - i,
    {
        proof {
            assert(all.take(i + 1) =~= all.take(i as int).push(all[i as int]));
            all.take(i as int).lemma_filter_push(all[i as int], |c: Card| c is Numbered);
        }
        if !tiles[i].is_wildcard() {
            numbered.push(tiles[i]);
        }
        i += 1;
    }
    assert(all.take(i as int) =~= all);
    numbered
}

/// Two sequences that hold the same elements, each in the strict order of
/// `before`, are equal, if `before` never holds both ways.
pub(crate) proof fn lemma_ordered_same_elements<T>(
    a: Seq<T>,
    b: Seq<T>,
    before: spec_fn(T, T) -> bool,
)
    requires
        forall|i: int, j: int| 0 <= i < j < a.len() ==> before(#[trigger] a[i], #[trigger] a[j]),
        forall|i: int, j: int| 0 <= i < j < b.len() ==> before(#[trigger] b[i], #[trigger] b[j]),
        forall|x: T, y: T| !(#[trigger] before(x, y) && #[trigger] before(y, x)),
        forall|x: T| a.contains(x) <==> b.contains(x),
    ensures
        a == b,
    decreases a.len(),
{
    if a.len() == 0 {
        if b.len() > 0 {
            assert(b.contains(b[0]));
        }
        assert(a =~= b);
    } else if b.len() == 0 {
        assert(a.contains(a[0]));
    } else {
        let x = a.last();
        let y = b.last();
        assert(a.contains(x) && b.contains(y));
        let m = choose|m: int| 0 <= m < b.len() && b[m] == x;
        let n = choose|n: int| 0 <= n < a.len() && a[n] == y;
        assert(!(before(x, y) && before(y, x)));
        assert(!(before(x, x) && before(x, x)));
        if m < b.len() - 1 {
            assert(before(b[m], b[b.len() - 1]));
        }
        if n < a.len() - 1 {
            assert(before(a[n], a[a.len() - 1]));
        }
        assert(x == y);
        let init = a.drop_last();
        let rest = b.drop_last();
        assert forall|i: int, j: int| 0 <= i < j < init.len() implies
            before(#[trigger] init[i], #[trigger] init[j])
        by {
            assert(a[i] == init[i] && a[j] == init[j]);
        }
        assert forall|i: int, j: int| 0 <= i < j < rest.len() implies
            before(#[trigger] rest[i], #[trigger] rest[j])
        by {
            assert(b[i] == rest[i] && b[j] == rest[j]);
        }
        assert forall|z: T| init.contains(z) <==> rest.contains(z) by {
            assert(!(before(z, z) && before(z, z)));
            if init.contains(z) {
                let i = choose|i: int| 0 <= i < init.len() && init[i] == z;
                assert(a[i] == z);
                assert(before(a[i], a[a.len() - 1]));
                assert(b.contains(z));
                let j = choose|j: int| 0 <= j < b.len() && b[j] == z;
                assert(rest[j] == z);
            }
            if rest.contains(z) {
                let j = choose|j: int| 0 <= j < rest.len() && rest[j] == z;
                assert(b[j] == z);
                assert(before(b[j], b[b.len() - 1]));
                assert(a.contains(z));
                let i = choose|i: int| 0 <= i < a.len() && a[i] == z;
                assert(init[i] == z);
            }
        }
        lemma_ordered_same_elements(init, rest, before);
        assert(a =~= init.push(x));
        assert(b =~= rest.push(y));
    }
}

} // verus!
