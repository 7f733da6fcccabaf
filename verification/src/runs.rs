//! The run finder: windows of consecutive numbers in one colour, with
//! wildcards standing in for the numbers that the hand lacks.

use crate::hand::{
    count_wildcards, find_tile, get_wildcards, has_color, has_tile, holds_color, lemma_has_wildcard,
    lemma_same_tiles_within, reaches_three, same_tiles,
};
use crate::order::lemma_ordered_same_elements;
use crate::tile::{Card, Color, MAX_NUMBER, MIN_NUMBER};
use crate::windows::{
    count_filled, create_run_windows, fill_window, is_window_scan_by, lemma_filled_in_window,
    lemma_missing_grows, lemma_missing_step, missing_in, window_fits,
};
use vstd::prelude::*;

verus! {

/// A window of consecutive numbers in one colour: the `len` numbers that begin
/// at `first`.
pub struct Window {
    pub color: Color,
    pub first: int,
    pub len: int,
}

/// The slots of a colour, one for each number from `MIN_NUMBER` to
/// `MAX_NUMBER` in turn: a slot holds the tile of its number in that colour if
/// the hand holds such a tile, and is empty otherwise.
pub open spec fn color_slots(hand: Seq<Card>, color: Color) -> Seq<Option<Card>> {
    Seq::new(
        (MAX_NUMBER - MIN_NUMBER + 1) as nat,
        |k: int|
            if has_tile(hand, (MIN_NUMBER + k) as i8, color) {
                Some(Card::Numbered { number: (MIN_NUMBER + k) as i8, color })
            } else {
                None
            },
    )
}

/// The number of tiles that the hand lacks for the window.
pub open spec fn gaps(hand: Seq<Card>, window: Window) -> nat {
    missing_in(color_slots(hand, window.color), window.first - MIN_NUMBER, window.len)
}

/// The hand can form the run of the window: the hand holds a tile of the
/// colour, the window has at least three numbers, all of them numbers of the
/// game, and the hand has a wildcard for each number of the window that it
/// lacks.
pub open spec fn realizable(hand: Seq<Card>, window: Window) -> bool {
    &&& has_color(hand, window.color)
    &&& 3 <= window.len
    &&& MIN_NUMBER <= window.first
    &&& window.first + window.len - 1 <= MAX_NUMBER
    &&& gaps(hand, window) <= count_wildcards(hand)
}

/// The run of the window: in increasing order of number, the tile of each
/// number that the hand holds in the colour, and a wildcard for each number
/// that it lacks.
pub open spec fn run_of(hand: Seq<Card>, window: Window) -> Seq<Card> {
    Seq::new(
        window.len as nat,
        |k: int|
            if has_tile(hand, (window.first + k) as i8, window.color) {
                Card::Numbered { number: (window.first + k) as i8, color: window.color }
            } else {
                Card::Wildcard
            },
    )
}

/// The order in which the run finder visits windows: by colour, then the
/// longer window first, then the lower first number.
pub open spec fn visited_before(a: Window, b: Window) -> bool {
    ||| a.color.index() < b.color.index()
    ||| a.color == b.color && a.len > b.len
    ||| a.color == b.color && a.len == b.len && a.first < b.first
}

/// `sets` is the outcome of the run search on the hand, and `windows` lists
/// the window of each set: the windows are those that the hand can realize,
/// each once and in the order of the search, and each set is the run of its
/// window.
pub open spec fn is_run_search_by(
    hand: Seq<Card>,
    sets: Seq<Seq<Card>>,
    windows: Seq<Window>,
) -> bool {
    &&& forall|i: int, j: int|
        0 <= i < j < windows.len() ==> visited_before(#[trigger] windows[i], #[trigger] windows[j])
    &&& forall|w: Window| #[trigger] windows.contains(w) <==> realizable(hand, w)
    &&& sets.len() == windows.len()
    &&& forall|i: int| 0 <= i < sets.len() ==> #[trigger] sets[i] == run_of(hand, windows[i])
}

/// `sets` is the outcome of the run search on the hand: one run for each
/// window that the hand can realize.
pub open spec fn is_run_search(hand: Seq<Card>, sets: Seq<Seq<Card>>) -> bool {
    exists|windows: Seq<Window>| is_run_search_by(hand, sets, windows)
}

/// The rule of the game for a run, with its colour and first number given:
/// at least three tiles; the tile at each place is a wildcard or the tile of
/// the colour whose number is the first number plus the place; and all these
/// numbers are numbers of the game.
pub open spec fn is_run_from(set: Seq<Card>, color: Color, first: int) -> bool {
    &&& 3 <= set.len()
    &&& MIN_NUMBER <= first
    &&& first + set.len() - 1 <= MAX_NUMBER
    &&& forall|k: int|
        0 <= k < set.len() ==> #[trigger] set[k] is Wildcard || set[k] == (Card::Numbered {
            number: (first + k) as i8,
            color,
        })
}

/// The rule of the game for a run: tiles of one colour whose numbers go up by
/// one from tile to tile, at least three of them, where a wildcard may stand
/// for any of the tiles.
pub open spec fn is_run(set: Seq<Card>) -> bool {
    exists|color: Color, first: int| is_run_from(set, color, first)
}

/// `sets` is the run search as far as it has come when the first `colors`
/// colours are searched.
pub open spec fn is_search_up_to(
    hand: Seq<Card>,
    sets: Seq<Seq<Card>>,
    windows: Seq<Window>,
    colors: int,
) -> bool {
    &&& forall|i: int, j: int|
        0 <= i < j < windows.len() ==> visited_before(#[trigger] windows[i], #[trigger] windows[j])
    &&& forall|w: Window| #[trigger]
        windows.contains(w) <==> realizable(hand, w) && w.color.index() < colors
    &&& sets.len() == windows.len()
    &&& forall|i: int| 0 <= i < sets.len() ==> #[trigger] sets[i] == run_of(hand, windows[i])
}

/// The windows of a colour that stand for the windows of a scan of its slots.
pub open spec fn windows_of(color: Color, scanned: Seq<(int, int)>) -> Seq<Window> {
    Seq::new(
        scanned.len(),
        |i: int| Window { color, first: scanned[i].0 + MIN_NUMBER, len: scanned[i].1 },
    )
}

/// With only wildcards to spare, the tiles of a window of the slots of a
/// colour are the run of that window.
proof fn lemma_fill_is_run(hand: Seq<Card>, color: Color, spare: Seq<Card>, start: int, len: int)
    requires
        forall|i: int| 0 <= i < spare.len() ==> #[trigger] spare[i] is Wildcard,
        window_fits(color_slots(hand, color), spare.len(), start, len),
    ensures
        fill_window(color_slots(hand, color), spare, start, len) == run_of(
            hand,
            Window { color, first: start + MIN_NUMBER, len },
        ),
{
    let slots = color_slots(hand, color);
    let filled = fill_window(slots, spare, start, len);
    let run = run_of(hand, Window { color, first: start + MIN_NUMBER, len });
    assert forall|k: int| 0 <= k < len implies filled[k] == run[k] by {
        lemma_missing_step(slots, start, k);
        lemma_missing_grows(slots, start, k + 1, len);
    }
    assert(filled =~= run);
}

/// The search goes on past a colour in which the hand can realize no window.
proof fn lemma_color_skipped(
    hand: Seq<Card>,
    sets: Seq<Seq<Card>>,
    windows: Seq<Window>,
    color: Color,
)
    requires
        is_search_up_to(hand, sets, windows, color.index()),
        !has_color(hand, color) || count_filled(color_slots(hand, color)) + count_wildcards(hand)
            < 3,
    ensures
        is_search_up_to(hand, sets, windows, color.index() + 1),
{
    let slots = color_slots(hand, color);
    assert forall|w: Window| w.color == color implies !realizable(hand, w) by {
        if 3 <= w.len && MIN_NUMBER <= w.first && w.first + w.len - 1 <= MAX_NUMBER {
            lemma_filled_in_window(slots, w.first - MIN_NUMBER, w.len);
        }
    }
}

/// The search goes on past a colour of the hand with the runs of the scan of
/// the slots of the colour.
proof fn lemma_color_scanned(
    hand: Seq<Card>,
    sets: Seq<Seq<Card>>,
    windows: Seq<Window>,
    color: Color,
    spare: Seq<Card>,
    runs: Seq<Seq<Card>>,
    scanned: Seq<(int, int)>,
)
    requires
        is_search_up_to(hand, sets, windows, color.index()),
        has_color(hand, color),
        spare.len() == count_wildcards(hand),
        forall|i: int| 0 <= i < spare.len() ==> #[trigger] spare[i] is Wildcard,
        is_window_scan_by(color_slots(hand, color), spare, runs, scanned),
    ensures
        is_search_up_to(hand, sets + runs, windows + windows_of(color, scanned), color.index() + 1),
{
    let slots = color_slots(hand, color);
    let found = windows_of(color, scanned);
    let all = windows + found;
    let emitted = sets + runs;
    assert forall|i: int| 0 <= i < emitted.len() implies #[trigger] emitted[i] == run_of(
        hand,
        all[i],
    ) by {
        if i < sets.len() {
            assert(emitted[i] == sets[i]);
        } else {
            let k = i - sets.len();
            assert(emitted[i] == runs[k]);
            assert(scanned.contains(scanned[k]));
            lemma_fill_is_run(hand, color, spare, scanned[k].0, scanned[k].1);
        }
    }
    assert forall|i: int, j: int| 0 <= i < j < all.len() implies visited_before(
        #[trigger] all[i],
        #[trigger] all[j],
    ) by {
        if i < windows.len() {
            assert(windows.contains(windows[i]));
        }
    }
    assert forall|w: Window| #[trigger]
        all.contains(w) <==> realizable(hand, w) && w.color.index() < color.index() + 1 by {
        let pair = (w.first - MIN_NUMBER, w.len);
        if all.contains(w) {
            let i = choose|i: int| 0 <= i < all.len() && all[i] == w;
            if i < windows.len() {
                assert(windows.contains(w));
            } else {
                let k = i - windows.len();
                assert(scanned.contains(scanned[k]));
                assert(scanned[k] == pair);
            }
        }
        if realizable(hand, w) && w.color.index() < color.index() + 1 {
            if w.color.index() < color.index() {
                assert(windows.contains(w));
                let i = choose|i: int| 0 <= i < windows.len() && windows[i] == w;
                assert(all[i] == w);
            } else {
                assert(w.color == color);
                assert(scanned.contains(pair));
                let k = choose|k: int| 0 <= k < scanned.len() && scanned[k] == pair;
                assert(all[windows.len() + k] == w);
            }
        }
    }
}

/// Lays out the tiles of one colour by number: a slot for each number from
/// `MIN_NUMBER` to `MAX_NUMBER`, filled with the first tile of the hand that
/// carries the number in that colour. Returns the slots and how many are
/// filled.
fn number_slots<'a>(cards: &'a [Card], color: Color) -> (laid: (Vec<Option<&'a Card>>, usize))
    ensures
        laid.0.deep_view() == color_slots(cards@, color),
        laid.1 == count_filled(color_slots(cards@, color)),
{
    let ghost slots = color_slots(cards@, color);
    let mut all_nums_set: Vec<Option<&Card>> = Vec::with_capacity(13);
    let mut present: usize = 0;
    let mut num: i8 = MIN_NUMBER;
    proof {
        reveal(Seq::filter);
        assert(slots.take(0) =~= Seq::empty());
    }
    while num <= MAX_NUMBER
        invariant
            MIN_NUMBER <= num <= MAX_NUMBER + 1,
            slots == color_slots(cards@, color),
            all_nums_set.deep_view() =~= slots.take(num - MIN_NUMBER),
            present == count_filled(slots.take(num - MIN_NUMBER)),
            present <= num - MIN_NUMBER,
        decreases MAX_NUMBER + 1 - num,
    {
        let ghost before = all_nums_set.deep_view();
        let ghost k = num - MIN_NUMBER;
        let available_card = find_tile(cards, num, color);
        proof {
            assert(slots.take(k + 1) =~= slots.take(k).push(slots[k]));
            slots.take(k).lemma_filter_len_push(|slot: Option<Card>| slot is Some, slots[k]);
            assert(available_card.deep_view() == slots[k]);
        }
        if available_card.is_some() {
            present += 1;
        }
        all_nums_set.push(available_card);
        proof {
            let longer = all_nums_set.deep_view();
            assert(longer.len() == k + 1);
            assert forall|j: int| 0 <= j < k + 1 implies longer[j] == slots.take(k + 1)[j] by {
                if j < k {
                    assert(longer[j] == before[j]);
                }
            }
        }
        num += 1;
    }
    assert(slots.take(num - MIN_NUMBER) =~= slots);
    (all_nums_set, present)
}

/// Finds every run that the hand can form. Each colour of which the hand holds
/// a tile is searched in turn, in the order of the colours; in a colour every
/// window of at least three consecutive numbers of the game yields a run if
/// the hand has a wildcard for each number of the window that it lacks.
pub fn find_runs(cards: &[Card]) -> (sets: Vec<Vec<&Card>>)
    ensures
        is_run_search(cards@, sets.deep_view()),
        forall|i: int| 0 <= i < sets.len() ==> is_run(#[trigger] sets.deep_view()[i]),
        forall|i: int|
            0 <= i < sets.len() ==> count_wildcards(#[trigger] sets.deep_view()[i])
                <= count_wildcards(cards@),
{
    let ghost hand = cards@;
    let wildcards = get_wildcards(cards);
    let ghost spare = wildcards.deep_view();
    let ghost mut windows: Seq<Window> = Seq::empty();
    let mut sets: Vec<Vec<&Card>> = Vec::new();
    let colors = [Color::Red, Color::Blue, Color::Black, Color::Yellow];
    let mut ci: usize = 0;
    proof {
        assert forall|i: int| 0 <= i < spare.len() implies #[trigger] spare[i] is Wildcard by {
            hand.lemma_filter_pred(|c: Card| c is Wildcard, i);
        }
    }
    while ci < 4
        invariant
            ci <= 4,
            hand == cards@,
            spare == wildcards.deep_view(),
            spare.len() == count_wildcards(hand),
            forall|i: int| 0 <= i < spare.len() ==> #[trigger] spare[i] is Wildcard,
            colors@ == seq![Color::Red, Color::Blue, Color::Black, Color::Yellow],
            is_search_up_to(hand, sets.deep_view(), windows, ci as int),
        decreases 4 - ci,
    {
        let ghost found = sets.deep_view();
        // Group cards (excluding wildcards) by their color
        let color = colors[ci];
        assert(color.index() == ci);
        let (all_nums_set, present) = number_slots(cards, color);
        // Take only groups with 3 cards or more (even with the help of wildcards)
        if holds_color(cards, color) && reaches_three(present, wildcards.len()) {
            let mut run_windows = create_run_windows(&all_nums_set, &wildcards);
            let ghost runs = run_windows.deep_view();
            let ghost scanned = choose|scanned: Seq<(int, int)>|
                is_window_scan_by(color_slots(hand, color), spare, runs, scanned);
            sets.append(&mut run_windows);
            proof {
                lemma_color_scanned(hand, found, windows, color, spare, runs, scanned);
                windows = windows + windows_of(color, scanned);
                assert(sets.deep_view() =~= found + runs);
            }
        } else {
            proof {
                lemma_color_skipped(hand, found, windows, color);
            }
        }
        ci += 1;
    }
    proof {
        let found = sets.deep_view();
        assert(is_run_search_by(hand, found, windows));
        assert forall|i: int| 0 <= i < found.len() implies is_run(#[trigger] found[i])
            && count_wildcards(found[i]) <= count_wildcards(hand) by {
            lemma_emitted_run_is_valid(hand, found, i);
        }
    }
    sets
}

/// The run of a window has a wildcard for each number that the hand lacks,
/// and no other.
pub(crate) proof fn lemma_run_wildcards(hand: Seq<Card>, window: Window)
    requires
        MIN_NUMBER <= window.first,
        0 <= window.len,
        window.first + window.len - 1 <= MAX_NUMBER,
    ensures
        count_wildcards(run_of(hand, window)) == gaps(hand, window),
    decreases window.len,
{
    let slots = color_slots(hand, window.color);
    let start = window.first - MIN_NUMBER;
    let run = run_of(hand, window);
    reveal(Seq::filter);
    if window.len > 0 {
        let shorter = Window { color: window.color, first: window.first, len: window.len - 1 };
        lemma_run_wildcards(hand, shorter);
        lemma_missing_step(slots, start, window.len - 1);
        assert(run.drop_last() =~= run_of(hand, shorter));
        assert(run =~= run.drop_last().push(run.last()));
        run.drop_last().lemma_filter_len_push(|c: Card| c is Wildcard, run.last());
    } else {
        assert(slots.subrange(start, start) =~= Seq::empty());
        assert(run =~= Seq::empty());
    }
}

/// Every run that the search emits obeys the rule of the game, has at most
/// one tile for each number of the game, is made of tiles of the hand, and
/// uses no more wildcards than the hand has.
pub proof fn lemma_emitted_run_is_valid(hand: Seq<Card>, sets: Seq<Seq<Card>>, i: int)
    requires
        is_run_search(hand, sets),
        0 <= i < sets.len(),
    ensures
        is_run(sets[i]),
        sets[i].len() <= MAX_NUMBER - MIN_NUMBER + 1,
        count_wildcards(sets[i]) <= count_wildcards(hand),
        forall|k: int| 0 <= k < sets[i].len() ==> hand.contains(#[trigger] sets[i][k]),
{
    let windows = choose|windows: Seq<Window>| is_run_search_by(hand, sets, windows);
    let window = windows[i];
    let set = sets[i];
    assert(windows.contains(window));
    assert(set == run_of(hand, window));
    lemma_run_wildcards(hand, window);
    assert(is_run_from(set, window.color, window.first));
    lemma_has_wildcard(set);
    lemma_has_wildcard(hand);
    assert forall|k: int| 0 <= k < set.len() implies hand.contains(#[trigger] set[k]) by {
        if set[k] is Wildcard {
            let w = choose|w: int| 0 <= w < hand.len() && #[trigger] hand[w] is Wildcard;
            assert(hand[w] == set[k]);
        }
    }
}

/// A run without wildcards is emitted once: no other run that the search
/// emits holds the same tiles, in whatever order the tiles are taken.
///
/// Of runs with wildcards this does not hold: a wildcard may stand at either
/// end of a run.
pub proof fn lemma_plain_run_is_emitted_once(hand: Seq<Card>, sets: Seq<Seq<Card>>, i: int, j: int)
    requires
        is_run_search(hand, sets),
        0 <= i < sets.len(),
        0 <= j < sets.len(),
        i != j,
        count_wildcards(sets[i]) == 0,
    ensures
        !same_tiles(sets[i], sets[j]),
{
    let windows = choose|windows: Seq<Window>| is_run_search_by(hand, sets, windows);
    let a = sets[i];
    let b = sets[j];
    lemma_has_wildcard(a);
    if same_tiles(a, b) {
        // Runs without wildcards that hold the same tiles are runs of the
        // same window, and the search visits a window once.
        vstd::seq_lib::to_multiset_len(a);
        vstd::seq_lib::to_multiset_len(b);
        assert(windows.contains(windows[i]) && windows.contains(windows[j]));
        let m = lemma_same_tiles_within(a, b, 0);
        let n = lemma_same_tiles_within(b, a, 0);
        assert(a[m] is Numbered && a[0] is Numbered);
        assert(windows[i] == windows[j]);
        if i < j {
            assert(visited_before(windows[i], windows[j]));
        } else {
            assert(visited_before(windows[j], windows[i]));
        }
    }
}

/// The outcome of the run search is a function of the tiles of the hand: two
/// outcomes for the same hand hold the same runs in the same order.
pub proof fn lemma_run_search_is_unique(
    hand: Seq<Card>,
    once: Seq<Seq<Card>>,
    again: Seq<Seq<Card>>,
)
    requires
        is_run_search(hand, once),
        is_run_search(hand, again),
    ensures
        once == again,
{
    let first = choose|windows: Seq<Window>| is_run_search_by(hand, once, windows);
    let second = choose|windows: Seq<Window>| is_run_search_by(hand, again, windows);
    let before = |a: Window, b: Window| visited_before(a, b);
    lemma_ordered_same_elements(first, second, before);
    assert(once =~= again);
}

} // verus!
