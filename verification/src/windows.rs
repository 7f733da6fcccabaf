//! Windows over a row of slots: every stretch of at least three slots that
//! spare tiles can complete.

use crate::tile::Card;
use vstd::prelude::*;

verus! {

/// The number of empty slots.
pub open spec fn count_empty(slots: Seq<Option<Card>>) -> nat {
    slots.filter(|slot: Option<Card>| slot is None).len()
}

/// The number of filled slots.
pub open spec fn count_filled(slots: Seq<Option<Card>>) -> nat {
    slots.filter(|slot: Option<Card>| slot is Some).len()
}

/// The number of empty slots among the `len` slots that begin at `start`.
pub open spec fn missing_in(slots: Seq<Option<Card>>, start: int, len: int) -> nat {
    count_empty(slots.subrange(start, start + len))
}

/// The window of `len` slots that begins at `start` can be completed: it has
/// the least length of a run, lies within the slots, and has no more empty
/// slots than there are spare tiles.
pub open spec fn window_fits(slots: Seq<Option<Card>>, spares: nat, start: int, len: int) -> bool {
    &&& 3 <= len
    &&& 0 <= start
    &&& start + len <= slots.len()
    &&& missing_in(slots, start, len) <= spares
}

/// The tiles of the window of `len` slots that begins at `start`: the tile of
/// each filled slot, and for each empty slot a spare tile. The spare tiles are
/// taken from the end of `spare` backwards, one for each empty slot in turn.
pub open spec fn fill_window(
    slots: Seq<Option<Card>>,
    spare: Seq<Card>,
    start: int,
    len: int,
) -> Seq<Card> {
    Seq::new(
        len as nat,
        |k: int|
            match slots[start + k] {
                Some(card) => card,
                None => spare[spare.len() - 1 - missing_in(slots, start, k)],
            },
    )
}

/// The order in which windows over the same slots are scanned: a window is
/// given as its start and its length; longer windows come first, and among
/// windows of one length the one that starts lower.
pub open spec fn scanned_before(a: (int, int), b: (int, int)) -> bool {
    a.1 > b.1 || (a.1 == b.1 && a.0 < b.0)
}

/// `runs` is the scan of the slots with the spare tiles, and `windows` lists
/// the start and the length of the window of each run.
pub open spec fn is_window_scan_by(
    slots: Seq<Option<Card>>,
    spare: Seq<Card>,
    runs: Seq<Seq<Card>>,
    windows: Seq<(int, int)>,
) -> bool {
    &&& forall|i: int, j: int|
        0 <= i < j < windows.len() ==> scanned_before(#[trigger] windows[i], #[trigger] windows[j])
    &&& forall|w: (int, int)| #[trigger]
        windows.contains(w) <==> window_fits(slots, spare.len(), w.0, w.1)
    &&& runs.len() == windows.len()
    &&& forall|i: int|
        0 <= i < runs.len() ==> #[trigger] runs[i] == fill_window(
            slots,
            spare,
            windows[i].0,
            windows[i].1,
        )
}

/// `runs` is the scan of the slots with the spare tiles: there is one run for
/// each window that can be completed, the runs stand in the order of the scan,
/// and each run holds the tiles of its window.
pub open spec fn is_window_scan(
    slots: Seq<Option<Card>>,
    spare: Seq<Card>,
    runs: Seq<Seq<Card>>,
) -> bool {
    exists|windows: Seq<(int, int)>| is_window_scan_by(slots, spare, runs, windows)
}

/// The scan has come past the window when it stands at the window of
/// `length` slots that begins at `start`.
pub open spec fn passed(w: (int, int), start: int, length: int) -> bool {
    scanned_before(w, (start, length))
}

/// `runs` is the scan of the slots as far as it has come when it stands at
/// the window of `length` slots that begins at `start`.
pub open spec fn is_scan_up_to(
    slots: Seq<Option<Card>>,
    spare: Seq<Card>,
    runs: Seq<Seq<Card>>,
    windows: Seq<(int, int)>,
    start: int,
    length: int,
) -> bool {
    &&& forall|i: int, j: int|
        0 <= i < j < windows.len() ==> scanned_before(#[trigger] windows[i], #[trigger] windows[j])
    &&& forall|w: (int, int)| #[trigger]
        windows.contains(w) <==> window_fits(slots, spare.len(), w.0, w.1) && passed(
            w,
            start,
            length,
        )
    &&& runs.len() == windows.len()
    &&& forall|i: int|
        0 <= i < runs.len() ==> #[trigger] runs[i] == fill_window(
            slots,
            spare,
            windows[i].0,
            windows[i].1,
        )
}

/// The scan goes on past a window that cannot be completed.
proof fn lemma_scan_skips(
    slots: Seq<Option<Card>>,
    spare: Seq<Card>,
    runs: Seq<Seq<Card>>,
    windows: Seq<(int, int)>,
    start: int,
    length: int,
)
    requires
        is_scan_up_to(slots, spare, runs, windows, start, length),
        !window_fits(slots, spare.len(), start, length),
    ensures
        is_scan_up_to(slots, spare, runs, windows, start + 1, length),
{
}

/// The scan goes on past a window that can be completed, with the run of
/// that window.
proof fn lemma_scan_finds(
    slots: Seq<Option<Card>>,
    spare: Seq<Card>,
    runs: Seq<Seq<Card>>,
    windows: Seq<(int, int)>,
    start: int,
    length: int,
)
    requires
        is_scan_up_to(slots, spare, runs, windows, start, length),
        window_fits(slots, spare.len(), start, length),
    ensures
        is_scan_up_to(
            slots,
            spare,
            runs.push(fill_window(slots, spare, start, length)),
            windows.push((start, length)),
            start + 1,
            length,
        ),
{
    let window = (start, length);
    let longer = windows.push(window);
    let found = runs.push(fill_window(slots, spare, start, length));
    assert forall|i: int, j: int| 0 <= i < j < longer.len() implies scanned_before(
        #[trigger] longer[i],
        #[trigger] longer[j],
    ) by {
        if j == windows.len() {
            assert(windows.contains(windows[i]));
        }
    }
    assert forall|w: (int, int)| #[trigger]
        longer.contains(w) <==> window_fits(slots, spare.len(), w.0, w.1) && passed(
            w,
            start + 1,
            length,
        ) by {
        if longer.contains(w) {
            let i = choose|i: int| 0 <= i < longer.len() && longer[i] == w;
            if i < windows.len() {
                assert(windows.contains(w));
            }
        }
        if window_fits(slots, spare.len(), w.0, w.1) && passed(w, start + 1, length) {
            if w == window {
                assert(longer[windows.len() as int] == w);
            } else {
                assert(windows.contains(w));
                let i = choose|i: int| 0 <= i < windows.len() && windows[i] == w;
                assert(longer[i] == w);
            }
        }
    }
    assert forall|i: int| 0 <= i < found.len() implies #[trigger] found[i] == fill_window(
        slots,
        spare,
        longer[i].0,
        longer[i].1,
    ) by {
        if i < runs.len() {
            assert(found[i] == runs[i]);
        }
    }
}

/// Where a slot is added to a window, the count of empty slots goes up by
/// one if the slot is empty.
pub(crate) proof fn lemma_missing_step(slots: Seq<Option<Card>>, start: int, k: int)
    requires
        0 <= start,
        0 <= k,
        start + k < slots.len(),
    ensures
        missing_in(slots, start, k + 1) == missing_in(slots, start, k) + if slots[start
            + k] is None {
            1int
        } else {
            0int
        },
{
    let before = slots.subrange(start, start + k);
    assert(slots.subrange(start, start + k + 1) =~= before.push(slots[start + k]));
    before.lemma_filter_len_push(|slot: Option<Card>| slot is None, slots[start + k]);
}

/// The beginning of a window has no more empty slots than the window, and no
/// more than it has slots.
pub(crate) proof fn lemma_missing_grows(slots: Seq<Option<Card>>, start: int, k: int, len: int)
    requires
        0 <= start,
        0 <= k <= len,
        start + len <= slots.len(),
    ensures
        missing_in(slots, start, k) <= missing_in(slots, start, len),
        missing_in(slots, start, k) <= k,
{
    let window = slots.subrange(start, start + len);
    assert(window.take(k) =~= slots.subrange(start, start + k));
    window.lemma_filter_take_len(|slot: Option<Card>| slot is None, k);
    slots.subrange(start, start + k).lemma_filter_len(|slot: Option<Card>| slot is None);
}

/// Each slot is filled or empty.
pub(crate) proof fn lemma_filled_and_empty(slots: Seq<Option<Card>>)
    ensures
        count_filled(slots) + count_empty(slots) == slots.len(),
    decreases slots.len(),
{
    reveal(Seq::filter);
    if slots.len() > 0 {
        let init = slots.drop_last();
        lemma_filled_and_empty(init);
        assert(slots =~= init.push(slots.last()));
        init.lemma_filter_len_push(|slot: Option<Card>| slot is Some, slots.last());
        init.lemma_filter_len_push(|slot: Option<Card>| slot is None, slots.last());
    }
}

/// A window has no more filled slots than all the slots.
pub(crate) proof fn lemma_filled_in_window(slots: Seq<Option<Card>>, start: int, len: int)
    requires
        0 <= start,
        0 <= len,
        start + len <= slots.len(),
    ensures
        len - missing_in(slots, start, len) <= count_filled(slots),
{
    let filled = |slot: Option<Card>| slot is Some;
    let a = slots.subrange(0, start);
    let b = slots.subrange(start, start + len);
    let c = slots.subrange(start + len, slots.len() as int);
    assert(slots =~= (a + b) + c);
    Seq::filter_distributes_over_add(a + b, c, filled);
    Seq::filter_distributes_over_add(a, b, filled);
    lemma_filled_and_empty(b);
}

/// Counts the empty slots among the `len` slots that begin at `start`.
fn count_missing(set: &[Option<&Card>], start: usize, len: usize) -> (missing: usize)
    requires
        start + len <= set.len(),
    ensures
        missing == missing_in(set.deep_view(), start as int, len as int),
{
    let ghost slots = set.deep_view();
    let mut missing: usize = 0;
    let mut k: usize = 0;
    proof {
        reveal(Seq::filter);
        assert(slots.subrange(start as int, start as int) =~= Seq::empty());
    }
    while k < len
        invariant
            k <= len,
            start + len <= set.len(),
            slots == set.deep_view(),
            missing == missing_in(slots, start as int, k as int),
            missing <= k,
        decreases len - k,
    {
        proof {
            lemma_missing_step(slots, start as int, k as int);
        }
        if set[start + k].is_none() {
            missing += 1;
        }
        k += 1;
    }
    missing
}

/// Builds the run of the window of `len` slots that begins at `start`.
fn fill_run<'a>(
    set: &[Option<&'a Card>],
    wildcards: &[&'a Card],
    start: usize,
    len: usize,
) -> (run: Vec<&'a Card>)
    requires
        start + len <= set.len(),
        missing_in(set.deep_view(), start as int, len as int) <= wildcards.len(),
    ensures
        run.deep_view() == fill_window(
            set.deep_view(),
            wildcards.deep_view(),
            start as int,
            len as int,
        ),
{
    let ghost slots = set.deep_view();
    let ghost spare = wildcards.deep_view();
    let mut run: Vec<&Card> = Vec::new();
    let mut used: usize = 0;
    let mut k: usize = 0;
    proof {
        reveal(Seq::filter);
        assert(slots.subrange(start as int, start as int) =~= Seq::empty());
    }
    while k < len
        invariant
            k <= len,
            start + len <= set.len(),
            slots == set.deep_view(),
            spare == wildcards.deep_view(),
            missing_in(slots, start as int, len as int) <= wildcards.len(),
            used == missing_in(slots, start as int, k as int),
            run.deep_view() =~= fill_window(slots, spare, start as int, k as int),
        decreases len - k,
    {
        proof {
            lemma_missing_step(slots, start as int, k as int);
            lemma_missing_grows(slots, start as int, k + 1, len as int);
        }
        let ghost before = run.deep_view();
        match set[start + k] {
            Some(card) => {
                run.push(card);
            },
            None => {
                used += 1;
                run.push(wildcards[wildcards.len() - used]);
            },
        }
        proof {
            let filled = fill_window(slots, spare, start as int, k + 1);
            assert(slots[start + k] == set@[start + k].deep_view());
            assert(run.deep_view().len() == before.len() + 1);
            assert forall|j: int| 0 <= j < k + 1 implies run.deep_view()[j] == filled[j] by {
                if j < k {
                    assert(run.deep_view()[j] == before[j]);
                }
            }
        }
        k += 1;
    }
    run
}

/// Scans the slots for runs. Every window of at least three slots is tried,
/// the longest first and, within one length, from the lowest start upwards. A
/// window yields a run when it has no more empty slots than there are
/// wildcards; the run holds the tile of each filled slot and a wildcard in the
/// place of each empty one.
pub fn create_run_windows<'a>(set: &[Option<&'a Card>], wildcards: &[&'a Card]) -> (found_windows:
    Vec<Vec<&'a Card>>)
    ensures
        is_window_scan(set.deep_view(), wildcards.deep_view(), found_windows.deep_view()),
{
    let ghost slots = set.deep_view();
    let ghost spare = wildcards.deep_view();
    let ghost mut windows: Seq<(int, int)> = Seq::empty();
    let mut found_windows: Vec<Vec<&Card>> = Vec::new();
    let n = set.len();
    let mut window_length = n;
    while window_length >= 3
        invariant
            window_length <= n,
            n == set.len(),
            slots == set.deep_view(),
            spare == wildcards.deep_view(),
            is_scan_up_to(
                slots,
                spare,
                found_windows.deep_view(),
                windows,
                0,
                window_length as int,
            ),
        decreases window_length,
    {
        let mut start_idx: usize = 0;
        while start_idx <= n - window_length
            invariant
                3 <= window_length <= n,
                start_idx <= n - window_length + 1,
                n == set.len(),
                slots == set.deep_view(),
                spare == wildcards.deep_view(),
                is_scan_up_to(
                    slots,
                    spare,
                    found_windows.deep_view(),
                    windows,
                    start_idx as int,
                    window_length as int,
                ),
            decreases n - window_length + 1 - start_idx,
        {
            let ghost found = found_windows.deep_view();
            let missing_cards = count_missing(set, start_idx, window_length);
            if missing_cards <= wildcards.len() {
                let run = fill_run(set, wildcards, start_idx, window_length);
                found_windows.push(run);
                proof {
                    lemma_scan_finds(
                        slots,
                        spare,
                        found,
                        windows,
                        start_idx as int,
                        window_length as int,
                    );
                    windows = windows.push((start_idx as int, window_length as int));
                    assert(found_windows.deep_view() =~= found.push(run.deep_view()));
                }
            } else {
                proof {
                    lemma_scan_skips(
                        slots,
                        spare,
                        found,
                        windows,
                        start_idx as int,
                        window_length as int,
                    );
                }
            }
            start_idx += 1;
        }
        window_length -= 1;
    }
    proof {
        assert(is_window_scan_by(slots, spare, found_windows.deep_view(), windows));
    }
    found_windows
}

} // verus!
