//! Collections of sets that are kept in ascending order and hold each set
//! once.

use crate::order::lemma_ordered_same_elements;
use crate::tile::{lemma_rank_is_injective, Card};
use vstd::prelude::*;
use vstd::slice::slice_to_vec;

verus! {

/// `a` comes before `b` at place `k`: up to that place the two sets hold the
/// same tiles, and there `a` ends while `b` goes on, or `a` has the lower
/// tile.
pub open spec fn precedes_at(a: Seq<Card>, b: Seq<Card>, k: int) -> bool {
    &&& 0 <= k <= a.len()
    &&& k < b.len()
    &&& forall|i: int| 0 <= i < k ==> a[i] == b[i]
    &&& k < a.len() ==> a[k].comes_before(b[k])
}

/// `a` comes before `b` in the order on sets: the sets are compared tile by
/// tile in the order on tiles, and a set comes before every longer set that
/// begins with it.
pub open spec fn set_precedes(a: Seq<Card>, b: Seq<Card>) -> bool {
    exists|k: int| precedes_at(a, b, k)
}

/// The sets stand in strictly ascending order. No set then stands twice.
pub open spec fn sets_ascend(sets: Seq<Seq<Card>>) -> bool {
    forall|i: int, j: int|
        0 <= i < j < sets.len() ==> set_precedes(#[trigger] sets[i], #[trigger] sets[j])
}

/// No set comes before itself.
pub proof fn lemma_precedes_irreflexive(a: Seq<Card>)
    ensures
        !set_precedes(a, a),
{
}

/// The order on sets is transitive.
pub proof fn lemma_precedes_transitive(a: Seq<Card>, b: Seq<Card>, c: Seq<Card>)
    requires
        set_precedes(a, b),
        set_precedes(b, c),
    ensures
        set_precedes(a, c),
{
    let k = choose|k: int| precedes_at(a, b, k);
    let l = choose|l: int| precedes_at(b, c, l);
    let m = if k <= l {
        k
    } else {
        l
    };
    assert(precedes_at(a, c, m));
}

/// Of two sets, at most one comes before the other.
pub proof fn lemma_precedes_asymmetric(a: Seq<Card>, b: Seq<Card>)
    ensures
        !(set_precedes(a, b) && set_precedes(b, a)),
{
    if set_precedes(a, b) && set_precedes(b, a) {
        lemma_precedes_transitive(a, b, a);
        lemma_precedes_irreflexive(a);
    }
}

/// Sets in strictly ascending order are pairwise distinct.
pub proof fn lemma_ascending_sets_differ(sets: Seq<Seq<Card>>)
    requires
        sets_ascend(sets),
    ensures
        sets.no_duplicates(),
{
    assert forall|i: int, j: int| 0 <= i < sets.len() && 0 <= j < sets.len() && i != j implies
        sets[i] != sets[j]
    by {
        lemma_precedes_irreflexive(sets[i]);
        if i < j {
            assert(set_precedes(sets[i], sets[j]));
        } else {
            assert(set_precedes(sets[j], sets[i]));
        }
    }
}

/// Two collections in strictly ascending order that hold the same sets are
/// equal.
pub proof fn lemma_ascending_sets_equal(a: Seq<Seq<Card>>, b: Seq<Seq<Card>>)
    requires
        sets_ascend(a),
        sets_ascend(b),
        forall|set: Seq<Card>| a.contains(set) <==> b.contains(set),
    ensures
        a == b,
{
    let before = |x: Seq<Card>, y: Seq<Card>| set_precedes(x, y);
    assert forall|x: Seq<Card>, y: Seq<Card>|
        !(#[trigger] before(x, y) && #[trigger] before(y, x))
    by {
        lemma_precedes_asymmetric(x, y);
    }
    lemma_ordered_same_elements(a, b, before);
}

/// How a set stands to another in the order on sets.
#[derive(Debug, Clone, Copy, PartialEq, Eq, Structural)]
pub enum Placement {
    Before,
    Same,
    After,
}

/// Compares two sets in the order on sets.
pub fn compare_sets(a: &Vec<&Card>, b: &Vec<&Card>) -> (placement: Placement)
    ensures
        match placement {
            Placement::Before => set_precedes(a.deep_view(), b.deep_view()),
            Placement::Same => a.deep_view() == b.deep_view(),
            Placement::After => set_precedes(b.deep_view(), a.deep_view()),
        },
{
    let ghost x = a.deep_view();
    let ghost y = b.deep_view();
    let mut i: usize = 0;
    while i < a.len() && i < b.len()
        invariant
            i <= a.len(),
            i <= b.len(),
            x == a.deep_view(),
            y == b.deep_view(),
            forall|j: int| 0 <= j < i ==> x[j] == y[j],
        decreases a.len() - i,
    {
        if *a[i] < *b[i] {
            assert(precedes_at(x, y, i as int));
            return Placement::Before;
        }
        if *a[i] > *b[i] {
            assert(precedes_at(y, x, i as int));
            return Placement::After;
        }
        proof {
            lemma_rank_is_injective(x[i as int], y[i as int]);
        }
        i += 1;
    }
    if a.len() < b.len() {
        assert(precedes_at(x, y, i as int));
        Placement::Before
    } else if a.len() > b.len() {
        assert(precedes_at(y, x, i as int));
        Placement::After
    } else {
        assert(x =~= y);
        Placement::Same
    }
}

/// Adds the set to the collection at its place in the order, unless the
/// collection already holds it.
pub fn add_set<'a>(sets: &mut Vec<Vec<&'a Card>>, set: Vec<&'a Card>)
    requires
        sets_ascend(old(sets).deep_view()),
    ensures
        sets_ascend(final(sets).deep_view()),
        forall|other: Seq<Card>| #[trigger]
            final(sets).deep_view().contains(other) <==> old(sets).deep_view().contains(other)
                || other == set.deep_view(),
{
    let ghost before = sets.deep_view();
    let ghost added = set.deep_view();
    let mut place: usize = 0;
    let mut searching = true;
    while searching && place < sets.len()
        invariant
            place <= sets.len(),
            before == sets.deep_view(),
            added == set.deep_view(),
            sets_ascend(before),
            forall|other: Seq<Card>| #[trigger]
                before.contains(other) <==> old(sets).deep_view().contains(other),
            forall|j: int| 0 <= j < place ==> set_precedes(#[trigger] before[j], added),
            !searching ==> place < sets.len() && set_precedes(added, before[place as int]),
        decreases sets.len() - place, if searching { 1int } else { 0int },
    {
        match compare_sets(&sets[place], &set) {
            Placement::Before => {
                place += 1;
            },
            Placement::Same => {
                assert(before[place as int] == added);
                return ;
            },
            Placement::After => {
                searching = false;
            },
        }
    }
    sets.insert(place, set);
    proof {
        let after = sets.deep_view();
        assert(after =~= before.insert(place as int, added));
        assert forall|i: int, j: int| 0 <= i < j < after.len() implies
            set_precedes(#[trigger] after[i], #[trigger] after[j])
        by {
            let x = if i < place { i } else { i - 1 };
            let y = if j < place { j } else { j - 1 };
            if i != place && j != place {
                assert(after[i] == before[x] && after[j] == before[y]);
            } else if j == place {
                assert(after[i] == before[x]);
            } else {
                assert(after[j] == before[y]);
                if y > place {
                    assert(set_precedes(before[place as int], before[y]));
                    lemma_precedes_transitive(added, before[place as int], before[y]);
                }
            }
        }
        assert forall|other: Seq<Card>|
            #[trigger] after.contains(other) <==> before.contains(other) || other == added
        by {
            if after.contains(other) {
                let k = choose|k: int| 0 <= k < after.len() && after[k] == other;
                if k < place {
                    assert(before[k] == other);
                } else if k > place {
                    assert(before[k - 1] == other);
                }
            }
            if before.contains(other) {
                let k = choose|k: int| 0 <= k < before.len() && before[k] == other;
                if k < place {
                    assert(after[k] == other);
                } else {
                    assert(after[k + 1] == other);
                }
            }
            if other == added {
                assert(after[place as int] == other);
            }
        }
    }
}

/// Adds each set of `more` to the collection at its place in the order,
/// unless the collection already holds it.
pub fn add_sets<'a>(sets: &mut Vec<Vec<&'a Card>>, more: &Vec<Vec<&'a Card>>)
    requires
        sets_ascend(old(sets).deep_view()),
    ensures
        sets_ascend(final(sets).deep_view()),
        forall|set: Seq<Card>| #[trigger]
            final(sets).deep_view().contains(set) <==> old(sets).deep_view().contains(set)
                || more.deep_view().contains(set),
{
    let mut i: usize = 0;
    while i < more.len()
        invariant
            i <= more.len(),
            sets_ascend(sets.deep_view()),
            forall|set: Seq<Card>| #[trigger]
                sets.deep_view().contains(set) <==> old(sets).deep_view().contains(set) || exists|
                    j: int,
                | 0 <= j < i && more.deep_view()[j] == set,
        decreases more.len() - i,
    {
        let ghost before = sets.deep_view();
        let ghost added = more.deep_view()[i as int];
        let set = slice_to_vec(more[i].as_slice());
        assert(set.deep_view() =~= added);
        add_set(sets, set);
        i += 1;
    }
}

} // verus!
