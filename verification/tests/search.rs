use rummikub::hand::{find_tile, get_wildcards, holds_color, is_well_formed_hand, reaches_three};
use rummikub::order::{numbered_tiles, sorted_tiles};
use rummikub::sorted_sets::{add_set, add_sets, compare_sets, Placement};
use rummikub::{
    create_permutations, create_run_windows, find_runs, find_same_numbers, valid_sets, Card, Color,
};

fn tiles(set: &[&Card]) -> Vec<(i8, Option<Color>)> {
    set.iter()
        .map(|c| match c {
            Card::Numbered { number, color } => (*number, Some(*color)),
            Card::Wildcard => (0, None),
        })
        .collect()
}

fn numbered(number: i8, color: Color) -> (i8, Option<Color>) {
    (number, Some(color))
}

fn wild() -> (i8, Option<Color>) {
    (0, None)
}

fn canonical(set: &[&Card]) -> Vec<(i8, Option<Color>)> {
    let mut sorted: Vec<&Card> = set.to_vec();
    sorted.sort();
    tiles(&sorted)
}

fn wildcards_in(set: &[&Card]) -> usize {
    set.iter().filter(|c| c.is_wildcard()).count()
}

fn mixed_hand() -> Vec<Card> {
    vec![
        Card::new(7, Color::Black),
        Card::Wildcard,
        Card::new(5, Color::Blue),
        Card::new(7, Color::Red),
        Card::new(6, Color::Blue),
        Card::new(7, Color::Blue),
        Card::new(7, Color::Black),
        Card::new(7, Color::Yellow),
        Card::Wildcard,
        Card::new(9, Color::Blue),
        Card::new(13, Color::Red),
        Card::new(1, Color::Red),
    ]
}

#[test]
fn empty_hand_has_no_sets() {
    let hand: Vec<Card> = vec![];
    assert!(find_same_numbers(&hand).is_empty());
    assert!(find_runs(&hand).is_empty());
    assert!(valid_sets(&hand).is_empty());
}

#[test]
fn hand_without_a_set_has_no_sets() {
    let hand = vec![
        Card::new(1, Color::Red),
        Card::new(5, Color::Blue),
        Card::new(9, Color::Black),
        Card::new(13, Color::Yellow),
    ];
    assert!(valid_sets(&hand).is_empty());
}

#[test]
fn wildcards_alone_form_no_set() {
    let hand = vec![Card::Wildcard, Card::Wildcard, Card::Wildcard];
    assert!(find_same_numbers(&hand).is_empty());
    assert!(find_runs(&hand).is_empty());
    assert!(valid_sets(&hand).is_empty());
}

#[test]
fn three_colors_and_a_wildcard_give_five_groups() {
    let hand = vec![
        Card::new(2, Color::Blue),
        Card::new(2, Color::Red),
        Card::new(2, Color::Yellow),
        Card::Wildcard,
    ];
    let sets = find_same_numbers(&hand);
    let mut found: Vec<Vec<(i8, Option<Color>)>> = sets.iter().map(|s| tiles(s)).collect();
    found.sort();
    let mut expected = vec![
        vec![numbered(2, Color::Red), numbered(2, Color::Blue), numbered(2, Color::Yellow)],
        vec![numbered(2, Color::Red), numbered(2, Color::Blue), numbered(2, Color::Yellow), wild()],
        vec![numbered(2, Color::Red), numbered(2, Color::Blue), wild()],
        vec![numbered(2, Color::Red), numbered(2, Color::Yellow), wild()],
        vec![numbered(2, Color::Blue), numbered(2, Color::Yellow), wild()],
    ];
    expected.sort();
    assert_eq!(found, expected);
}

#[test]
fn group_tiles_come_in_ascending_order_with_wildcards_last() {
    let hand = vec![
        Card::Wildcard,
        Card::new(4, Color::Yellow),
        Card::new(4, Color::Black),
        Card::new(4, Color::Red),
        Card::new(4, Color::Blue),
    ];
    let sets = find_same_numbers(&hand);
    assert_eq!(sets.len(), 15);
    assert!(sets.iter().any(|s| tiles(s)
        == vec![
            numbered(4, Color::Red),
            numbered(4, Color::Blue),
            numbered(4, Color::Black),
            numbered(4, Color::Yellow),
        ]));
    assert!(sets.iter().any(|s| tiles(s)
        == vec![numbered(4, Color::Blue), numbered(4, Color::Yellow), wild()]));
    for set in &sets {
        let mut sorted: Vec<&Card> = set.clone();
        sorted.sort();
        assert_eq!(tiles(set), tiles(&sorted));
    }
}

#[test]
fn a_color_held_twice_is_used_once() {
    let hand = vec![
        Card::new(3, Color::Blue),
        Card::new(3, Color::Blue),
        Card::new(3, Color::Red),
        Card::Wildcard,
    ];
    let sets = find_same_numbers(&hand);
    assert_eq!(sets.len(), 1);
    assert_eq!(
        tiles(&sets[0]),
        vec![numbered(3, Color::Red), numbered(3, Color::Blue), wild()]
    );
}

#[test]
fn a_kept_tile_is_the_first_of_its_kind_in_the_hand() {
    let hand = vec![
        Card::new(3, Color::Blue),
        Card::new(3, Color::Red),
        Card::new(3, Color::Blue),
        Card::new(3, Color::Yellow),
    ];
    let sets = find_same_numbers(&hand);
    assert_eq!(sets.len(), 1);
    assert!(std::ptr::eq(sets[0][0], &hand[1]));
    assert!(std::ptr::eq(sets[0][1], &hand[0]));
    assert!(std::ptr::eq(sets[0][2], &hand[3]));
}

#[test]
fn tiles_of_different_numbers_are_not_grouped_together() {
    let hand = vec![
        Card::new(8, Color::Red),
        Card::new(9, Color::Blue),
        Card::new(8, Color::Black),
        Card::new(9, Color::Yellow),
        Card::new(9, Color::Red),
    ];
    let sets = find_same_numbers(&hand);
    assert_eq!(sets.len(), 1);
    assert_eq!(
        tiles(&sets[0]),
        vec![numbered(9, Color::Red), numbered(9, Color::Blue), numbered(9, Color::Yellow)]
    );
}

#[test]
fn three_wildcards_beside_a_tile_form_groups_of_wildcards() {
    let hand = vec![Card::new(3, Color::Blue), Card::Wildcard, Card::Wildcard, Card::Wildcard];
    let sets = find_same_numbers(&hand);
    let mut found: Vec<Vec<(i8, Option<Color>)>> = sets.iter().map(|s| tiles(s)).collect();
    found.sort();
    let mut expected = vec![
        vec![numbered(3, Color::Blue), wild(), wild(), wild()],
        vec![numbered(3, Color::Blue), wild(), wild()],
        vec![wild(), wild(), wild()],
    ];
    expected.sort();
    assert_eq!(found, expected);
}

#[test]
fn groups_obey_the_rule_of_the_game() {
    let hand = mixed_hand();
    let in_hand = wildcards_in(&hand.iter().collect::<Vec<&Card>>());
    let sets = find_same_numbers(&hand);
    assert_eq!(sets.len(), 30);
    for set in &sets {
        assert!(set.len() == 3 || set.len() == 4);
        assert!(wildcards_in(set) <= in_hand);
        let plain: Vec<&&Card> = set.iter().filter(|c| !c.is_wildcard()).collect();
        for (i, a) in plain.iter().enumerate() {
            assert!(hand.contains(a));
            for b in plain.iter().skip(i + 1) {
                assert_eq!(a.number(), b.number());
                assert_ne!(a.color(), b.color());
            }
        }
    }
}

#[test]
fn runs_obey_the_rule_of_the_game() {
    let hand = mixed_hand();
    let in_hand = wildcards_in(&hand.iter().collect::<Vec<&Card>>());
    let sets = find_runs(&hand);
    assert!(!sets.is_empty());
    for set in &sets {
        assert!(set.len() >= 3 && set.len() <= 13);
        assert!(wildcards_in(set) <= in_hand);
        let place = set.iter().position(|c| !c.is_wildcard()).unwrap();
        let first = *set[place].number().unwrap() - place as i8;
        let color = *set[place].color().unwrap();
        assert!(first >= 1 && first + set.len() as i8 - 1 <= 13);
        for (k, tile) in set.iter().enumerate() {
            if !tile.is_wildcard() {
                assert!(hand.contains(tile));
                assert_eq!(*tile.number().unwrap(), first + k as i8);
                assert_eq!(*tile.color().unwrap(), color);
            }
        }
    }
}

#[test]
fn no_group_is_emitted_twice() {
    let hand = mixed_hand();
    let sets = find_same_numbers(&hand);
    for (i, a) in sets.iter().enumerate() {
        for b in sets.iter().skip(i + 1) {
            assert_ne!(canonical(a), canonical(b));
        }
    }
}

#[test]
fn a_set_without_wildcards_is_emitted_once() {
    let hand = mixed_hand();
    let sets = valid_sets(&hand);
    let mut plain = 0;
    for (i, a) in sets.iter().enumerate() {
        if wildcards_in(a) == 0 {
            plain += 1;
            for (j, b) in sets.iter().enumerate() {
                if i != j {
                    assert_ne!(canonical(a), canonical(b));
                }
            }
        }
    }
    assert_eq!(plain, 6);
}

#[test]
fn a_tile_and_two_wildcards_are_a_group_and_a_run() {
    let hand = vec![Card::new(3, Color::Blue), Card::Wildcard, Card::Wildcard];
    let sets = valid_sets(&hand);
    let found: Vec<Vec<(i8, Option<Color>)>> = sets.iter().map(|s| tiles(s)).collect();
    assert_eq!(
        found,
        vec![
            vec![numbered(3, Color::Blue), wild(), wild()],
            vec![wild(), wild(), numbered(3, Color::Blue)],
            vec![wild(), numbered(3, Color::Blue), wild()],
            vec![numbered(3, Color::Blue), wild(), wild()],
        ]
    );
}

#[test]
fn no_set_is_longer_than_the_game_allows() {
    let mut hand: Vec<Card> = (1..=13).map(|n| Card::new(n, Color::Blue)).collect();
    hand.push(Card::Wildcard);
    hand.push(Card::Wildcard);
    hand.push(Card::new(6, Color::Red));
    hand.push(Card::new(6, Color::Black));
    hand.push(Card::new(6, Color::Yellow));
    let groups = find_same_numbers(&hand);
    assert!(groups.iter().all(|s| s.len() <= 4));
    assert!(groups.iter().any(|s| s.len() == 4));
    let runs = find_runs(&hand);
    assert!(runs.iter().all(|s| s.len() <= 13));
    let longest: Vec<&Vec<&Card>> = runs.iter().filter(|s| s.len() == 13).collect();
    assert_eq!(longest.len(), 1);
    assert_eq!(
        tiles(longest[0]),
        (1..=13).map(|n| numbered(n, Color::Blue)).collect::<Vec<_>>()
    );
}

#[test]
fn the_search_gives_the_same_sets_each_time() {
    let hand = mixed_hand();
    let once = valid_sets(&hand);
    let again = valid_sets(&hand);
    assert_eq!(once, again);
    let other = mixed_hand();
    let elsewhere = valid_sets(&other);
    assert_eq!(once, elsewhere);
}

#[test]
fn the_order_of_the_hand_does_not_change_the_groups() {
    let hand = mixed_hand();
    let mut turned = mixed_hand();
    turned.reverse();
    let mut once: Vec<Vec<(i8, Option<Color>)>> =
        find_same_numbers(&hand).iter().map(|s| tiles(s)).collect();
    let mut again: Vec<Vec<(i8, Option<Color>)>> =
        find_same_numbers(&turned).iter().map(|s| tiles(s)).collect();
    once.sort();
    again.sort();
    assert_eq!(once, again);
}

#[test]
fn valid_sets_are_the_groups_and_then_the_runs() {
    let hand = mixed_hand();
    let groups = find_same_numbers(&hand);
    let runs = find_runs(&hand);
    let sets = valid_sets(&hand);
    assert_eq!(sets.len(), groups.len() + runs.len());
    for (i, set) in groups.iter().enumerate() {
        assert_eq!(tiles(&sets[i]), tiles(set));
    }
    for (i, set) in runs.iter().enumerate() {
        assert_eq!(tiles(&sets[groups.len() + i]), tiles(set));
    }
}

#[test]
fn runs_come_by_color_then_longest_first_then_lowest_first() {
    let hand = vec![
        Card::new(3, Color::Yellow),
        Card::new(2, Color::Red),
        Card::new(1, Color::Yellow),
        Card::new(4, Color::Red),
        Card::new(2, Color::Yellow),
        Card::new(3, Color::Red),
        Card::new(4, Color::Yellow),
        Card::new(1, Color::Red),
    ];
    let found: Vec<Vec<(i8, Option<Color>)>> = find_runs(&hand).iter().map(|s| tiles(s)).collect();
    let run = |color: Color, first: i8, len: i8| -> Vec<(i8, Option<Color>)> {
        (first..first + len).map(|n| numbered(n, color)).collect()
    };
    assert_eq!(
        found,
        vec![
            run(Color::Red, 1, 4),
            run(Color::Red, 1, 3),
            run(Color::Red, 2, 3),
            run(Color::Yellow, 1, 4),
            run(Color::Yellow, 1, 3),
            run(Color::Yellow, 2, 3),
        ]
    );
}

#[test]
fn a_run_ends_at_the_highest_number() {
    let hand = vec![
        Card::new(12, Color::Black),
        Card::new(13, Color::Black),
        Card::new(1, Color::Black),
        Card::Wildcard,
    ];
    let found: Vec<Vec<(i8, Option<Color>)>> = find_runs(&hand).iter().map(|s| tiles(s)).collect();
    assert_eq!(found, vec![vec![wild(), numbered(12, Color::Black), numbered(13, Color::Black)]]);
}

#[test]
fn a_color_with_too_few_tiles_is_skipped() {
    let hand = vec![Card::new(5, Color::Red), Card::new(6, Color::Blue), Card::Wildcard];
    assert!(find_runs(&hand).is_empty());
}

#[test]
fn selections_of_five_tiles() {
    let hand = vec![
        Card::new(1, Color::Red),
        Card::new(2, Color::Red),
        Card::new(3, Color::Red),
        Card::new(4, Color::Red),
        Card::new(5, Color::Red),
    ];
    let pool: Vec<&Card> = hand.iter().collect();
    let selections = create_permutations(&pool);
    assert_eq!(selections.len(), 15);
    assert_eq!(selections.iter().filter(|s| s.len() == 3).count(), 10);
    assert_eq!(selections.iter().filter(|s| s.len() == 4).count(), 5);
    for (i, a) in selections.iter().enumerate() {
        assert!(a.windows(2).all(|pair| pair[0] < pair[1]));
        for b in selections.iter().skip(i + 1) {
            assert_ne!(tiles(a), tiles(b));
        }
    }
}

#[test]
fn selections_of_equal_tiles_are_kept_once() {
    let hand = vec![Card::Wildcard, Card::Wildcard, Card::Wildcard, Card::Wildcard, Card::Wildcard];
    let pool: Vec<&Card> = hand.iter().collect();
    let selections = create_permutations(&pool);
    let mut found: Vec<Vec<(i8, Option<Color>)>> = selections.iter().map(|s| tiles(s)).collect();
    found.sort();
    assert_eq!(found, vec![vec![wild(); 3], vec![wild(); 4]]);
}

#[test]
fn a_short_pool_is_its_only_selection() {
    let hand = vec![Card::new(1, Color::Red), Card::Wildcard];
    let pool: Vec<&Card> = hand.iter().collect();
    let selections = create_permutations(&pool);
    assert_eq!(selections.len(), 1);
    assert_eq!(tiles(&selections[0]), vec![numbered(1, Color::Red), wild()]);
    let nothing: Vec<&Card> = vec![];
    let selections = create_permutations(&nothing);
    assert_eq!(selections.len(), 1);
    assert!(selections[0].is_empty());
}

#[test]
fn a_pool_of_four_gives_itself_and_its_triples() {
    let hand = vec![
        Card::new(2, Color::Red),
        Card::new(2, Color::Blue),
        Card::new(2, Color::Black),
        Card::new(2, Color::Yellow),
    ];
    let pool: Vec<&Card> = hand.iter().collect();
    let selections = create_permutations(&pool);
    let found: Vec<Vec<(i8, Option<Color>)>> = selections.iter().map(|s| tiles(s)).collect();
    let red = numbered(2, Color::Red);
    let blue = numbered(2, Color::Blue);
    let black = numbered(2, Color::Black);
    let yellow = numbered(2, Color::Yellow);
    assert_eq!(
        found,
        vec![
            vec![red, blue, black],
            vec![red, blue, black, yellow],
            vec![red, blue, yellow],
            vec![red, black, yellow],
            vec![blue, black, yellow],
        ]
    );
}

#[test]
fn spare_tiles_fill_empty_slots_from_the_last_backwards() {
    let a = Card::new(1, Color::Red);
    let b = Card::new(3, Color::Red);
    let c = Card::new(5, Color::Red);
    let x = Card::new(10, Color::Blue);
    let y = Card::new(11, Color::Blue);
    let slots = vec![Some(&a), None, Some(&b), None, Some(&c)];
    let spare = vec![&x, &y];
    let found: Vec<Vec<(i8, Option<Color>)>> =
        create_run_windows(&slots, &spare).iter().map(|s| tiles(s)).collect();
    let a = numbered(1, Color::Red);
    let b = numbered(3, Color::Red);
    let c = numbered(5, Color::Red);
    let x = numbered(10, Color::Blue);
    let y = numbered(11, Color::Blue);
    assert_eq!(
        found,
        vec![
            vec![a, y, b, x, c],
            vec![a, y, b, x],
            vec![y, b, x, c],
            vec![a, y, b],
            vec![y, b, x],
            vec![b, y, c],
        ]
    );
}

#[test]
fn windows_need_three_slots() {
    let a = Card::new(1, Color::Red);
    let b = Card::new(2, Color::Red);
    let w = Card::Wildcard;
    let spare = vec![&w, &w, &w];
    assert!(create_run_windows(&[Some(&a), Some(&b)], &spare).is_empty());
    assert!(create_run_windows(&[], &spare).is_empty());
    let three = create_run_windows(&[None, None, None], &spare);
    assert_eq!(three.len(), 1);
    assert_eq!(tiles(&three[0]), vec![wild(); 3]);
    assert!(create_run_windows(&[None, None, None], &spare[..2]).is_empty());
}

#[test]
fn wildcards_of_a_hand() {
    let hand = mixed_hand();
    let found = get_wildcards(&hand);
    assert_eq!(found.len(), 2);
    assert!(std::ptr::eq(found[0], &hand[1]));
    assert!(std::ptr::eq(found[1], &hand[8]));
    assert!(get_wildcards(&[Card::new(1, Color::Red)]).is_empty());
}

#[test]
fn sorted_tiles_are_ascending_and_the_same_tiles() {
    let hand = mixed_hand();
    let sorted = sorted_tiles(&hand);
    assert_eq!(
        tiles(&sorted),
        vec![
            numbered(1, Color::Red),
            numbered(5, Color::Blue),
            numbered(6, Color::Blue),
            numbered(7, Color::Red),
            numbered(7, Color::Blue),
            numbered(7, Color::Black),
            numbered(7, Color::Black),
            numbered(7, Color::Yellow),
            numbered(9, Color::Blue),
            numbered(13, Color::Red),
            wild(),
            wild(),
        ]
    );
    assert!(std::ptr::eq(sorted[5], &hand[0]));
    assert!(std::ptr::eq(sorted[6], &hand[6]));
    let mut by_std: Vec<&Card> = hand.iter().collect();
    by_std.sort();
    assert_eq!(tiles(&sorted), tiles(&by_std));
}

#[test]
fn numbered_tiles_are_the_tiles_without_the_wildcards() {
    let hand = mixed_hand();
    let all: Vec<&Card> = hand.iter().collect();
    let found = numbered_tiles(&all);
    assert_eq!(found.len(), 10);
    assert!(found.iter().all(|c| !c.is_wildcard()));
    assert!(std::ptr::eq(found[0], &hand[0]));
    assert!(std::ptr::eq(found[1], &hand[2]));
    assert!(std::ptr::eq(found[9], &hand[11]));
    assert!(numbered_tiles(&vec![&hand[1], &hand[8]]).is_empty());
}

#[test]
fn three_tiles_are_reached_by_tiles_and_wildcards_together() {
    assert!(reaches_three(3, 0));
    assert!(reaches_three(0, 3));
    assert!(reaches_three(1, 2));
    assert!(reaches_three(2, 1));
    assert!(!reaches_three(2, 0));
    assert!(!reaches_three(1, 1));
    assert!(!reaches_three(0, 0));
    assert!(reaches_three(usize::MAX, usize::MAX));
}

#[test]
fn sets_are_compared_tile_by_tile() {
    let a = Card::new(1, Color::Red);
    let b = Card::new(2, Color::Red);
    let c = Card::new(2, Color::Blue);
    let w = Card::Wildcard;
    let again = Card::new(1, Color::Red);
    assert_eq!(compare_sets(&vec![&a, &b], &vec![&again, &b]), Placement::Same);
    assert_eq!(compare_sets(&vec![&a, &b], &vec![&b, &a]), Placement::Before);
    assert_eq!(compare_sets(&vec![&b, &a], &vec![&a, &b]), Placement::After);
    assert_eq!(compare_sets(&vec![&a, &b], &vec![&a]), Placement::After);
    assert_eq!(compare_sets(&vec![&a], &vec![&a, &b]), Placement::Before);
    assert_eq!(compare_sets(&vec![&a, &b], &vec![&a, &c]), Placement::Before);
    assert_eq!(compare_sets(&vec![&a, &w], &vec![&a, &c]), Placement::After);
    assert_eq!(compare_sets(&vec![&w], &vec![&w]), Placement::Same);
    assert_eq!(compare_sets(&vec![], &vec![]), Placement::Same);
    assert_eq!(compare_sets(&vec![], &vec![&a]), Placement::Before);
}

#[test]
fn comparing_sets_agrees_with_the_order_of_the_type() {
    let hand = mixed_hand();
    let sets = valid_sets(&hand);
    for a in &sets {
        for b in &sets {
            let expected = if a < b {
                Placement::Before
            } else if a > b {
                Placement::After
            } else {
                Placement::Same
            };
            assert_eq!(compare_sets(a, b), expected);
        }
    }
}

#[test]
fn a_set_is_added_at_its_place_unless_it_is_held() {
    let a = Card::new(1, Color::Red);
    let b = Card::new(2, Color::Red);
    let mut sets: Vec<Vec<&Card>> = vec![vec![&a, &b]];
    add_set(&mut sets, vec![&a, &b]);
    assert_eq!(sets.len(), 1);
    add_set(&mut sets, vec![&b, &a]);
    assert_eq!(sets.len(), 2);
    let more = vec![vec![&b], vec![&b, &a], vec![&a], vec![&b]];
    add_sets(&mut sets, &more);
    let found: Vec<Vec<(i8, Option<Color>)>> = sets.iter().map(|s| tiles(s)).collect();
    let a = numbered(1, Color::Red);
    let b = numbered(2, Color::Red);
    assert_eq!(found, vec![vec![a], vec![a, b], vec![b], vec![b, a]]);
}

#[test]
fn groups_come_in_ascending_order() {
    let hand = mixed_hand();
    let sets = find_same_numbers(&hand);
    let mut sorted = sets.clone();
    sorted.sort();
    assert_eq!(sets, sorted);
    let hand = vec![
        Card::new(9, Color::Blue),
        Card::Wildcard,
        Card::new(2, Color::Red),
        Card::new(9, Color::Red),
    ];
    let found: Vec<Vec<(i8, Option<Color>)>> =
        find_same_numbers(&hand).iter().map(|s| tiles(s)).collect();
    assert_eq!(found, vec![vec![numbered(9, Color::Red), numbered(9, Color::Blue), wild()]]);
    let hand = vec![
        Card::new(9, Color::Blue),
        Card::Wildcard,
        Card::new(2, Color::Red),
        Card::Wildcard,
    ];
    let found: Vec<Vec<(i8, Option<Color>)>> =
        find_same_numbers(&hand).iter().map(|s| tiles(s)).collect();
    assert_eq!(
        found,
        vec![
            vec![numbered(2, Color::Red), wild(), wild()],
            vec![numbered(9, Color::Blue), wild(), wild()],
        ]
    );
}

#[test]
fn selections_come_in_ascending_order() {
    let hand = vec![
        Card::new(2, Color::Red),
        Card::new(2, Color::Blue),
        Card::new(2, Color::Black),
        Card::new(2, Color::Yellow),
        Card::Wildcard,
    ];
    let pool: Vec<&Card> = hand.iter().collect();
    let selections = create_permutations(&pool);
    let mut sorted = selections.clone();
    sorted.sort();
    assert_eq!(selections, sorted);
    assert_eq!(selections.len(), 15);
}

#[test]
fn a_tile_is_found_by_number_and_color() {
    let hand = mixed_hand();
    let found = find_tile(&hand, 7, Color::Black).unwrap();
    assert!(std::ptr::eq(found, &hand[0]));
    assert!(find_tile(&hand, 7, Color::Yellow).is_some());
    assert!(find_tile(&hand, 8, Color::Black).is_none());
    assert!(find_tile(&hand, 9, Color::Red).is_none());
    assert!(find_tile(&[], 1, Color::Red).is_none());
}

#[test]
fn a_hand_holds_the_colors_of_its_numbered_tiles() {
    let hand = vec![Card::new(4, Color::Black), Card::Wildcard, Card::new(9, Color::Red)];
    assert!(holds_color(&hand, Color::Red));
    assert!(holds_color(&hand, Color::Black));
    assert!(!holds_color(&hand, Color::Blue));
    assert!(!holds_color(&hand, Color::Yellow));
    assert!(!holds_color(&[Card::Wildcard], Color::Red));
}

#[test]
fn a_number_out_of_range_fills_no_slot_of_a_run() {
    let hand = vec![
        Card::Numbered { number: 20, color: Color::Blue },
        Card::Numbered { number: 13, color: Color::Blue },
        Card::Numbered { number: 0, color: Color::Blue },
        Card::Wildcard,
        Card::Wildcard,
    ];
    let found: Vec<Vec<(i8, Option<Color>)>> = find_runs(&hand).iter().map(|s| tiles(s)).collect();
    assert_eq!(found, vec![vec![wild(), wild(), numbered(13, Color::Blue)]]);
}

#[test]
fn a_hand_is_well_formed_when_its_numbers_are_in_range() {
    assert!(is_well_formed_hand(&mixed_hand()));
    assert!(is_well_formed_hand(&[]));
    let low = vec![Card::new(1, Color::Red), Card::Numbered { number: 0, color: Color::Red }];
    assert!(!is_well_formed_hand(&low));
    let high = vec![Card::Wildcard, Card::Numbered { number: 14, color: Color::Blue }];
    assert!(!is_well_formed_hand(&high));
}
