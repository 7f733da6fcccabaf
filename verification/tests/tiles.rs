use rummikub::{Card, Color};

#[test]
fn a_new_tile_carries_its_number_and_color() {
    let tile = Card::new(13, Color::Black);
    assert_eq!(tile, Card::Numbered { number: 13, color: Color::Black });
    assert_eq!(tile.number(), Some(&13));
    assert_eq!(tile.color(), Some(&Color::Black));
    assert!(!tile.is_wildcard());
    assert!(tile.is_well_formed());
}

#[test]
fn a_wildcard_has_no_number_and_no_color() {
    let tile = Card::Wildcard;
    assert_eq!(tile.number(), None);
    assert_eq!(tile.color(), None);
    assert!(tile.is_wildcard());
    assert!(tile.is_well_formed());
}

#[test]
fn numbers_out_of_range_are_not_well_formed() {
    assert!(Card::Numbered { number: 1, color: Color::Red }.is_well_formed());
    assert!(Card::Numbered { number: 13, color: Color::Red }.is_well_formed());
    assert!(!Card::Numbered { number: 0, color: Color::Red }.is_well_formed());
    assert!(!Card::Numbered { number: 14, color: Color::Red }.is_well_formed());
    assert!(!Card::Numbered { number: -3, color: Color::Red }.is_well_formed());
}

#[test]
fn colors_have_their_place_in_the_order() {
    assert_eq!(Color::Red.position(), 0);
    assert_eq!(Color::Blue.position(), 1);
    assert_eq!(Color::Black.position(), 2);
    assert_eq!(Color::Yellow.position(), 3);
    assert!(Color::Red < Color::Blue && Color::Blue < Color::Black && Color::Black < Color::Yellow);
}

#[test]
fn tiles_come_by_number_then_color_and_wildcards_come_last() {
    let low = Card::new(2, Color::Yellow);
    let high = Card::new(3, Color::Red);
    let higher = Card::new(3, Color::Blue);
    let wild = Card::Wildcard;
    assert!(low < high);
    assert!(!(high < low));
    assert!(high < higher);
    assert!(higher > high);
    assert!(!(high < Card::new(3, Color::Red)));
    assert!(high <= Card::new(3, Color::Red));
    assert!(Card::new(13, Color::Yellow) < wild);
    assert!(!(wild < Card::new(13, Color::Yellow)));
    assert!(!(wild < Card::Wildcard));
    assert!(wild >= Card::Wildcard);
    assert_eq!(low.partial_cmp(&high), Some(std::cmp::Ordering::Less));
    assert_eq!(wild.partial_cmp(&low), Some(std::cmp::Ordering::Greater));
    assert_eq!(wild.partial_cmp(&Card::Wildcard), Some(std::cmp::Ordering::Equal));
}

#[test]
fn comparing_agrees_with_the_total_order_of_the_type() {
    let mut all: Vec<Card> = vec![Card::Wildcard];
    for color in [Color::Red, Color::Blue, Color::Black, Color::Yellow] {
        for number in [-128, -1, 0, 1, 2, 7, 13, 14, 127] {
            all.push(Card::Numbered { number, color });
        }
    }
    for a in &all {
        for b in &all {
            assert_eq!(a.partial_cmp(b), Some(a.cmp(b)));
        }
    }
    for a in [Color::Red, Color::Blue, Color::Black, Color::Yellow] {
        for b in [Color::Red, Color::Blue, Color::Black, Color::Yellow] {
            assert_eq!(a.partial_cmp(&b), Some(a.cmp(&b)));
        }
    }
}
