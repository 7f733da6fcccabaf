//! The comparison operators on colours and tiles. They follow the order of
//! the colours and the total order on tiles.

use crate::tile::{Card, Color};
use std::cmp::Ordering;
use vstd::prelude::*;
use vstd::std_specs::cmp::PartialOrdSpecImpl;

verus! {

impl PartialOrd for Color {
    fn partial_cmp(&self, other: &Color) -> (order: Option<Ordering>) {
        let here = self.position();
        let there = other.position();
        if here < there {
            Some(Ordering::Less)
        } else if here > there {
            Some(Ordering::Greater)
        } else {
            Some(Ordering::Equal)
        }
    }
}

impl PartialOrdSpecImpl for Color {
    open spec fn obeys_partial_cmp_spec() -> bool {
        true
    }

    open spec fn partial_cmp_spec(&self, other: &Color) -> Option<Ordering> {
        if self.index() < other.index() {
            Some(Ordering::Less)
        } else if self.index() > other.index() {
            Some(Ordering::Greater)
        } else {
            Some(Ordering::Equal)
        }
    }
}

impl PartialOrd for Card {
    fn partial_cmp(&self, other: &Card) -> (order: Option<Ordering>) {
        match (self, other) {
            (Card::Numbered { number: n, color: c }, Card::Numbered { number: m, color: d }) => {
                if *n < *m {
                    Some(Ordering::Less)
                } else if *n > *m {
                    Some(Ordering::Greater)
                } else {
                    c.partial_cmp(d)
                }
            },
            (Card::Numbered { .. }, Card::Wildcard) => Some(Ordering::Less),
            (Card::Wildcard, Card::Numbered { .. }) => Some(Ordering::Greater),
            (Card::Wildcard, Card::Wildcard) => Some(Ordering::Equal),
        }
    }
}

impl PartialOrdSpecImpl for Card {
    open spec fn obeys_partial_cmp_spec() -> bool {
        true
    }

    open spec fn partial_cmp_spec(&self, other: &Card) -> Option<Ordering> {
        if self.comes_before(*other) {
            Some(Ordering::Less)
        } else if other.comes_before(*self) {
            Some(Ordering::Greater)
        } else {
            Some(Ordering::Equal)
        }
    }
}

} // verus!
