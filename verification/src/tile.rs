//! The tile model: four colours, numbered tiles and wildcards, and the total
//! order on tiles.

use vstd::prelude::*;

verus! {

/// The lowest number a tile can carry.
pub const MIN_NUMBER: i8 = 1;

/// The highest number a tile can carry.
pub const MAX_NUMBER: i8 = 13;

/// The colour of a numbered tile. The variants are listed in ascending order.
#[derive(Debug, Clone, Copy, PartialEq, Eq, Ord, Hash, Structural)]
pub enum Color {
    Red,
    Blue,
    Black,
    Yellow,
}

impl DeepView for Color {
    type V = Color;

    open spec fn deep_view(&self) -> Color {
        *self
    }
}

impl Color {
    /// The position of the colour in the colour order, from 0 to 3.
    pub open spec fn index(self) -> int {
        match self {
            Color::Red => 0,
            Color::Blue => 1,
            Color::Black => 2,
            Color::Yellow => 3,
        }
    }

    /// The position of the colour in the colour order, from 0 to 3.
    pub fn position(&self) -> (position: u8)
        ensures
            position == self.index(),
    {
        match self {
            Color::Red => 0,
            Color::Blue => 1,
            Color::Black => 2,
            Color::Yellow => 3,
        }
    }
}

/// A tile: a number in one of the four colours, or a wildcard.
#[derive(Debug, PartialEq, Eq, Ord, Structural)]
pub enum Card {
    Numbered { number: i8, color: Color },
    Wildcard,
}

impl DeepView for Card {
    type V = Card;

    open spec fn deep_view(&self) -> Card {
        *self
    }
}

impl Card {
    /// A numbered tile is well formed when its number lies between
    /// `MIN_NUMBER` and `MAX_NUMBER`; a wildcard always is.
    pub open spec fn wf(self) -> bool {
        self matches Card::Numbered { number, .. } ==> MIN_NUMBER <= number <= MAX_NUMBER
    }

    /// The number of a numbered tile; a wildcard has none.
    pub open spec fn number_of(self) -> Option<i8> {
        match self {
            Card::Numbered { number, .. } => Some(number),
            Card::Wildcard => None,
        }
    }

    /// The colour of a numbered tile; a wildcard has none.
    pub open spec fn color_of(self) -> Option<Color> {
        match self {
            Card::Numbered { color, .. } => Some(color),
            Card::Wildcard => None,
        }
    }

    /// The total order on tiles: numbered tiles come by number and then by
    /// colour, and a wildcard comes after every numbered tile. No wildcard
    /// comes before another.
    pub open spec fn comes_before(self, other: Card) -> bool {
        match (self, other) {
            (
                Card::Numbered { number: n, color: c },
                Card::Numbered { number: m, color: d },
            ) => n < m || (n == m && c.index() < d.index()),
            (Card::Numbered { .. }, Card::Wildcard) => true,
            (Card::Wildcard, _) => false,
        }
    }

    /// The place of the tile in the total order on tiles, as a number: a tile
    /// comes before another exactly when its rank is lower, and two tiles
    /// have the same rank only if they are equal.
    pub open spec fn rank(self) -> int {
        match self {
            Card::Numbered { number, color } => 4 * number + color.index(),
            Card::Wildcard => 512,
        }
    }

    /// The numbered tile of the given number and colour.
    pub fn new(number: i8, color: Color) -> (card: Card)
        requires
            MIN_NUMBER <= number <= MAX_NUMBER,
        ensures
            card == (Card::Numbered { number, color }),
            card.wf(),
    {
        Card::Numbered { number, color }
    }

    /// Whether the tile is well formed.
    pub fn is_well_formed(&self) -> (ok: bool)
        ensures
            ok == self.wf(),
    {
        match self {
            Card::Numbered { number, color: _ } => MIN_NUMBER <= *number && *number <= MAX_NUMBER,
            Card::Wildcard => true,
        }
    }

    /// The number of a numbered tile; a wildcard has none.
    pub fn number(&self) -> (number: Option<&i8>)
        ensures
            number.deep_view() == self.number_of(),
    {
        match self {
            Card::Numbered { number, color: _ } => Some(number),
            Card::Wildcard => None,
        }
    }

    /// The colour of a numbered tile; a wildcard has none.
    pub fn color(&self) -> (color: Option<&Color>)
        ensures
            color.deep_view() == self.color_of(),
    {
        match self {
            Card::Numbered { number: _, color } => Some(color),
            Card::Wildcard => None,
        }
    }

    /// Whether the tile is a wildcard.
    pub fn is_wildcard(&self) -> (wild: bool)
        ensures
            wild == (*self is Wildcard),
    {
        *self == Card::Wildcard
    }
}

/// The rank of a tile is its place in the total order on tiles.
pub proof fn lemma_rank_orders_tiles(x: Card, y: Card)
    ensures
        x.comes_before(y) <==> x.rank() < y.rank(),
{
}

/// Tiles of the same rank are equal.
pub proof fn lemma_rank_is_injective(x: Card, y: Card)
    requires
        x.rank() == y.rank(),
    ensures
        x == y,
{
}

} // verus!
