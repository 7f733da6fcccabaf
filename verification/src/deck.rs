//! The deck: the full set of tiles, shuffled and dealt from the top.

use crate::hand::{count_wildcards, hand_wf, lemma_has_wildcard};
use crate::tile::{Card, Color, MAX_NUMBER, MIN_NUMBER};
use rand::seq::SliceRandom;
use vstd::prelude::*;

verus! {

/// The tiles of one colour, from `MIN_NUMBER` to `MAX_NUMBER`.
pub open spec fn suit(color: Color) -> Seq<Card> {
    Seq::new(
        (MAX_NUMBER - MIN_NUMBER + 1) as nat,
        |k: int| Card::Numbered { number: (MIN_NUMBER + k) as i8, color },
    )
}

/// One copy of every tile: the four suits in the order of the colours, and a
/// wildcard.
pub open spec fn tile_set() -> Seq<Card> {
    (suit(Color::Red) + suit(Color::Blue) + suit(Color::Black) + suit(Color::Yellow)).push(
        Card::Wildcard,
    )
}

/// The full deck: two copies of every tile.
pub open spec fn full_deck() -> Seq<Card> {
    tile_set() + tile_set()
}

/// The first `n` suits, in the order of the colours.
spec fn suits(n: int) -> Seq<Card>
    decreases n,
{
    if n <= 0 {
        Seq::empty()
    } else {
        suits(n - 1) + suit(color_at(n - 1))
    }
}

/// The colour at a place of the colour order.
spec fn color_at(place: int) -> Color {
    if place == 0 {
        Color::Red
    } else if place == 1 {
        Color::Blue
    } else if place == 2 {
        Color::Black
    } else {
        Color::Yellow
    }
}

/// `n` copies of every tile.
spec fn copies(n: int) -> Seq<Card>
    decreases n,
{
    if n <= 0 {
        Seq::empty()
    } else {
        copies(n - 1) + tile_set()
    }
}

proof fn lemma_suits()
    ensures
        suits(4).push(Card::Wildcard) == tile_set(),
        copies(2) == full_deck(),
{
    reveal_with_fuel(suits, 5);
    reveal_with_fuel(copies, 3);
    assert(suits(4) =~= suit(Color::Red) + suit(Color::Blue) + suit(Color::Black) + suit(
        Color::Yellow,
    ));
    assert(copies(2) =~= tile_set() + tile_set());
}

/// The full deck holds 106 tiles, two of them wildcards, and every numbered
/// tile of it carries a number of the game.
pub proof fn lemma_full_deck()
    ensures
        full_deck().len() == 106,
        count_wildcards(full_deck()) == 2,
        hand_wf(full_deck()),
{
    let wild = |c: Card| c is Wildcard;
    let suits = suit(Color::Red) + suit(Color::Blue) + suit(Color::Black) + suit(Color::Yellow);
    assert(count_wildcards(suits) == 0) by {
        lemma_has_wildcard(suits);
    }
    suits.lemma_filter_len_push(wild, Card::Wildcard);
    Seq::filter_distributes_over_add(tile_set(), tile_set(), wild);
}

/// A thread-local random number generator of `rand`. Nothing is known of the
/// numbers that it gives.
#[verifier::external_type_specification]
#[verifier::external_body]
pub struct ExThreadRng(rand::rngs::ThreadRng);

/// `rand::thread_rng` hands out the generator of the current thread, which
/// the operating system seeds on first use; where the system gives no seed,
/// the call panics. Nothing is claimed of the generator.
pub assume_specification[ rand::thread_rng ]() -> (rng: rand::rngs::ThreadRng)
;

/// Shuffles the tiles in place, by `SliceRandom::shuffle` of `rand`. The
/// shuffle only swaps elements of the slice, so the tiles afterwards are the
/// tiles before, in some order; which order is not known. The contract is not
/// verified.
#[verifier::external_body]
fn shuffle_tiles(cards: &mut Vec<Card>, rng: &mut rand::rngs::ThreadRng)
    ensures
        final(cards)@.to_multiset() == old(cards)@.to_multiset(),
{
    cards.shuffle(rng);
}

/// Tiles that are the tiles of a well-formed hand, in some order, are a
/// well-formed hand.
pub proof fn lemma_reordered_hand_wf(before: Seq<Card>, after: Seq<Card>)
    requires
        hand_wf(before),
        after.to_multiset() == before.to_multiset(),
    ensures
        hand_wf(after),
{
    assert forall|i: int| 0 <= i < after.len() implies (#[trigger] after[i]).wf() by {
        assert(after.contains(after[i]));
        vstd::seq_lib::to_multiset_contains(after, after[i]);
        vstd::seq_lib::to_multiset_contains(before, after[i]);
        let j = choose|j: int| 0 <= j < before.len() && before[j] == after[i];
        assert(before[j].wf());
    }
}

/// A deck of tiles. Tiles are dealt from its end.
pub struct Deck {
    cards: Vec<Card>,
}

impl View for Deck {
    type V = Seq<Card>;

    closed spec fn view(&self) -> Seq<Card> {
        self.cards@
    }
}

impl Deck {
    #[verifier::type_invariant]
    spec fn well_formed(self) -> bool {
        hand_wf(self.cards@)
    }

    /// The full deck in its initial order: two copies of every tile.
    pub fn new() -> (deck: Deck)
        ensures
            deck@ == full_deck(),
            deck@.len() == 106,
    {
        let mut cards: Vec<Card> = Vec::with_capacity(106);
        let colors = [Color::Red, Color::Blue, Color::Black, Color::Yellow];
        let mut round: usize = 0;
        proof {
            reveal_with_fuel(copies, 3);
        }
        while round < 2
            invariant
                round <= 2,
                colors@ == seq![Color::Red, Color::Blue, Color::Black, Color::Yellow],
                cards@ == copies(round as int),
            decreases 2 - round,
        {
            // Two sets of cards
            let mut ci: usize = 0;
            let ghost dealt = cards@;
            while ci < 4
                invariant
                    ci <= 4,
                    colors@ == seq![Color::Red, Color::Blue, Color::Black, Color::Yellow],
                    cards@ == dealt + suits(ci as int),
                decreases 4 - ci,
            {
                let c = colors[ci];
                assert(c == color_at(ci as int));
                let ghost laid = cards@;
                let mut num: i8 = MIN_NUMBER;
                while num <= MAX_NUMBER
                    invariant
                        MIN_NUMBER <= num <= MAX_NUMBER + 1,
                        cards@ == laid + suit(c).take(num - MIN_NUMBER),
                    decreases MAX_NUMBER + 1 - num,
                {
                    let ghost k = num - MIN_NUMBER;
                    cards.push(Card::new(num, c));
                    proof {
                        assert(suit(c).take(k + 1) =~= suit(c).take(k).push(suit(c)[k]));
                        assert(cards@ =~= laid + suit(c).take(k + 1));
                    }
                    num += 1;
                }
                proof {
                    assert(suit(c).take(MAX_NUMBER + 1 - MIN_NUMBER) =~= suit(c));
                    assert(cards@ =~= dealt + suits(ci + 1));
                }
                ci += 1;
            }
            cards.push(Card::Wildcard);
            proof {
                lemma_suits();
                assert(cards@ =~= dealt + suits(4).push(Card::Wildcard));
                assert(cards@ == copies(round + 1));
            }
            round += 1;
        }
        proof {
            lemma_suits();
            lemma_full_deck();
        }
        Deck { cards }
    }

    /// The full deck in a random order.
    pub fn new_shuffled() -> (deck: Deck)
        ensures
            deck@.to_multiset() == full_deck().to_multiset(),
            deck@.len() == 106,
    {
        let mut deck = Deck::new();
        deck.shuffle();
        deck
    }

    /// Puts the tiles of the deck in a random order.
    pub fn shuffle(&mut self)
        ensures
            final(self)@.to_multiset() == old(self)@.to_multiset(),
            final(self)@.len() == old(self)@.len(),
    {
        proof {
            use_type_invariant(&*self);
        }
        let mut rng = rand::thread_rng();
        let mut cards: Vec<Card> = Vec::new();
        std::mem::swap(&mut self.cards, &mut cards);
        let ghost before = cards@;
        shuffle_tiles(&mut cards, &mut rng);
        proof {
            lemma_reordered_hand_wf(before, cards@);
            vstd::seq_lib::to_multiset_len(before);
            vstd::seq_lib::to_multiset_len(cards@);
        }
        self.cards = cards;
    }

    /// Deals the last tile of the deck, if the deck holds a tile.
    pub fn pick_card(&mut self) -> (card: Option<Card>)
        ensures
            match card {
                Some(tile) => {
                    &&& old(self)@.len() > 0
                    &&& tile == old(self)@.last()
                    &&& tile.wf()
                    &&& final(self)@ == old(self)@.drop_last()
                },
                None => old(self)@.len() == 0 && final(self)@ == old(self)@,
            },
    {
        proof {
            use_type_invariant(&*self);
        }
        let mut cards: Vec<Card> = Vec::new();
        std::mem::swap(&mut self.cards, &mut cards);
        let ghost before = cards@;
        let card = cards.pop();
        proof {
            if before.len() > 0 {
                assert(before[before.len() - 1].wf());
                assert forall|i: int| 0 <= i < cards@.len() implies (#[trigger] cards@[i]).wf() by {
                    assert(before[i].wf());
                }
            }
        }
        self.cards = cards;
        card
    }

    /// Deals up to `num_cards` tiles from the end of the deck, the last tile
    /// first; if the deck holds fewer, all that it holds.
    pub fn pick_tray(&mut self, num_cards: usize) -> (tray: Vec<Card>)
        ensures
            tray@.len() == vstd::math::min(num_cards as int, old(self)@.len() as int),
            tray@ == old(self)@.skip(old(self)@.len() - tray@.len()).reverse(),
            final(self)@ == old(self)@.take(old(self)@.len() - tray@.len()),
            hand_wf(tray@),
    {
        let mut tray: Vec<Card> = Vec::new();
        let mut i: usize = 0;
        let ghost full = self@;
        while i < num_cards
            invariant
                i <= num_cards,
                tray@.len() == vstd::math::min(i as int, full.len() as int),
                forall|k: int| 0 <= k < tray@.len() ==> tray@[k] == full[full.len() - 1 - k],
                self@ == full.take(full.len() - tray@.len()),
                hand_wf(tray@),
            decreases num_cards - i,
        {
            let ghost before = tray@;
            if let Some(card) = self.pick_card() {
                tray.push(card);
                proof {
                    assert forall|k: int| 0 <= k < tray@.len() implies (
                    #[trigger] tray@[k]).wf() by {
                        if k < before.len() {
                            assert(before[k].wf());
                        }
                    }
                }
            }
            assert(self@ =~= full.take(full.len() - tray@.len()));
            i += 1;
        }
        assert(tray@ =~= full.skip(full.len() - tray@.len()).reverse());
        tray
    }
}

} // verus!
