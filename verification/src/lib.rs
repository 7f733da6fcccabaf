//! Tiles of a rummy-style game, and the search for every set that a hand of
//! tiles can form: groups of one number in distinct colours, and runs of
//! consecutive numbers in one colour, with wildcards standing in for missing
//! tiles.
//!
//! [`valid_sets`] is the entry point. It returns the groups of the hand,
//! found by [`find_same_numbers`], followed by its runs, found by
//! [`find_runs`]. The sets refer to the tiles of the hand; the hand is not
//! changed.
//!
//! The contracts speak of a hand as a sequence of tiles and of a set as a
//! sequence of tiles. `groups::is_group_search`, `runs::is_run_search` and
//! `search::is_valid_sets` say what the three searches return, and the proof
//! functions beside them say what follows: every emitted set obeys the rules
//! of the game, no group is emitted twice, and the outcome is a function of
//! the tiles of the hand.
//!
//! Two adaptors of `iter_tools` and the shuffle of `rand` are called through
//! functions whose contracts are taken on trust: see `adaptors` and `deck`.

pub mod adaptors;
pub mod deck;
pub mod grouping;
pub mod groups;
pub mod hand;
pub mod order;
pub mod pool;
pub mod runs;
pub mod search;
pub mod selection;
pub mod sorted_sets;
pub mod tile;
pub mod tile_order;
pub mod windows;

pub use deck::Deck;
pub use groups::find_same_numbers;
pub use runs::find_runs;
pub use search::valid_sets;
pub use selection::create_permutations;
pub use tile::{Card, Color};
pub use windows::create_run_windows;
