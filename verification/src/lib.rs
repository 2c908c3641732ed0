//! Monte Carlo tree search for the cooperative card game Hanabi, with the rules of the game,
//! the drawing of faces for the cards that a player cannot see, and the search itself.
//!
//! The rules are stated once, as a function on a mathematical model of the game
//! (`model::GameView::step`), and the executable game (`hanabi::GameState`) is proved to
//! follow them. What holds of every game is proved of the model: that no card is lost or
//! made, that the counters stay in their bounds, that what the clues disclosed is true.
//!
//! Randomness comes from the crate `rand`, behind two small functions in `random` whose
//! contracts say no more than that a drawn index is in range and a drawn face is one of the
//! choices. Whatever the library proves of a random result holds of every draw.

pub mod basic_mcts;
pub mod card_counts;
pub mod conservation;
pub mod counting;
pub mod deck;
pub mod determinization;
pub mod digest;
pub mod hanabi;
pub mod holders;
pub mod laws;
pub mod model;
pub mod places;
pub mod priors;
pub mod random;
pub mod seq_facts;
