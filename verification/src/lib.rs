//! Exact enumeration of poker hand-category frequencies.
//!
//! The crate models a 52-card deck, classifies five-card hands into the ten
//! standard poker categories, and, for a partially revealed board, counts how
//! often each category arises as the best achievable hand over every possible
//! completion of the unknown cards.
//!
//! - [`cards`] holds the card and game model, the classifier, and the
//!   frequency engine.
//! - [`combinatorics`] specifies the k-element combinations of a sequence and
//!   bridges to the crate that enumerates them.
//! - [`freq`] is the verified frequency table the engine fills.
//! - [`laws`] states and proves the properties that tie it all together.

pub mod cards;
pub mod combinatorics;
pub mod freq;
pub mod laws;
