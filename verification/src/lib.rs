//! Notation engine for No-Limit Hold'em: the card and combination model,
//! hand ranges written in solver shorthand, and bet sizes relative to the pot.
//!
//! Every function is a pure computation on its arguments. The parsers state,
//! over the characters of their input, exactly which value or which error they
//! return.

pub mod text;
pub mod error;
pub mod decimal;
pub mod cards;
pub mod range;
pub mod bet_sizing;

pub use bet_sizing::{BetSize, BetSizeConfig, BetSizes};
pub use cards::{Card, Combo, Rank, Suit};
pub use decimal::Decimal;
pub use error::{ErrorKind, ParseError};
pub use range::Range;
