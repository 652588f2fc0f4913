//! A limit order book with a dark pool, and the rules of the trading game that
//! runs on top of it: which orders a trader may place, how trades count
//! towards a trader's goal, and what each trader is shown.
//!
//! A price is the `f64` that a trader gives, held as an integer key that
//! orders and equates prices as `f64` does (see `types::price_key`); NaN has
//! no key.

pub mod types;
pub mod priority;
pub mod sorting;
pub mod book;
pub mod book_laws;
pub mod ids;
pub mod game;
pub mod display;
pub mod game_laws;
pub mod settle_laws;
pub mod id_laws;
pub mod rule_laws;
