//! Matching core of a complete-set market.
//!
//! A contract with a fixed settlement value, the contract price, is divided
//! into two or more outcomes of which exactly one comes true. Each outcome
//! trades on its own limit order book. A limit order on one outcome is
//! matched against the other side of its own book, and also against the
//! basket of all the other books: one unit of every outcome is worth the
//! contract price, so buying one outcome is selling all the others.
//!
//! Prices, quantities and costs are amounts: whole numbers of steps. A
//! market says how many decimal places its prices and its quantities are
//! written with, which makes the size of a step; within a market every sum
//! and every product is then exact.
//!
//! - [`pieorderbook`]: the market and its three calls.
//! - [`matching`]: what a limit order does to a market, as mathematics.
//! - [`laws`] and [`capacity`]: what holds of every order.
//! - [`amount`], [`side`], [`fill`], [`fill_map`], [`errors`]: the values
//!   that go in and come out.
//! - [`outcome_book`] and [`book_model`]: a single book, which is
//!   `rust_ob::OrderBook`, and what its calls do.

pub mod amount;
pub mod book_lemmas;
pub mod book_model;
pub mod capacity;
pub mod errors;
pub mod fill;
pub mod fill_map;
pub mod laws;
pub mod matching;
pub mod matching_lemmas;
pub mod outcome_book;
pub mod pieorderbook;
pub mod side;

pub use amount::Amount;
pub use fill::OrderMatch;
pub use pieorderbook::PieOrderBook;
pub use side::Side;
