//! Spaced-repetition scheduling for flashcards, and the card service that
//! keeps the cards.
//!
//! - `models`: the card, the review outcome, the settings, the reports.
//! - `card_time`: instants and day arithmetic.
//! - `spaced_repetition`: the three scheduling rules, due cards and counts.
//! - `collection`: the cards, each id once.
//! - `tags`: the tags in use and the counts per tag.
//! - `text`: the order of names, search inside a text, lower case.
//! - `card_service`: every operation on cards and settings.
//! - `sequences`: facts about filtered sequences.
//!
//! Decimal quantities (ease factor, exponential factor, exponential base) are
//! held as whole thousandths, and instants as seconds and nanoseconds since
//! the Unix epoch, so that every rule of the scheduler is integer arithmetic
//! with a stated result. An operation that reads the clock or draws an id has
//! a twin that takes the instant, or the id, as an argument and says exactly
//! what comes of it.
//!
//! The service writes nothing to disk. An operation that changes the cards or
//! the settings notes that a snapshot is owed; the caller asks, writes the
//! snapshot, and holds whatever lock it needs around both.

pub mod card_service;
pub mod card_time;
pub mod collection;
pub mod models;
pub mod sequences;
pub mod spaced_repetition;
pub mod tags;
pub mod text;
