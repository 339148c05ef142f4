//! Claim and preclaim engine for a multi-world randomizer event.
//!
//! The crate holds the rules of the event as verified code: which status a
//! slot has, when a player may claim a slot, how a pool of competing
//! preclaims is resolved into one winner per slot, and what finishing a world
//! awards and removes. All state lives in a [`store::Store`]; every operation
//! on it states its effect over the store's tables.

pub mod admission;
pub mod cells;
pub mod claim;
pub mod commands;
pub mod export;
pub mod finish;
pub mod lifecycle;
pub mod overview;
pub mod paginate;
pub mod points;
pub mod resolver;
pub mod scrape;
pub mod seqs;
pub mod slots;
pub mod status;
pub mod store;
pub mod text;
pub mod tracking;
pub mod validate;
pub mod worlds;
