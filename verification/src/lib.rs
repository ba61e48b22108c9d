//! Casino blackjack rules engine, verified.
//!
//! All game state lives here: cards, hands, chips, the table state
//! machine, the living table of AI opponents, and the session arc around
//! the human's rack. Frontends consume snapshots and never compute rules
//! themselves.

pub mod action;
pub mod backend;
pub mod card;
pub mod chips;
pub mod display;
pub mod driver;
pub mod event;
pub mod gesture;
pub mod hand;
pub mod help;
pub mod input;
pub mod keyboard;
pub mod life;
pub mod motion;
pub mod rng;
pub mod persona;
pub mod rules;
pub mod scene;
pub mod session;
pub mod shoe;
pub mod snapshot;
pub mod staging;
pub mod strategy;
pub mod table;
pub mod text;

use vstd::prelude::*;

verus! {

/// Engine version, exposed so shells can report what they embed.
pub const ENGINE_VERSION: &'static str = "0.1.0";

} // verus!
