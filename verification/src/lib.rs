//! A matchmaker for five-a-side matches.
//!
//! Players join a queue with a skill rating. Workers go over the queue in cycles:
//! the longest-waiting player comes first, the tolerance for other ratings grows
//! with the wait, and ten players who are close enough form a match of the two
//! most even teams they allow.
//!
//! All quantities are whole numbers or exact fractions (see [`fixed`]), and a
//! function that depends on the time takes it, or where it comes from, as an
//! argument; readings of the clocks come from [`clock`].
//!
//! - [`player`], [`pool`]: a player's state, and the queue.
//! - [`balance`], [`record`], [`match_id`]: teams, match records and their names.
//! - [`cycle`], [`pass`]: what a cycle is, and how it is carried out.
//! - [`engine`], [`metrics`], [`config`]: the queue with its figures and settings.
//! - [`api`]: what requests do and are answered.
//! - [`turns`], [`laws`]: what holds of each turn, of whole cycles and of many workers
//!   at once.

pub mod api;
pub mod balance;
pub mod clock;
pub mod config;
pub mod cycle;
pub mod engine;
pub mod fixed;
pub mod laws;
pub mod match_id;
pub mod metrics;
pub mod pass;
pub mod player;
pub mod pool;
pub mod record;
pub mod sorting;
pub mod turns;
