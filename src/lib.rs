//! Pairing engine for a Swiss-system elimination tournament.
//!
//! Contestants live in an arena and refer to each other by index. Every
//! ranking metric is recomputed from the game histories on demand, and every
//! operation is specified over the spec functions in [`contestant`].

pub mod game;
pub mod seed;
pub mod contestant;
pub mod criteria;
pub mod ranking;
pub mod pairing;
pub mod tournament;
