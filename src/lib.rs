//! Evaluation and decision engine for a five-card draw-and-meld card game.
//!
//! The library scores hands against the meld table, builds a sampled tree of
//! possible future draws, aggregates that tree into per-round outcome
//! distributions and turns them into a play / draw decision for a risk profile.
pub mod analysis;
pub mod card;
pub mod game;
pub mod policy;
mod random;
pub mod scoring;
