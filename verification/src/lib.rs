//! Core of a Durak ("podkidnoy" with trump-reflect) engine: the game state
//! machine, the legal-move generator with hidden-card reasoning, and the
//! building blocks of a determinized Monte-Carlo tree search.
//!
//! `cards` holds the value types; `collection` the knowledge store and its
//! card accounting; `game` the position, its invariant, dealing and tricks;
//! `legal` the move generator; `execute` the action executor; `deal` the
//! hidden-information operations (lazy reveals, masking, determinizing);
//! `mcts` the search tree; `laws` the global laws in one place; and `rng`
//! the one trusted boundary to the random number generator.
#![verifier::loop_isolation(false)]

pub mod cards;
pub mod collection;
pub mod deal;
pub mod execute;
pub mod game;
pub mod laws;
pub mod legal;
pub mod mcts;
pub mod rng;
