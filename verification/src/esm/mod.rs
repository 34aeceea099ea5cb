//! # `esm` — the Epistemic State Machine (the NPC *mind*)
//!
//! **An NPC knows what it has seen, heard, or been told — and nothing else.**
//!
//! | Module | Is |
//! |---|---|
//! | [`kanren`] | The relational solver: unify / fresh / conj / disj / run. |
//! | [`belief`] | Global baseline plus per-entity deltas. |
//! | [`intent`] | Reading a mind's guess about the player: confidence *is* the solution count. |
//! | [`decay`] | Memory eroding with motion, deterministically. |
//!
//! Determinism is not negotiable: randomness is *injected* as a seeded
//! [`decay::Rng`]; same seed and same inputs give the same beliefs, always.
pub mod belief;
pub mod decay;
pub mod intent;
pub mod kanren;

pub use belief::{holds, Baseline, Delta, Fact, Mind};
pub use decay::{retained_instructions, Rng};
pub use intent::{classify, read_intent, Read};
pub use kanren::{
    conj, conj_all, disj, disj_any, eq, fail, fresh, membero, run, succeed, unify, Goal, State, Subst,
    Term, Var,
};
