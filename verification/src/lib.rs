//! Entity identity, a hierarchical transform store with explicit dirty
//! propagation, and an orbit camera controller.
//!
//! The store is generic in the data it carries: a local transform `L` and a
//! world matrix `W`. The arithmetic that turns one into the other is handed
//! in by the caller, so every guarantee here holds for any such arithmetic.

pub mod entity;
pub mod hierarchy;
pub mod transform;
pub mod propagate;
pub mod orbit;
