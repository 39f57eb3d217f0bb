//! Foundational primitives for multi-party computation: arithmetic in a
//! prime field, Shamir's threshold secret sharing, and 1-of-2 oblivious
//! transfer in the style of Chou and Orlandi.

pub mod error;
pub mod number_theory;
pub mod field;
pub mod poly;
pub mod shamir;
pub mod ot;
