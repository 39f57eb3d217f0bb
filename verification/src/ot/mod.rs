//! 1-of-2 oblivious transfer in the style of Chou and Orlandi, over the
//! Ristretto group.

pub mod group;
pub mod sender;
pub mod receiver;
pub mod api;
