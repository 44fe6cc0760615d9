//! Integer core of an Ising-model toolkit: deterministic random streams, restart schedules,
//! region graphs and their counting numbers, the level-2 moment basis, Sourlas codes,
//! run-length distributions, minimum cuts read off residual networks, and the bookkeeping around
//! them.

pub mod gbp;
pub mod graph;
pub mod labelling;
pub mod layout;
pub mod objective;
pub mod receipt;
pub mod receipt_law;
pub mod region;
pub mod relink;
pub mod residual;
pub mod restart;
pub mod rld;
pub mod rng;
pub mod samples;
pub mod sos;
pub mod sourlas;
pub mod sparsify;
pub mod text;
