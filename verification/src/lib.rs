//! Breadth-first search for solutions of the Post Correspondence Problem.
//!
//! A problem is a list of pairs of words. A solution is a sequence of pairs
//! whose top words, one after the other, read the same as its bottom words.
//!
//! The words are packed into bit strings ([`pair::SPart`], encoded by
//! [`alphabet::Alphabet`]). For every sequence of pairs that may still
//! become a solution the search keeps the bits by which one side is ahead of
//! the other ([`pair::VPair`], with [`residual`] as its mathematics), and
//! extends it pair by pair, one length of sequences at a time ([`solve`],
//! with [`search`] as its mathematics). The nodes of the search live in
//! buffers of fixed size that a pool recycles ([`chunk_vec`]).

pub mod alphabet;
pub mod analyze;
pub mod bits;
pub mod chunk_vec;
pub mod config;
pub mod merge;
pub mod pair;
pub mod residual;
pub mod search;
pub mod solve;
pub mod stats;
