//! Trust computation and verification core: a positive EigenTrust solver over
//! a sparse weighted trust graph, a one-step verifier for submitted scores,
//! and dense Merkle commitments over score vectors.
//!
//! Scores and trust weights are IEEE-754 binary32 values carried as their bit
//! patterns (`u32`); the arithmetic on them is done by a software
//! implementation of the standard, so results are bit-identical on every host.

pub mod single;
pub mod trust;
pub mod et;
pub mod merkle;
pub mod tx;
pub mod domain;
pub mod runner;
