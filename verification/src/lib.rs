//! Solvers for a series of small submarine-themed puzzles: sonar sweeps,
//! course plotting, diagnostics, bingo, vent maps, lanternfish populations,
//! crab alignment, seven-segment decoding, smoke basins, chunk syntax
//! checking, octopus flash cascades, cave path enumeration, transparent-paper
//! folding, polymer expansion, and a chiton risk grid.
//!
//! Every solver is a pure in-memory computation: callers hand in the already
//! read input bytes and get plain integers back.

pub mod bingo;
pub mod bytes;
pub mod caves;
pub mod chiton;
pub mod crabs;
pub mod diagnostics;
pub mod dive;
pub mod lanternfish;
pub mod octopus;
pub mod origami;
pub mod polymer;
pub mod segments;
pub mod smoke;
pub mod sonar;
pub mod syntax;
pub mod vents;
