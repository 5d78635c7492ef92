//! Round elimination on locally checkable problems: labels, groups of labels,
//! configurations (lines) and constraints, with the operations that the round
//! elimination technique performs on them.

pub mod group;
pub mod text;
pub mod part;
pub mod order;
pub mod line;
pub mod normalize;
pub mod parse;
pub mod flow;
pub mod inclusion;

pub mod constraint;
pub mod reading;
pub mod problem;
pub mod edit;
pub mod relax;
pub mod sorting;
pub mod renaming;
pub mod harden;
pub mod maximize;
pub mod strength;
pub mod pairing;
pub mod clique;
pub mod choices;
pub mod speedup;
pub mod triviality;
pub mod coloring;
pub mod orientation;
pub mod star_relaxation;
pub mod lines_trivial;
pub mod custom;
pub mod directed;
pub mod assign;
pub mod hypergraph;
pub mod serial;
pub mod laws;
