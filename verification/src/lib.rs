//! Dataflow analysis of small WHILE programs: syntax trees, control-flow
//! graphs, a reference interpreter and a maximal-fixed-point solver with
//! two analyses, constant propagation and available expressions.

pub mod common;
pub mod aexp;
pub mod bexp;
pub mod ast;
pub mod exp_set;
pub mod text;
pub mod grammar;
pub mod parser;
pub mod round_trip;
pub mod grouping;
pub mod graph;
pub mod cfg;
pub mod well_formed;
pub mod reach;
pub mod alike;
pub mod interpreter;
pub mod flow_analysis;
pub mod simulation;
