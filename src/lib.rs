//! A connection game on a configurable grid (Connect Four by default), with
//! a rule engine, a static evaluator and an alpha-beta search opponent.

pub mod model;
pub mod rules;
pub mod heuristic;
pub mod search;
pub mod selector;
pub mod laws;
pub mod names;
