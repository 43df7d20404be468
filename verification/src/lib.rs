//! Scoring of glider flights by the rules of the OLC Classic task.
//!
//! A flight is a sequence of fixes in the order of time. Its score is the
//! length of the longest task through it: a path of six legs over seven of
//! its fixes, in the order of the flight, whose finish lies at most 1000 m
//! below its start.
//!
//! The fixes come as positions on a plane, in whole units of a length that
//! the caller chooses, so that every distance and every total is a whole
//! number and the search is exact.
//!
//! - `point`: a fix, and the altitude rule;
//! - `flat`: the distance between two fixes;
//! - `matrix`: the distances between all fixes of a flight, and the length
//!   of a path;
//! - `graph`: the best partial tasks to every fix, layer by layer;
//! - `olc`: the search for the best task;
//! - `igc`: fixes from the lines of a flight log.

pub mod flat;
pub mod graph;
pub mod igc;
pub mod matrix;
pub mod olc;
pub mod point;
