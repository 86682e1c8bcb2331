//! Constrained shortest-path and longest-path search over two-dimensional
//! grids, with run-length limited movement, corridor contraction into a
//! junction graph, and period detection for repeating simulations.
//! Every executable function carries a contract that is machine checked.
//!
//! The three searches:
//! - [`pathfinder::shortest_constrained_path`]: the cheapest walk under
//!   limits on straight runs, over the states of [`state_space`], with the
//!   queue of [`heap`]; [`walks`] relates it to walks without limits.
//! - [`trails::longest_simple_path`]: the longest walk that enters no
//!   cell twice, found in the graph of junctions that [`trails`] contracts
//!   the grid into and [`graph`] searches; [`trail_laws`] and
//!   [`corridors`] relate the graph to the walks on the grid.
//! - [`period::detect_period_and_project`]: the state of a simulation far
//!   ahead, found from its first repetition.
//!
//! [`grid`] holds the grid itself and [`text`] reads grids and numbers
//! from bytes. The modules [`tuples`], [`sorting`], [`numbers`],
//! [`chance`] and [`patterns`] hold what is taken from other crates. The
//! modules named after days solve one puzzle each with these parts.

pub mod chance;
pub mod corridors;
pub mod day01;
pub mod day02;
pub mod day03;
pub mod day04;
pub mod day05;
pub mod day07;
pub mod day08;
pub mod day09;
pub mod day10;
pub mod day11;
pub mod day12;
pub mod day13;
pub mod day14;
pub mod day15;
pub mod day16;
pub mod day17;
pub mod day18;
pub mod day19;
pub mod day20;
pub mod day21;
pub mod day22;
pub mod day23;
pub mod day24;
pub mod day25;
pub mod graph;
pub mod grid;
pub mod heap;
pub mod numbers;
pub mod pathfinder;
pub mod patterns;
pub mod period;
pub mod sorting;
pub mod state_space;
pub mod text;
pub mod trail_laws;
pub mod trails;
pub mod tuples;
pub mod walks;
