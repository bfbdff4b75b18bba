//! Monte Carlo estimation of a project's completion time and total effort.
//!
//! A project is a set of tasks with uncertain durations, dependency edges
//! between them and a pool of interchangeable workers. The crate validates
//! such a project, turns random draws into task durations, plays out single
//! randomized trials of the project and collects many trials into paired
//! sequences of project durations and efforts.
//!
//! - [`task`] and [`schedule`] hold the project and the rules that it has
//!   to meet.
//! - [`graph`] holds the dependency graph, the search for cycles in it and
//!   the lists of dependents.
//! - [`trial`] holds the state of one trial and its steps, [`invariants`]
//!   what every state of a trial keeps.
//! - [`sampler`] turns random draws into sampled durations.
//! - [`simulation`] runs trials, one or many.
//! - [`series`] holds sums, least and greatest entries of sequences of
//!   times.
//!
//! Times are whole nanoseconds; the confidence of the estimates is given in
//! millionths.

pub mod graph;
pub mod invariants;
pub mod sampler;
pub mod schedule;
pub mod series;
pub mod simulation;
pub mod task;
pub mod trial;
