//! Scores for ensembles of districting plans.
//!
//! An ensemble is a chain of plans; a plan assigns every node of a graph to a district. The library
//! decides what a run asks for, reads graphs, follows plans, and states for every plan the counts or
//! the numbers to add up. Reading files, adding floating-point numbers and writing tables is left to
//! the program around it.
use crate::cli::{is_job, makes_job, refuses, Cli, Job};
use crate::error::Error;
use vstd::prelude::*;

pub mod cli;
pub mod coin;
pub mod commands;
pub mod district;
pub mod error;
pub mod frames;
pub mod geometry;
pub mod graph;
pub mod graph_check;
pub mod graph_laws;
pub mod input;
pub mod metrics;
pub mod output;
pub mod path;
pub mod pipeline;
pub mod text;

verus! {

/// Turn a command line into a job. See [`cli::run`].
pub fn run<W>(cli: Cli, one: W, zero: W) -> (r: Result<Job<W>, Error>)
    ensures
        r is Ok <==> makes_job(cli),
        r matches Err(e) ==> refuses(cli, e),
        r matches Ok(job) ==> is_job(cli, one, zero, job),
{
    cli::run(cli, one, zero)
}

} // verus!
