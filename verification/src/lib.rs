//! A library for running a set of named, inter-dependent tasks so that every
//! task executes only after all tasks it depends on have completed
//! successfully, while independent tasks may run concurrently.
//!
//! The crate is organised in four modules:
//!
//! - [`autofile`]: the plain records a task-definition file is loaded into,
//!   and their validation against reused names.
//! - [`queue`]: the dependency-graph scheduler. [`queue::TaskQueue`] keeps
//!   the ready/blocked partition of tasks and a reverse-dependency index, and
//!   is built by a depth-first planner that rejects cyclic or dangling
//!   dependencies.
//! - [`planner`]: a stand-alone scheduling queue with the same bookkeeping,
//!   for callers that validate task sets themselves.
//! - [`coordinator`]: the run loop's decision logic: which task to dispatch
//!   next, how each outcome changes the schedule, and the final report.
//!
//! Launching the external commands, capturing their output and the
//! command-line front end are left to the embedding program; the library
//! deals in plain task values and outcomes.
#![verifier::loop_isolation(false)]

pub mod autofile;
pub mod coordinator;
pub mod planner;
pub mod queue;
