//! What running a compiled program gives.
use vstd::prelude::*;
use std::time::Duration;
use crate::engine::clock::{duration_from_secs, secs_duration};

verus! {

/// How long a program may run.
#[derive(Debug, Clone, Copy)]
pub struct TimeoutConfig {
    pub execution_timeout: Duration,
}

impl Default for TimeoutConfig {
    /// Five seconds.
    fn default() -> (t: TimeoutConfig)
        ensures
            t.execution_timeout == secs_duration(5),
    {
        TimeoutConfig { execution_timeout: duration_from_secs(5) }
    }
}

impl TimeoutConfig {
    /// A limit of `execution_secs` seconds.
    pub fn new(execution_secs: u64) -> (t: TimeoutConfig)
        ensures
            t.execution_timeout == secs_duration(execution_secs),
    {
        TimeoutConfig { execution_timeout: duration_from_secs(execution_secs) }
    }
}

/// The outcome of one run of a program.
#[derive(Debug, Clone)]
pub struct ExecutionResult {
    /// The program exited before the time limit.
    pub completed: bool,
    pub timed_out: bool,
    pub stdout: String,
    pub stderr: String,
    /// The exit code, when the program exited with one.
    pub exit_code: Option<i32>,
}

impl ExecutionResult {
    /// The program exited, with code 0.
    pub fn success(&self) -> (r: bool)
        ensures
            r == (self.completed && self.exit_code == Some(0i32)),
    {
        self.completed && match self.exit_code {
            Some(c) => c == 0,
            None => false,
        }
    }
}

/// Runs compiled programs under a time limit.
#[derive(Debug, Clone)]
pub struct Executor {
    pub timeout_config: TimeoutConfig,
}

impl Default for Executor {
    fn default() -> (e: Executor)
        ensures
            e.timeout_config.execution_timeout == secs_duration(5),
    {
        Executor::new(TimeoutConfig::default())
    }
}

impl Executor {
    pub fn new(timeout_config: TimeoutConfig) -> (e: Executor)
        ensures
            e.timeout_config == timeout_config,
    {
        Executor { timeout_config }
    }
}

} // verus!
