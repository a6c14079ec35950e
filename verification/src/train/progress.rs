//! Progress reporting for training.

use vstd::prelude::*;

verus! {

/// Information about the current training progress.
#[derive(Debug, Clone)]
pub struct TrainingProgress {
    /// Current vocabulary size
    pub current_vocab_size: usize,
    /// Target vocabulary size
    pub target_vocab_size: usize,
    /// Current iteration number
    pub iteration: usize,
    /// The pair that was just merged (if any)
    pub merged_pair: Option<(String, String)>,
    /// The resulting merged token (if any)
    pub merged_token: Option<String>,
}

/// Receives training progress updates.
///
/// Implement this trait to receive callbacks during vocabulary training.
pub trait ProgressCallback {
    /// Called when training starts.
    fn on_start(&mut self, target_vocab_size: usize, initial_vocab_size: usize);

    /// Called after each merge iteration.
    fn on_progress(&mut self, progress: &TrainingProgress);

    /// Called when training completes.
    fn on_complete(&mut self, final_vocab_size: usize);
}

/// A progress callback that does nothing.
///
/// Use this when you don't need progress reporting.
#[derive(Debug)]
pub struct NoOpProgress;

impl Default for NoOpProgress {
    fn default() -> (r: Self) {
        NoOpProgress
    }
}

impl ProgressCallback for NoOpProgress {
    fn on_start(&mut self, _target_vocab_size: usize, _initial_vocab_size: usize) {
    }

    fn on_progress(&mut self, _progress: &TrainingProgress) {
    }

    fn on_complete(&mut self, _final_vocab_size: usize) {
    }
}

/// Settings of a progress callback that reports on stderr every N iterations.
#[derive(Debug)]
pub struct PrintProgress {
    /// How often to print (every N iterations)
    pub print_every_n_iteration: usize,
}

/// Whether `n` is a multiple of `m` (only 0 is a multiple of 0).
pub open spec fn spec_is_multiple_of(n: usize, m: usize) -> bool {
    if m == 0 {
        n == 0
    } else {
        n % m == 0
    }
}

impl PrintProgress {
    /// Reports every `print_every_n_iteration` iterations.
    pub fn new(print_every_n_iteration: usize) -> (r: Self)
        ensures
            r.print_every_n_iteration == print_every_n_iteration,
    {
        PrintProgress { print_every_n_iteration }
    }

    /// Whether iteration `iteration` is reported: every N-th iteration,
    /// and the first.
    pub fn should_report(&self, iteration: usize) -> (r: bool)
        ensures
            r == (spec_is_multiple_of(iteration, self.print_every_n_iteration) || iteration == 1),
    {
        let multiple = if self.print_every_n_iteration == 0 {
            iteration == 0
        } else {
            iteration % self.print_every_n_iteration == 0
        };
        multiple || iteration == 1
    }
}

impl Default for PrintProgress {
    /// Reports every 100 iterations.
    fn default() -> (r: Self)
        ensures
            r.print_every_n_iteration == 100,
    {
        PrintProgress { print_every_n_iteration: 100 }
    }
}

} // verus!
