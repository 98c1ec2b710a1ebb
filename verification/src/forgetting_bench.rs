//! Task sequences of the continual-learning benchmark. The accuracy
//! metrics computed over them are floating-point work that lives with the
//! application.

use vstd::prelude::*;

verus! {

/// A sequence of tasks used in continual learning evaluation. Each task is
/// learned in turn; after each, accuracy is measured on all tasks seen so
/// far.
#[derive(Debug, Clone)]
pub struct TaskSequence {
    /// Name identifying the sequence.
    pub name: String,
    /// Ordered list of tasks in the sequence.
    pub tasks: Vec<TaskSpec>,
}

/// Specification of one task of a continual-learning benchmark.
#[derive(Debug, Clone)]
pub struct TaskSpec {
    /// Zero-based task index within the sequence.
    pub id: usize,
    /// Human-readable name of the learning problem.
    pub name: String,
    /// Number of training examples.
    pub n_train: usize,
    /// Number of test examples.
    pub n_test: usize,
}

} // verus!
