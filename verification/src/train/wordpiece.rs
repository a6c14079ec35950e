//! WordPiece trainer.

use vstd::prelude::*;
use super::config::TrainingConfig;

verus! {

/// A word split into subword units during training.
#[derive(Debug, Clone)]
#[allow(dead_code)]
struct Word {
    /// The subword units (initially individual characters)
    symbols: Vec<String>,
    /// How many times this word appears in the corpus
    count: usize,
}

/// WordPiece trainer that builds a vocabulary from a corpus.
pub struct WordPieceTrainer {
    config: TrainingConfig,
}

impl WordPieceTrainer {
    /// The trainer's configuration.
    pub closed spec fn spec_config(&self) -> TrainingConfig {
        self.config
    }

    /// Creates a new trainer with the given configuration.
    pub fn new(config: TrainingConfig) -> (r: Self)
        ensures
            r.spec_config() == config,
    {
        Self { config }
    }

    /// The trainer's configuration.
    pub fn config(&self) -> (r: &TrainingConfig)
        ensures
            *r == self.spec_config(),
    {
        &self.config
    }
}

} // verus!
