//! Training: corpus word counts, the initial alphabet, configuration and
//! progress reporting.

pub mod alphabet;
pub mod config;
pub mod corpus;
pub mod progress;
pub mod wordpiece;

pub use alphabet::extract_alphabet;
pub use config::TrainingConfig;
pub use corpus::WordCounts;
pub use progress::{NoOpProgress, PrintProgress, ProgressCallback, TrainingProgress};
pub use wordpiece::WordPieceTrainer;
