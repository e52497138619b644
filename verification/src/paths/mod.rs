pub mod finder;

pub use finder::{RetentionPath, RetentionPathFinder};
