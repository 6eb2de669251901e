//! What an agent remembers: entries, their consolidation and their stores.
pub mod answer;
pub mod builtin;
pub mod calendar;
pub mod capped_line;
pub mod clip;
pub mod consolidate;
pub mod entry;
pub mod extractor;
pub mod file;
pub mod ledger;
pub mod lines;
pub mod mining;
pub mod prompt;
pub mod registry;
pub mod rewrite;
pub mod score;
pub mod tokens;
pub mod trajectory;
pub mod vector;
