//! Building blocks of an agent loop: memory, tool middleware and observability.
pub mod assoc;
pub mod double;
pub mod error;
pub mod hashing;
pub mod ids;
pub mod json;
pub mod memory;
pub mod message;
pub mod middleware;
pub mod numeric;
pub mod observability;
pub mod ordering;
pub mod selection;
pub mod single;
pub mod text;
