//! Log lines with a level: which lines a logger lets through, and how a line
//! is written. Printing is left to the caller.

pub mod level;
pub mod logger;

pub use crate::trace::level::Level;
pub use crate::trace::logger::Logger;
