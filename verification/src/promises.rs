//! What the operations are for.
//!
//! Each law below speaks of a call: of its arguments, and of what it gives back. It says in plain
//! terms what must hold between them, on all arguments.
pub mod dates;
pub mod exchange;
pub mod grids;
pub mod inputs;
pub mod reals;
pub mod results;
pub mod scenes;
pub mod signal;
pub mod stacks;
pub mod texts;
