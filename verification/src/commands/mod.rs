//! The commands of the command line, as far as they decide things.

pub mod new;
pub mod serve;
