//! A small build tool's core: reads a description of named targets, decides which of them
//! are stale by the modification times of their files, and walks their dependencies to
//! say which commands to run, and in which order.

pub mod executor;
pub mod parse;
pub mod stale;
pub mod target;
pub mod text;

pub use executor::{Action, Build, BuildError, Event, Outcome};
pub use parse::{parse_makefile, ParseError};
pub use stale::FileTimes;
pub use target::{Makefile, Target};
