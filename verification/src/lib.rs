//! A small, verified build-automation library in the style of `make`.
//!
//! The library parses a makefile text into a variable store and a list of
//! raw rules, merges those into finalized rules, and decides, from a
//! snapshot of file modification times, exactly which recipe lines must
//! run to bring a target up to date.  Everything that touches the outside
//! world (reading files, spawning processes, querying timestamps) is left
//! to the caller: the parser suspends when it needs the text of a nested
//! makefile or the output of a `$(shell ...)` command, and the
//! build step returns a plan of commands instead of running them.

pub mod errors;
pub mod text;
pub mod vars;
pub mod expand;
pub mod makefile;
pub mod loader;
