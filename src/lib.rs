//! Finding entries of a zip archive by the words of their names, choosing
//! among them, and reading them out.
pub mod archive;
pub mod command;
pub mod filter;
pub mod selection;
