use vstd::prelude::*;

verus! {

/// The error kinds of the early version of the file system, kept for callers
/// that still name them.
#[derive(Debug)]
pub enum Error {
    InvalidPreamble(String),
    InvalidStringBuffer(String),
    EmptyPath(String),
    InvalidPath(String),
    InvalidDirective(String),
}

} // verus!
