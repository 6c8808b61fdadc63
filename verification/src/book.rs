//! The program that a net belongs to.
use crate::name::Name;
use vstd::prelude::*;

verus! {

/// The names of the definitions of a program, which the nodes of its nets refer to.
#[derive(Debug, PartialEq, Eq)]
pub struct Book {
    pub defs: Vec<Name>,
}

impl Book {
    /// A program without definitions.
    pub fn new() -> (book: Book)
        ensures
            book.defs@.len() == 0,
    {
        Book { defs: Vec::new() }
    }
}

} // verus!
