//! The error a reader reports.
use vstd::prelude::*;

verus! {

#[derive(Debug)]
struct ErrorImpl {
    line: usize,
    column: usize,
}

/// An error of the stream format, placed by line and column (line 0, the
/// column a byte offset).
#[derive(Debug)]
pub struct Error {
    err: Box<ErrorImpl>,
}

impl View for Error {
    type V = (nat, nat);

    closed spec fn view(&self) -> (nat, nat) {
        (self.err.line as nat, self.err.column as nat)
    }
}

impl Error {
    /// The error for a read that started at byte `offset`.
    pub fn at(offset: usize) -> (e: Error)
        ensures
            e@ == (0nat, offset as nat),
    {
        Error { err: Box::new(ErrorImpl { line: 0, column: offset }) }
    }

    pub fn line(&self) -> (r: usize)
        ensures
            r == self@.0,
    {
        self.err.line
    }

    pub fn column(&self) -> (r: usize)
        ensures
            r == self@.1,
    {
        self.err.column
    }
}

} // verus!
