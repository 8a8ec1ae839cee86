//! What can go wrong.

use vstd::prelude::*;

verus! {

/// A failure of the regex engine: its number and its text.
#[derive(Debug)]
pub struct EngineError {
    pub code: i32,
    pub message: String,
}

impl View for EngineError {
    type V = (i32, Seq<char>);

    open spec fn view(&self) -> (i32, Seq<char>) {
        (self.code, self.message@)
    }
}

/// A pattern that cannot be searched for: the exit status that the program
/// owes, and the text that explains it.
#[derive(Debug)]
pub struct CompileError {
    pub code: i32,
    pub message: String,
}

impl View for CompileError {
    type V = (i32, Seq<char>);

    open spec fn view(&self) -> (i32, Seq<char>) {
        (self.code, self.message@)
    }
}

/// Why the matches of a line could not be listed.
#[derive(Debug)]
pub enum MatchError {
    /// The engine gave up on a search.
    Engine(EngineError),
    /// The engine reported a match that starts behind the end of the line.
    OutOfLine,
    /// The matches lead back to where they came from, so that they never end.
    Stalled,
}

/// The mathematical counterpart of [`MatchError`].
pub enum Fault {
    Engine(i32, Seq<char>),
    OutOfLine,
    Stalled,
}

impl View for MatchError {
    type V = Fault;

    open spec fn view(&self) -> Fault {
        match self {
            MatchError::Engine(error) => Fault::Engine(error.code, error.message@),
            MatchError::OutOfLine => Fault::OutOfLine,
            MatchError::Stalled => Fault::Stalled,
        }
    }
}

} // verus!
