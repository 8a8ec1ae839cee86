//! What the matcher asks of a pattern engine.

use crate::config::Config;
use crate::error::{CompileError, EngineError};
use vstd::prelude::*;

verus! {

/// A match: the positions of its first byte and of the byte behind its last.
pub type Span = (usize, usize);

/// What a search yields: a span or none, or the number and text of a failure.
pub type Found = Result<Option<Span>, (i32, Seq<char>)>;

/// The mathematical value of the outcome of a search.
pub open spec fn found(outcome: Result<Option<Span>, EngineError>) -> Found {
    match outcome {
        Ok(span) => Ok(span),
        Err(error) => Err(error@),
    }
}

/// A pattern that an engine has compiled.
pub trait Engine: Sized {
    /// Whether compiling `pattern` under `config` may end in `outcome`.
    spec fn compiles_to(
        pattern: Seq<char>,
        config: Config,
        outcome: Result<Self, (i32, Seq<char>)>,
    ) -> bool;

    /// The text of the warning that `pattern` draws under `config`, if any.
    spec fn warning_of(pattern: Seq<char>, config: Config) -> Option<Seq<char>>;

    /// The leftmost match in `line` that a search from `offset` finds.
    spec fn leftmost(&self, line: Seq<u8>, offset: usize) -> Found;

    /// The end of the longest match in `line` that starts at `start`, none where
    /// that is behind the end of the line.
    spec fn longest(&self, line: Seq<u8>, start: usize) -> Result<
        Option<usize>,
        (i32, Seq<char>),
    >;

    /// Whether the engine sees no word character beside the span from `start`
    /// to `end` in `line`.
    spec fn stands_alone(line: Seq<u8>, start: usize, end: usize) -> bool;

    /// Compiles `pattern`.
    fn compile(pattern: &str, config: &Config) -> (compiled: Result<Self, CompileError>)
        ensures
            match compiled {
                Ok(this) => Self::compiles_to(pattern@, *config, Ok(this)),
                Err(error) => Self::compiles_to(pattern@, *config, Err(error@)),
            },
    ;

    /// The warning that `pattern` draws, to be shown before it is compiled.
    fn warning(pattern: &str, config: &Config) -> (text: Option<String>)
        ensures
            match text {
                Some(shown) => Self::warning_of(pattern@, *config) == Some(shown@),
                None => Self::warning_of(pattern@, *config) is None,
            },
    ;

    /// Finds the leftmost match starting at or after `offset`.
    fn search_leftmost(&self, line: &[u8], offset: usize) -> (outcome: Result<
        Option<Span>,
        EngineError,
    >)
        requires
            offset <= line@.len(),
        ensures
            found(outcome) == self.leftmost(line@, offset),
            outcome matches Ok(Some(span)) ==> span.0 < usize::MAX,
    ;

    /// Given a known leftmost start `start`, the end of the longest match
    /// anchored exactly there.
    fn longest_end_at(&self, line: &[u8], start: usize) -> (outcome: Result<
        Option<usize>,
        EngineError,
    >)
        ensures
            match outcome {
                Ok(end) => self.longest(line@, start) == Ok::<_, (i32, Seq<char>)>(end),
                Err(error) => self.longest(line@, start) == Err::<Option<usize>, _>(error@),
            },
    ;

    /// Whether any match exists in `line`, of length zero or more.
    fn is_match(&self, line: &[u8]) -> (outcome: Result<bool, EngineError>)
        ensures
            match outcome {
                Ok(hit) => self.leftmost(line@, 0) is Ok && hit == (self.leftmost(line@, 0)->Ok_0
                    is Some),
                Err(error) => self.leftmost(line@, 0) == Err::<Option<Span>, _>(error@),
            },
    ;

    /// The word-boundary check of `-w`: no word character touches the match.
    /// Start and end of the line count as non-words.
    fn is_word_match(line: &[u8], start: usize, end: usize) -> (alone: bool)
        requires
            start <= line@.len(),
        ensures
            alone == Self::stands_alone(line@, start, end),
    ;
}

} // verus!
