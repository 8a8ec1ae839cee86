//! An engine for literal patterns only, which needs no regex library.
//!
//! Only patterns that a raw byte search resolves exactly are accepted. Anything
//! that needs a real regex engine is rejected when it is compiled.

use crate::config::Config;
use crate::engine::{Engine, Found, Span};
use crate::error::{CompileError, EngineError};
use crate::finder::{
    find, finder_needle, first_occurrence, is_first_occurrence, lemma_first_occurrence, new_finder,
    occurs_at,
};
use crate::literal::{is_plain, plain_literal};
use memchr::memmem;
use vstd::prelude::*;
use vstd::slice::slice_subrange;
use vstd::utf8::*;

verus! {

/// Whether `byte` is an ASCII letter, an ASCII digit or an underscore.
pub open spec fn is_ascii_word_byte(byte: u8) -> bool {
    let c = byte as char;
    ||| '0' <= c <= '9'
    ||| 'A' <= c <= 'Z'
    ||| 'a' <= c <= 'z'
    ||| c == '_'
}

/// Whether no ASCII word character touches the span from `start` to `end`.
pub open spec fn no_ascii_word_beside(line: Seq<u8>, start: usize, end: usize) -> bool {
    &&& !(end < line.len() && is_ascii_word_byte(line[end as int]))
    &&& !(start > 0 && is_ascii_word_byte(line[start - 1]))
}

fn is_ascii_word(byte: u8) -> (word: bool)
    ensures
        word == is_ascii_word_byte(byte),
{
    let c = byte as char;
    ('0' <= c && c <= '9') || ('A' <= c && c <= 'Z') || ('a' <= c && c <= 'z') || c == '_'
}

/// The word-boundary check of `-w`.
///
/// There is no encoding table to consult here, so the check is ASCII-only. That
/// is enough for the literal patterns that this engine accepts, which are
/// themselves ASCII.
pub fn is_word_match(line: &[u8], start: usize, end: usize) -> (alone: bool)
    requires
        start <= line@.len(),
    ensures
        alone == no_ascii_word_beside(line@, start, end),
{
    if end < line.len() && is_ascii_word(line[end]) {
        return false;
    }
    if start > 0 && is_ascii_word(line[start - 1]) {
        return false;
    }
    true
}

/// A literal pattern, ready to be searched for.
pub struct CompiledPattern {
    needle: Vec<u8>,
    finder: memmem::Finder<'static>,
}

/// The exit status and the text with which a pattern that is no literal is
/// rejected.
pub open spec fn literal_only_error() -> (i32, Seq<char>) {
    (
        2,
        "this build supports ASCII literal patterns only; rebuild with the `oniguruma` feature for full regex support"@,
    )
}

impl CompiledPattern {
    /// The bytes searched for.
    pub closed spec fn needle(&self) -> Seq<u8> {
        self.needle@
    }

    #[verifier::type_invariant]
    spec fn valid(&self) -> bool {
        &&& self.needle@.len() > 0
        &&& finder_needle(self.finder) == self.needle@
    }
}

impl Engine for CompiledPattern {
    open spec fn compiles_to(
        pattern: Seq<char>,
        config: Config,
        outcome: Result<Self, (i32, Seq<char>)>,
    ) -> bool {
        match outcome {
            Ok(this) => is_plain(pattern, config.ignore_case, config.regex_mode) && this.needle()
                == encode_utf8(pattern),
            Err(error) => !is_plain(pattern, config.ignore_case, config.regex_mode) && error
                == literal_only_error(),
        }
    }

    open spec fn warning_of(pattern: Seq<char>, config: Config) -> Option<Seq<char>> {
        None
    }

    open spec fn leftmost(&self, line: Seq<u8>, offset: usize) -> Found {
        match first_occurrence(line, self.needle(), offset) {
            Some(at) => Ok(Some((at as usize, (at + self.needle().len()) as usize))),
            None => Ok(None),
        }
    }

    open spec fn longest(&self, line: Seq<u8>, start: usize) -> Result<
        Option<usize>,
        (i32, Seq<char>),
    > {
        if occurs_at(line, self.needle(), start as int) {
            Ok(Some((start + self.needle().len()) as usize))
        } else {
            Ok(None)
        }
    }

    open spec fn stands_alone(line: Seq<u8>, start: usize, end: usize) -> bool {
        no_ascii_word_beside(line, start, end)
    }

    fn compile(pattern: &str, config: &Config) -> (compiled: Result<Self, CompileError>) {
        let needle = match plain_literal(pattern, config.ignore_case, config.regex_mode) {
            Some(needle) => needle,
            None => {
                return Err(
                    CompileError {
                        code: 2,
                        message: "this build supports ASCII literal patterns only; rebuild with the `oniguruma` feature for full regex support".to_string(),
                    },
                );
            },
        };
        proof {
            is_ascii_chars_encode_utf8(pattern@);
        }
        let finder = new_finder(needle.as_slice());
        Ok(CompiledPattern { needle, finder })
    }

    fn warning(pattern: &str, config: &Config) -> (text: Option<String>) {
        None
    }

    fn search_leftmost(&self, line: &[u8], offset: usize) -> (outcome: Result<
        Option<Span>,
        EngineError,
    >) {
        proof {
            use_type_invariant(self);
        }
        let rest = slice_subrange(line, offset, line.len());
        let ghost needle = self.needle@;
        proof {
            assert forall|i: int| #[trigger] occurs_at(rest@, needle, i) <==> i >= 0 && occurs_at(
                line@,
                needle,
                offset + i,
            ) by {
                if i >= 0 && offset + i + needle.len() <= line@.len() {
                    assert(rest@.subrange(i, i + needle.len()) =~= line@.subrange(
                        offset + i,
                        offset + i + needle.len(),
                    ));
                }
            }
        }
        match find(&self.finder, rest) {
            Some(relative) => {
                let start = offset + relative;
                proof {
                    assert(is_first_occurrence(line@, needle, offset, start as int)) by {
                        assert forall|i: int| offset <= i < start implies !occurs_at(
                            line@,
                            needle,
                            i,
                        ) by {
                            assert(!occurs_at(rest@, needle, i - offset));
                        }
                    }
                    lemma_first_occurrence(line@, needle, offset, start as int);
                }
                Ok(Some((start, start + self.needle.len())))
            },
            None => {
                proof {
                    assert forall|at: int| !is_first_occurrence(line@, needle, offset, at) by {
                        assert(!occurs_at(rest@, needle, at - offset));
                    }
                }
                Ok(None)
            },
        }
    }

    fn longest_end_at(&self, line: &[u8], start: usize) -> (outcome: Result<
        Option<usize>,
        EngineError,
    >) {
        if start > line.len() || self.needle.len() > line.len() - start {
            return Ok(None);
        }
        let end = start + self.needle.len();
        let mut i: usize = 0;
        while i < self.needle.len()
            invariant
                i <= self.needle@.len(),
                end == start + self.needle@.len(),
                end <= line@.len(),
                forall|k: int| 0 <= k < i ==> line@[start + k] == #[trigger] self.needle@[k],
            decreases self.needle@.len() - i,
        {
            if line[start + i] != self.needle[i] {
                assert(line@.subrange(start as int, end as int)[i as int] != self.needle@[i as int]);
                return Ok(None);
            }
            i += 1;
        }
        assert(line@.subrange(start as int, end as int) =~= self.needle@);
        Ok(Some(end))
    }

    fn is_match(&self, line: &[u8]) -> (outcome: Result<bool, EngineError>) {
        match self.search_leftmost(line, 0) {
            Ok(span) => Ok(span.is_some()),
            Err(error) => Err(error),
        }
    }

    fn is_word_match(line: &[u8], start: usize, end: usize) -> (alone: bool) {
        self::is_word_match(line, start, end)
    }
}

} // verus!
