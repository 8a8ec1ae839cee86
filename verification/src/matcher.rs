//! Deciding whether a line matches, and where.

use crate::config::Config;
use crate::engine::{Engine, Span};
use crate::error::{CompileError, Fault, MatchError};
use crate::finder::{finder_needle, new_finder};
use crate::literal::{is_plain, plain_literal};
use crate::listing::{all_matches, line_matches};
use memchr::memmem;
use vstd::prelude::*;
use vstd::utf8::*;

verus! {

/// Whether `span` counts as a match: under `-x` it has to be the whole line,
/// under `-w` no word character may touch it.
pub open spec fn counts<E: Engine>(config: Config, line: Seq<u8>, span: Span) -> bool {
    &&& config.line_regexp ==> span.0 == 0 && span.1 == line.len()
    &&& config.word_regexp ==> E::stands_alone(line, span.0, span.1)
}

/// Whether patterns are read in the same way under `a` and `b`.
pub open spec fn same_reading(a: Config, b: Config) -> bool {
    &&& a.regex_mode == b.regex_mode
    &&& a.ignore_case == b.ignore_case
    &&& a.null_data == b.null_data
}

/// Whether `a` and `b` judge matches in the same way.
pub open spec fn same_filters(a: Config, b: Config) -> bool {
    &&& a.line_regexp == b.line_regexp
    &&& a.word_regexp == b.word_regexp
    &&& a.invert_match == b.invert_match
}

/// Whether any of the matches `spans` counts.
pub open spec fn any_counts<E: Engine>(config: Config, line: Seq<u8>, spans: Seq<Span>) -> bool {
    exists|i: int| 0 <= i < spans.len() && counts::<E>(config, line, #[trigger] spans[i])
}

/// The matches that are highlighted: those that count and are not empty.
pub open spec fn highlighted<E: Engine>(config: Config, line: Seq<u8>, spans: Seq<Span>) -> Seq<
    Span,
> {
    spans.filter(|span: Span| counts::<E>(config, line, span) && span.0 != span.1)
}

/// The highlights of a line whose matches are `spans`, or `None` where the line
/// is not wanted. A match that counts makes a line wanted, and unwanted under
/// `-v`; an empty match does so too, though there is nothing to highlight.
pub open spec fn selection<E: Engine>(config: Config, line: Seq<u8>, spans: Seq<Span>) -> Option<
    Seq<Span>,
> {
    if any_counts::<E>(config, line, spans) != config.invert_match {
        Some(highlighted::<E>(config, line, spans))
    } else {
        None
    }
}

/// Whether any of `patterns`, from number `from` on, matches in `line`. They
/// are tried in order until one does.
pub open spec fn any_matches<E: Engine>(patterns: Seq<E>, line: Seq<u8>, from: int) -> Result<
    bool,
    Fault,
>
    decreases patterns.len() - from,
{
    if from >= patterns.len() {
        Ok(false)
    } else {
        match patterns[from].leftmost(line, 0) {
            Err(error) => Err(Fault::Engine(error.0, error.1)),
            Ok(Some(_)) => Ok(true),
            Ok(None) => any_matches(patterns, line, from + 1),
        }
    }
}

/// Whether `line` is wanted. The matches are listed only if `-x` or `-w` has to
/// judge them.
pub open spec fn is_wanted<E: Engine>(config: Config, patterns: Seq<E>, line: Seq<u8>) -> Result<
    bool,
    Fault,
> {
    if config.line_regexp || config.word_regexp {
        match line_matches(patterns, line) {
            Err(fault) => Err(fault),
            Ok(spans) => Ok(selection::<E>(config, line, spans) is Some),
        }
    } else {
        match any_matches(patterns, line, 0) {
            Err(fault) => Err(fault),
            Ok(hit) => Ok(hit != config.invert_match),
        }
    }
}

/// Whether every pattern of a search stands for nothing but itself.
pub open spec fn all_plain(config: Config) -> bool {
    forall|i: int|
        0 <= i < config.patterns@.len() ==> is_plain(
            (#[trigger] config.patterns@[i])@,
            config.ignore_case,
            config.regex_mode,
        )
}

/// The bytes to search for in place of the patterns, if that comes to the same.
pub open spec fn literal_needles(config: Config) -> Option<Seq<Seq<u8>>> {
    if config.patterns@.len() > 0 && all_plain(config) {
        Some(config.patterns@.map_values(|pattern: String| encode_utf8(pattern@)))
    } else {
        None
    }
}

/// The needles of `finders`.
pub open spec fn needles_of(finders: Seq<memmem::Finder<'static>>) -> Seq<Seq<u8>> {
    finders.map_values(|finder: memmem::Finder<'static>| finder_needle(finder))
}

/// The warnings that the first `count` patterns of a search draw, in order.
pub open spec fn warnings_of<E: Engine>(config: Config, count: int) -> Seq<Seq<char>>
    decreases count,
{
    if count <= 0 {
        Seq::empty()
    } else {
        match E::warning_of(config.patterns@[count - 1]@, config) {
            Some(text) => warnings_of::<E>(config, count - 1).push(text),
            None => warnings_of::<E>(config, count - 1),
        }
    }
}

/// Whether the engine may accept `pattern`.
pub open spec fn accepts<E: Engine>(config: Config, pattern: Seq<char>) -> bool {
    exists|compiled: E| E::compiles_to(pattern, config, Ok(compiled))
}

/// Whether pattern `k` of a search may be the first that the engine rejects,
/// with the given exit status and text.
pub open spec fn rejects<E: Engine>(config: Config, k: int, error: (i32, Seq<char>)) -> bool {
    &&& 0 <= k < config.patterns@.len()
    &&& forall|i: int| 0 <= i < k ==> accepts::<E>(config, (#[trigger] config.patterns@[i])@)
    &&& E::compiles_to(config.patterns@[k]@, config, Err(error))
}

/// The texts of `strings`.
pub open spec fn texts_of(strings: Seq<String>) -> Seq<Seq<char>> {
    strings.map_values(|string: String| string@)
}

/// Whether `after` is `before` with the warnings of the first `count` patterns
/// appended.
pub open spec fn warned<E: Engine>(
    config: Config,
    count: int,
    before: Seq<String>,
    after: Seq<String>,
) -> bool {
    texts_of(after) == texts_of(before) + warnings_of::<E>(config, count)
}

/// Whether compiling a search may end in `error`: some pattern is the first that
/// the engine rejects, and the warnings are those up to and with that pattern.
pub open spec fn gives_up<E: Engine>(
    config: Config,
    error: (i32, Seq<char>),
    before: Seq<String>,
    after: Seq<String>,
) -> bool {
    exists|k: int| #[trigger]
        rejects::<E>(config, k, error) && warned::<E>(config, k + 1, before, after)
}

/// The patterns of a search, compiled.
pub struct Matcher<'a, E> {
    config: &'a Config<'a>,
    patterns: Vec<E>,
    /// One substring searcher per pattern, present only when every pattern is a
    /// plain literal that a raw byte search resolves exactly. `None` as soon as
    /// a single pattern needs real regex evaluation.
    literal_searchers: Option<Vec<memmem::Finder<'static>>>,
}

impl<'a, E: Engine> Matcher<'a, E> {
    /// The settings of the search.
    pub closed spec fn config(&self) -> Config<'a> {
        *self.config
    }

    /// The compiled patterns.
    pub closed spec fn patterns(&self) -> Seq<E> {
        self.patterns@
    }

    /// The needles of the substring searchers.
    pub closed spec fn needles(&self) -> Option<Seq<Seq<u8>>> {
        match self.literal_searchers {
            Some(finders) => Some(needles_of(finders@)),
            None => None,
        }
    }

    /// Whether this is the search of `config`, compiled.
    pub open spec fn compiled_from(&self, config: Config<'a>) -> bool {
        &&& self.config() == config
        &&& self.patterns().len() == config.patterns@.len()
        &&& forall|i: int|
            0 <= i < config.patterns@.len() ==> E::compiles_to(
                (#[trigger] config.patterns@[i])@,
                config,
                Ok(self.patterns()[i]),
            )
        &&& self.needles() == literal_needles(config)
    }

    /// Compiles the patterns of a search. The first pattern that the engine
    /// rejects ends it.
    pub fn compile(config: &'a Config<'a>) -> (compiled: Result<Self, CompileError>)
        ensures
            match compiled {
                Ok(matcher) => matcher.compiled_from(*config),
                Err(error) => exists|k: int| rejects::<E>(*config, k, error@),
            },
    {
        let mut warnings: Vec<String> = Vec::new();
        Self::compile_with_warnings(config, &mut warnings)
    }

    /// Compiles the patterns of a search, and appends to `warnings` what the
    /// user is to be told of them. A pattern that the engine rejects draws its
    /// warning too, those behind it none.
    pub fn compile_with_warnings(config: &'a Config<'a>, warnings: &mut Vec<String>) -> (compiled:
        Result<Self, CompileError>)
        ensures
            match compiled {
                Ok(matcher) => {
                    &&& matcher.compiled_from(*config)
                    &&& warned::<E>(
                        *config,
                        config.patterns@.len() as int,
                        old(warnings)@,
                        final(warnings)@,
                    )
                },
                Err(error) => gives_up::<E>(*config, error@, old(warnings)@, final(warnings)@),
            },
    {
        let mut patterns: Vec<E> = Vec::with_capacity(config.patterns.len());
        let mut i: usize = 0;
        assert(texts_of(warnings@) + Seq::<Seq<char>>::empty() =~= texts_of(warnings@));
        while i < config.patterns.len()
            invariant
                i <= config.patterns@.len(),
                patterns@.len() == i,
                forall|k: int|
                    0 <= k < i ==> E::compiles_to(
                        (#[trigger] config.patterns@[k])@,
                        *config,
                        Ok(patterns@[k]),
                    ),
                warned::<E>(*config, i as int, old(warnings)@, warnings@),
            decreases config.patterns@.len() - i,
        {
            let raw = config.patterns[i].as_str();
            let ghost before = warnings@;
            if let Some(text) = E::warning(raw, config) {
                warnings.push(text);
                assert(texts_of(warnings@) =~= texts_of(before).push(text@));
                assert(texts_of(old(warnings)@) + warnings_of::<E>(*config, i as int).push(text@)
                    =~= (texts_of(old(warnings)@) + warnings_of::<E>(*config, i as int)).push(
                    text@,
                ));
            }
            assert(warned::<E>(*config, i + 1, old(warnings)@, warnings@));
            match E::compile(raw, config) {
                Ok(pattern) => patterns.push(pattern),
                Err(error) => {
                    assert(rejects::<E>(*config, i as int, error@)) by {
                        assert forall|j: int| 0 <= j < i implies accepts::<E>(
                            *config,
                            #[trigger] config.patterns@[j]@,
                        ) by {
                            assert(E::compiles_to(
                                config.patterns@[j]@,
                                *config,
                                Ok(patterns@[j]),
                            ));
                        }
                    }
                    assert(gives_up::<E>(*config, error@, old(warnings)@, warnings@));
                    return Err(error);
                },
            }
            i += 1;
        }
        let literal_searchers = Self::build_searchers(config);
        Ok(Matcher { config, patterns, literal_searchers })
    }

    /// If the whole pattern set can be reduced to literal needles, builds a
    /// searcher for each, so that a caller can take a bulk substring-scan path.
    fn build_searchers(config: &'a Config<'a>) -> (searchers: Option<
        Vec<memmem::Finder<'static>>,
    >)
        ensures
            match searchers {
                Some(finders) => literal_needles(*config) == Some(needles_of(finders@)),
                None => literal_needles(*config) is None,
            },
    {
        if config.patterns.len() == 0 {
            return None;
        }
        let mut finders: Vec<memmem::Finder<'static>> = Vec::with_capacity(config.patterns.len());
        let mut i: usize = 0;
        while i < config.patterns.len()
            invariant
                i <= config.patterns@.len(),
                finders@.len() == i,
                forall|k: int|
                    0 <= k < i ==> is_plain(
                        (#[trigger] config.patterns@[k])@,
                        config.ignore_case,
                        config.regex_mode,
                    ) && finder_needle(finders@[k]) == encode_utf8(config.patterns@[k]@),
            decreases config.patterns@.len() - i,
        {
            match plain_literal(config.patterns[i].as_str(), config.ignore_case, config.regex_mode) {
                Some(needle) => finders.push(new_finder(needle.as_slice())),
                None => {
                    assert(!is_plain(
                        config.patterns@[i as int]@,
                        config.ignore_case,
                        config.regex_mode,
                    ));
                    return None;
                },
            }
            i += 1;
        }
        assert(needles_of(finders@) =~= config.patterns@.map_values(
            |pattern: String| encode_utf8(pattern@),
        ));
        Some(finders)
    }

    /// Per-pattern substring searchers, present only when the pattern set is a
    /// pure set of literals, for which no regex is needed. With them a whole
    /// buffer can be scanned at once instead of testing line by line.
    pub fn literal_searchers(&self) -> (searchers: Option<&[memmem::Finder<'static>]>)
        ensures
            match searchers {
                Some(finders) => {
                    &&& self.needles() == Some(needles_of(finders@))
                    &&& finders@.len() == self.needles()->0.len()
                    &&& forall|i: int|
                        0 <= i < finders@.len() ==> finder_needle(#[trigger] finders@[i])
                            == self.needles()->0[i]
                },
                None => self.needles() is None,
            },
    {
        match &self.literal_searchers {
            Some(finders) => Some(finders.as_slice()),
            None => None,
        }
    }

    /// Decides whether a line whose matches are `spans` is wanted, and returns
    /// the positions to highlight.
    pub fn select(&self, line: &[u8], spans: &[Span]) -> (positions: Option<Vec<Span>>)
        requires
            forall|i: int| 0 <= i < spans@.len() ==> (#[trigger] spans@[i]).0 <= line@.len(),
        ensures
            match positions {
                Some(positions) => selection::<E>(self.config(), line@, spans@) == Some(positions@),
                None => selection::<E>(self.config(), line@, spans@) is None,
            },
    {
        let ghost keep = |span: Span| counts::<E>(self.config(), line@, span) && span.0 != span.1;
        let mut any_selected = false;
        let mut positions: Vec<Span> = Vec::new();
        let mut i: usize = 0;
        proof {
            reveal(Seq::filter);
        }
        while i < spans.len()
            invariant
                i <= spans@.len(),
                forall|k: int| 0 <= k < spans@.len() ==> (#[trigger] spans@[k]).0 <= line@.len(),
                keep == (|span: Span|
                    counts::<E>(self.config(), line@, span) && span.0 != span.1),
                any_selected == any_counts::<E>(self.config(), line@, spans@.take(i as int)),
                positions@ == spans@.take(i as int).filter(keep),
            decreases spans@.len() - i,
        {
            let (start, end) = spans[i];
            proof {
                reveal(Seq::filter);
                let next = spans@.take(i + 1);
                assert(next.drop_last() =~= spans@.take(i as int));
                assert(next.last() == spans@[i as int]);
                assert(forall|k: int| 0 <= k < i ==> next[k] == spans@.take(i as int)[k]);
                assert(forall|k: int| 0 <= k < i ==> spans@.take(i as int)[k] == next[k]);
            }
            i += 1;
            // Drop matches that don't span the whole line if `-x` was requested.
            if self.config.line_regexp && !(start == 0 && end == line.len()) {
                continue;
            }
            // Drop matches that aren't word matches if `-w` was requested.
            if self.config.word_regexp && !E::is_word_match(line, start, end) {
                continue;
            }
            any_selected = true;
            assert(counts::<E>(self.config(), line@, spans@.take(i as int)[i - 1]));
            // Drop zero-length matches from the output.
            if start != end {
                positions.push((start, end));
            }
        }
        assert(spans@.take(i as int) =~= spans@);
        if any_selected != self.config.invert_match {
            Some(positions)
        } else {
            None
        }
    }

    /// Decides whether `line` matches and returns the positions to highlight.
    pub fn match_line(&self, line: &[u8]) -> (positions: Option<Vec<Span>>)
        requires
            line_matches(self.patterns(), line@) is Ok,
        ensures
            match positions {
                Some(positions) => selection::<E>(
                    self.config(),
                    line@,
                    line_matches(self.patterns(), line@)->Ok_0,
                ) == Some(positions@),
                None => selection::<E>(
                    self.config(),
                    line@,
                    line_matches(self.patterns(), line@)->Ok_0,
                ) is None,
            },
    {
        match all_matches(self.patterns.as_slice(), line) {
            Ok(spans) => self.select(line, spans.as_slice()),
            Err(_) => None,
        }
    }

    /// [`Self::match_line`] for a line on which the engine may fail: the
    /// failure is returned.
    pub fn try_match_line(&self, line: &[u8]) -> (outcome: Result<Option<Vec<Span>>, MatchError>)
        ensures
            match outcome {
                Ok(positions) => {
                    &&& line_matches(self.patterns(), line@) is Ok
                    &&& match positions {
                        Some(positions) => selection::<E>(
                            self.config(),
                            line@,
                            line_matches(self.patterns(), line@)->Ok_0,
                        ) == Some(positions@),
                        None => selection::<E>(
                            self.config(),
                            line@,
                            line_matches(self.patterns(), line@)->Ok_0,
                        ) is None,
                    }
                },
                Err(error) => line_matches(self.patterns(), line@) == Err::<Seq<Span>, _>(error@),
            },
    {
        match all_matches(self.patterns.as_slice(), line) {
            Ok(spans) => Ok(self.select(line, spans.as_slice())),
            Err(error) => Err(error),
        }
    }

    /// Cheap match check that doesn't enumerate positions: `Some` of no
    /// positions where the line is wanted.
    pub fn is_match(&self, line: &[u8]) -> (positions: Option<Vec<Span>>)
        requires
            is_wanted(self.config(), self.patterns(), line@) is Ok,
        ensures
            positions is Some == is_wanted(self.config(), self.patterns(), line@)->Ok_0,
            positions matches Some(positions) ==> positions@.len() == 0,
    {
        match self.try_is_match(line) {
            Ok(positions) => positions,
            Err(_) => None,
        }
    }

    /// [`Self::is_match`] for a line on which the engine may fail: the failure
    /// is returned.
    pub fn try_is_match(&self, line: &[u8]) -> (outcome: Result<Option<Vec<Span>>, MatchError>)
        ensures
            match outcome {
                Ok(positions) => {
                    &&& is_wanted(self.config(), self.patterns(), line@) == Ok::<_, Fault>(
                        positions is Some,
                    )
                    &&& positions matches Some(positions) ==> positions@.len() == 0
                },
                Err(error) => is_wanted(self.config(), self.patterns(), line@) == Err::<bool, _>(
                    error@,
                ),
            },
    {
        // `-w` / `-x` need positions to filter, so they fall back to listing them.
        if self.config.line_regexp || self.config.word_regexp {
            return match self.try_match_line(line) {
                Ok(Some(_)) => Ok(Some(Vec::new())),
                Ok(None) => Ok(None),
                Err(error) => Err(error),
            };
        }
        let mut raw_matched = false;
        let mut i: usize = 0;
        while i < self.patterns.len() && !raw_matched
            invariant
                i <= self.patterns@.len(),
                !self.config.line_regexp && !self.config.word_regexp,
                any_matches(self.patterns@, line@, 0) == (if raw_matched {
                    Ok::<bool, Fault>(true)
                } else {
                    any_matches(self.patterns@, line@, i as int)
                }),
            decreases self.patterns@.len() - i,
        {
            match self.patterns[i].is_match(line) {
                Ok(hit) => {
                    raw_matched = hit;
                },
                Err(error) => return Err(MatchError::Engine(error)),
            }
            i += 1;
        }
        if raw_matched != self.config.invert_match {
            Ok(Some(Vec::new()))
        } else {
            Ok(None)
        }
    }
}

} // verus!
