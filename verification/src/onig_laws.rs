//! What holds of matching by Oniguruma.

use crate::alike_laws::{
    law_engines_select_alike, law_patterns_searched_alike_are_wanted_alike,
    law_patterns_searched_alike_match_alike, searched_alike,
};
use crate::config::{Config, RegexMode};
use crate::engine::{Engine, Span};
use crate::error::Fault;
use crate::finder::{first_occurrence, is_first_occurrence, occurs_at};
use crate::laws::{
    law_a_line_matches_if_a_pattern_does, law_is_match_agrees_with_match_line,
    law_matches_are_in_order, moves_forward, never_goes_back,
};
use crate::listing::line_matches;
use crate::literal::is_plain;
use crate::literal_engine;
use crate::literal_laws::{
    any_occurs, law_plain_patterns_start_with_no_repeat, lemma_first_exists, pattern_bytes,
};
use crate::matcher::{counts, is_wanted, same_reading, selection, Matcher};
use crate::onig_engine::{
    compile_rejection, normalized, search_heeds_process, setup_of, CompiledPattern,
};
use crate::oniguruma::{is_text, MAX_LINE};
use crate::repeat::leading_repeat;
use vstd::prelude::*;
use vstd::utf8::*;

verus! {

/// Whether Oniguruma can count the characters of each pattern of a search.
pub open spec fn all_countable(config: Config) -> bool {
    forall|i: int|
        0 <= i < config.patterns@.len() ==> (#[trigger] config.patterns@[i])@.len() <= i32::MAX
}

/// What searches for a plain pattern yield.
proof fn lemma_plain(this: CompiledPattern, pattern: Seq<char>, config: Config, line: Seq<u8>)
    requires
        CompiledPattern::compiles_to(pattern, config, Ok(this)),
        is_plain(pattern, config.ignore_case, config.regex_mode),
        pattern.len() <= i32::MAX,
        line.len() <= MAX_LINE,
    ensures
        encode_utf8(pattern).len() > 0,
        forall|offset: usize|
            offset <= line.len() ==> #[trigger] this.leftmost(line, offset) == Ok::<
                Option<Span>,
                (i32, Seq<char>),
            >(
                match first_occurrence(line, encode_utf8(pattern), offset) {
                    Some(at) => Some((at as usize, (at + encode_utf8(pattern).len()) as usize)),
                    None => None,
                },
            ),
        forall|start: usize|
            start <= line.len() ==> #[trigger] this.longest(line, start) == Ok::<
                Option<usize>,
                (i32, Seq<char>),
            >(
                if occurs_at(line, encode_utf8(pattern), start as int) {
                    Some((start + encode_utf8(pattern).len()) as usize)
                } else {
                    None
                },
            ),
{
    if config.regex_mode != RegexMode::Fixed {
        law_plain_patterns_start_with_no_repeat(pattern, config.ignore_case, config.regex_mode);
    }
    is_ascii_chars_encode_utf8(pattern);
    assert(this.leftmost_source().pattern == pattern);
    assert(this.longest_source().pattern == pattern);
    assert(is_text(this.leftmost_source()));
}

/// It makes no difference which engine plain patterns are compiled by: they have
/// the same matches in every line, UTF-8 or not. Without `-w`, which the engines
/// judge by different tables, the same lines are wanted, and with the same
/// highlights.
pub proof fn law_engines_agree_on_plain_patterns(
    by_onig: Matcher<CompiledPattern>,
    by_bytes: Matcher<literal_engine::CompiledPattern>,
    config: Config,
    line: Seq<u8>,
)
    requires
        by_onig.compiled_from(config),
        by_bytes.compiled_from(config),
        all_countable(config),
        line.len() <= MAX_LINE,
    ensures
        line_matches(by_onig.patterns(), line) == line_matches(by_bytes.patterns(), line),
        !config.word_regexp ==> {
            &&& is_wanted(config, by_onig.patterns(), line) == is_wanted(
                config,
                by_bytes.patterns(),
                line,
            )
            &&& line_matches(by_onig.patterns(), line) matches Ok(spans) ==> selection::<
                CompiledPattern,
            >(config, line, spans) == selection::<literal_engine::CompiledPattern>(
                config,
                line,
                spans,
            )
        },
{
    let (a, b) = (by_onig.patterns(), by_bytes.patterns());
    assert forall|i: int| 0 <= i < a.len() implies searched_alike(
        #[trigger] a[i],
        b[i],
        line,
    ) by {
        let pattern = config.patterns@[i]@;
        assert(literal_engine::CompiledPattern::compiles_to(pattern, config, Ok(b[i])));
        assert(CompiledPattern::compiles_to(pattern, config, Ok(a[i])));
        lemma_plain(a[i], pattern, config, line);
    }
    law_patterns_searched_alike_match_alike(a, b, line);
    if !config.word_regexp {
        law_patterns_searched_alike_are_wanted_alike(config, a, b, line);
        if let Ok(spans) = line_matches(a, line) {
            law_engines_select_alike::<CompiledPattern, literal_engine::CompiledPattern>(
                config,
                line,
                spans,
            );
        }
    }
}

/// Looking for the literal needles decides whether a line, UTF-8 or not, is
/// wanted: without `-x` and `-w` it is, up to `-v`, exactly if one of them occurs
/// in it.
pub proof fn law_needles_decide_a_line(
    matcher: Matcher<CompiledPattern>,
    config: Config,
    line: Seq<u8>,
)
    requires
        matcher.compiled_from(config),
        matcher.needles() is Some,
        all_countable(config),
        !config.line_regexp,
        !config.word_regexp,
        line.len() <= MAX_LINE,
    ensures
        matcher.needles() == Some(pattern_bytes(config)),
        line_matches(matcher.patterns(), line) is Ok,
        is_wanted(config, matcher.patterns(), line) == Ok::<bool, Fault>(
            any_occurs(pattern_bytes(config), line) != config.invert_match,
        ),
        selection::<CompiledPattern>(
            config,
            line,
            line_matches(matcher.patterns(), line)->Ok_0,
        ) is Some <==> any_occurs(pattern_bytes(config), line) != config.invert_match,
{
    let patterns = matcher.patterns();
    let needles = pattern_bytes(config);
    assert forall|i: int| 0 <= i < patterns.len() implies moves_forward(
        #[trigger] patterns[i],
        line,
    ) && (patterns[i].leftmost(line, 0) matches Ok(Some(_)) <==> exists|at: int|
        occurs_at(line, needles[i], at)) by {
        let pattern = config.patterns@[i]@;
        assert(CompiledPattern::compiles_to(pattern, config, Ok(patterns[i])));
        lemma_plain(patterns[i], pattern, config, line);
        assert(needles[i] == encode_utf8(pattern));
        assert forall|offset: usize| offset <= line.len() implies match (
        #[trigger] patterns[i].leftmost(line, offset)) {
            Ok(Some(span)) => offset <= span.0 <= line.len() && span.0 <= span.1 && span.0
                < usize::MAX,
            Ok(None) => true,
            Err(_) => false,
        } by {
            if let Some(at) = first_occurrence(line, needles[i], offset) {
                assert(is_first_occurrence(line, needles[i], offset, at));
            }
        }
        if let Some(at) = first_occurrence(line, needles[i], 0) {
            assert(is_first_occurrence(line, needles[i], 0, at));
        }
        if exists|at: int| occurs_at(line, needles[i], at) {
            let at = choose|at: int| occurs_at(line, needles[i], at);
            lemma_first_exists(line, needles[i], 0, at);
        }
    }
    law_matches_are_in_order(patterns, line);
    law_a_line_matches_if_a_pattern_does(patterns, line);
    law_is_match_agrees_with_match_line(config, patterns, line);
    let hit = exists|i: int|
        0 <= i < patterns.len() && (#[trigger] patterns[i]).leftmost(line, 0) matches Ok(Some(_));
    assert(hit == any_occurs(needles, line)) by {
        if hit {
            let i = choose|i: int|
                0 <= i < patterns.len() && (#[trigger] patterns[i]).leftmost(line, 0) matches Ok(
                    Some(_),
                );
            let at = choose|at: int| occurs_at(line, needles[i], at);
            assert(occurs_at(line, needles[i], at));
        }
        if any_occurs(needles, line) {
            let (k, at) = choose|k: int, at: int|
                0 <= k < needles.len() && #[trigger] occurs_at(line, needles[k], at);
            assert(moves_forward(patterns[k], line));
            assert(patterns[k].leftmost(line, 0) matches Ok(Some(_)));
        }
    }
}

/// Outside Perl syntax no search goes back.
pub proof fn law_posix_searches_never_go_back(
    this: CompiledPattern,
    pattern: Seq<char>,
    config: Config,
    line: Seq<u8>,
)
    requires
        CompiledPattern::compiles_to(pattern, config, Ok(this)),
        config.regex_mode != RegexMode::Perl,
    ensures
        never_goes_back(this, line),
{
    assert forall|offset: usize| offset <= line.len() implies (
    #[trigger] this.leftmost(line, offset) matches Ok(Some(span)) ==> offset <= span.0 <= span.1
        && span.0 < usize::MAX) by {
        if let Some(literal) = this.by_bytes() {
            is_ascii_chars_encode_utf8(normalized(pattern, config.regex_mode));
            if let Some(at) = first_occurrence(line, literal.needle(), offset) {
                assert(is_first_occurrence(line, literal.needle(), offset, at));
            }
        }
    }
}

/// Whether the regexes of `a` and `b` were compiled in the same state of the
/// process: with the same flags for case folding and the same user-defined
/// character properties.
pub open spec fn same_process(a: CompiledPattern, b: CompiledPattern) -> bool {
    &&& a.leftmost_source().process == b.leftmost_source().process
    &&& a.longest_source().process == b.longest_source().process
}

/// The same text, read in the same way, is the same pattern: all searches for it
/// have the same outcome. In Perl syntax, and where case is ignored, the state of
/// the process has to be the same too: its flags for case folding and its
/// user-defined character properties.
pub proof fn law_same_text_is_searched_alike(
    a: CompiledPattern,
    pattern: Seq<char>,
    config: Config,
    b: CompiledPattern,
    other_pattern: Seq<char>,
    other: Config,
    line: Seq<u8>,
)
    requires
        CompiledPattern::compiles_to(pattern, config, Ok(a)),
        CompiledPattern::compiles_to(other_pattern, other, Ok(b)),
        search_heeds_process(config) ==> same_process(a, b),
        same_reading(config, other),
        normalized(pattern, config.regex_mode) == normalized(other_pattern, other.regex_mode),
    ensures
        searched_alike(a, b, line),
{
    assert(a.leftmost_source() == b.leftmost_source());
    assert(a.longest_source() == b.longest_source());
}

/// Whether a pattern that reads the same is accepted does not depend on chance:
/// where the state of the process does not count, compiling it twice either
/// succeeds both times or fails both times, with the same error.
pub proof fn law_same_text_is_compiled_alike(
    pattern: Seq<char>,
    config: Config,
    outcome: Result<CompiledPattern, (i32, Seq<char>)>,
    other_pattern: Seq<char>,
    other: Config,
    other_outcome: Result<CompiledPattern, (i32, Seq<char>)>,
)
    requires
        CompiledPattern::compiles_to(pattern, config, outcome),
        CompiledPattern::compiles_to(other_pattern, other, other_outcome),
        !search_heeds_process(config),
        same_reading(config, other),
        normalized(pattern, config.regex_mode) == normalized(other_pattern, other.regex_mode),
    ensures
        outcome is Ok <==> other_outcome is Ok,
        outcome matches Err(error) ==> other_outcome == Err::<CompiledPattern, _>(error),
{
    assert(setup_of(config) == setup_of(other));
    assert(compile_rejection(pattern, config, 0, 0) == compile_rejection(
        other_pattern,
        other,
        0,
        0,
    ));
}

/// A repeat operator at the start of an extended regular expression is dropped:
/// the pattern is compiled as what follows it, with the same errors. It draws a
/// warning.
pub proof fn law_leading_repeat_is_dropped(
    pattern: Seq<char>,
    config: Config,
    outcome: Result<CompiledPattern, (i32, Seq<char>)>,
)
    requires
        config.regex_mode == RegexMode::Extended,
        leading_repeat(pattern) is Some,
        leading_repeat((leading_repeat(pattern)->0).1) is None,
    ensures
        ({
            let rest = (leading_repeat(pattern)->0).1;
            &&& forall|process: int, longest_process: int| #[trigger]
                compile_rejection(pattern, config, process, longest_process) == compile_rejection(
                    rest,
                    config,
                    process,
                    longest_process,
                )
            &&& CompiledPattern::compiles_to(pattern, config, outcome)
                == CompiledPattern::compiles_to(rest, config, outcome)
            &&& CompiledPattern::warning_of(pattern, config) is Some
            &&& CompiledPattern::warning_of(rest, config) is None
        }),
{
    let rest = (leading_repeat(pattern)->0).1;
    assert forall|process: int, longest_process: int|
        (#[trigger] compile_rejection(pattern, config, process, longest_process))
            == compile_rejection(rest, config, process, longest_process) by {}
    assert forall|process: int, longest_process: int|
        (#[trigger] compile_rejection(rest, config, process, longest_process))
            == compile_rejection(pattern, config, process, longest_process) by {}
}

/// A pattern with a leading repeat operator and what follows it are accepted or
/// rejected alike, and have the same matches. Where case is ignored this holds
/// of two compilations in the same state of the process.
pub proof fn law_dropped_repeat_changes_nothing(
    pattern: Seq<char>,
    config: Config,
    outcome: Result<CompiledPattern, (i32, Seq<char>)>,
    rest_outcome: Result<CompiledPattern, (i32, Seq<char>)>,
    line: Seq<u8>,
)
    requires
        config.regex_mode == RegexMode::Extended,
        leading_repeat(pattern) is Some,
        leading_repeat((leading_repeat(pattern)->0).1) is None,
        CompiledPattern::compiles_to(pattern, config, outcome),
        CompiledPattern::compiles_to((leading_repeat(pattern)->0).1, config, rest_outcome),
    ensures
        !config.ignore_case ==> {
            &&& outcome is Ok <==> rest_outcome is Ok
            &&& outcome matches Err(error) ==> rest_outcome == Err::<CompiledPattern, _>(error)
        },
        outcome is Ok && rest_outcome is Ok && (config.ignore_case ==> same_process(
            outcome->Ok_0,
            rest_outcome->Ok_0,
        )) ==> searched_alike(outcome->Ok_0, rest_outcome->Ok_0, line),
{
    let rest = (leading_repeat(pattern)->0).1;
    if !config.ignore_case {
        law_same_text_is_compiled_alike(pattern, config, outcome, rest, config, rest_outcome);
    }
    if let (Ok(a), Ok(b)) = (outcome, rest_outcome) {
        if config.ignore_case ==> same_process(a, b) {
            law_same_text_is_searched_alike(a, pattern, config, b, rest, config, line);
        }
    }
}

/// `-x`, `-w` and `-v` judge matches: they make no difference to how a pattern
/// is compiled.
pub proof fn law_filters_do_not_change_patterns(
    pattern: Seq<char>,
    config: Config,
    other: Config,
    outcome: Result<CompiledPattern, (i32, Seq<char>)>,
)
    requires
        same_reading(config, other),
    ensures
        CompiledPattern::compiles_to(pattern, config, outcome) == CompiledPattern::compiles_to(
            pattern,
            other,
            outcome,
        ),
        CompiledPattern::warning_of(pattern, config) == CompiledPattern::warning_of(pattern, other),
{
    assert(setup_of(config) == setup_of(other));
    assert forall|process: int, longest_process: int|
        (#[trigger] compile_rejection(pattern, config, process, longest_process)) == compile_rejection(
            pattern,
            other,
            process,
            longest_process,
        ) by {}
    assert forall|process: int, longest_process: int|
        (#[trigger] compile_rejection(pattern, other, process, longest_process)) == compile_rejection(
            pattern,
            config,
            process,
            longest_process,
        ) by {}
}

/// Start and end of the line count as non-words: under `-x`, which asks for the
/// whole line, `-w` asks for nothing more.
pub proof fn law_whole_line_stands_alone(config: Config, line: Seq<u8>, span: Span)
    requires
        config.line_regexp,
    ensures
        counts::<CompiledPattern>(config, line, span) <==> span.0 == 0 && span.1 == line.len(),
{
}

} // verus!
