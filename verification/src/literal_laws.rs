//! What holds of matching literal patterns.

use crate::config::{Config, RegexMode};
use crate::engine::{Engine, Span};
use crate::error::Fault;
use crate::finder::{first_occurrence, is_first_occurrence, lemma_first_occurrence, occurs_at};
use crate::laws::{
    all_move_forward, law_is_match_agrees_with_match_line, law_matches_are_in_order,
    lemma_best_exists, lemma_no_fault, moves_forward,
};
use crate::listing::{lemma_run, line_matches, run, state_after};
use crate::literal::{is_plain, is_special};
use crate::literal_engine::CompiledPattern;
use crate::matcher::{all_plain, any_counts, counts, is_wanted, rejects, selection, Matcher};
use crate::merge::{
    all_or_fault, best, comes_first, is_best, lemma_all_or_fault, opened, refreshed_each, searched,
    step, CursorState, MergeState,
};
use crate::order_laws::{all_steady, is_steady};
use crate::repeat::leading_repeat;
use vstd::prelude::*;
use vstd::utf8::*;

verus! {

/// Whether `span` is an occurrence of one of `needles` in `line`.
pub open spec fn is_occurrence(needles: Seq<Seq<u8>>, line: Seq<u8>, span: Span) -> bool {
    exists|k: int|
        0 <= k < needles.len() && occurs_at(line, #[trigger] needles[k], span.0 as int) && span.1
            == span.0 + needles[k].len()
}

/// Whether `span` is, of all occurrences at or behind `from`, the leftmost, and
/// of those the longest.
pub open spec fn is_leftmost_longest(
    needles: Seq<Seq<u8>>,
    line: Seq<u8>,
    from: int,
    span: Span,
) -> bool {
    &&& is_occurrence(needles, line, span)
    &&& from <= span.0
    &&& forall|other: Span| #[trigger]
        is_occurrence(needles, line, other) && from <= other.0 ==> span.0 < other.0 || span.0
            == other.0 && span.1 >= other.1
}

/// Whether `spans` are the occurrences of `needles` in `line` that are found one
/// behind the other, each leftmost and longest, with none left behind the last.
pub open spec fn are_leftmost_longest(
    needles: Seq<Seq<u8>>,
    line: Seq<u8>,
    from: int,
    spans: Seq<Span>,
) -> bool
    decreases spans.len(),
{
    if spans.len() == 0 {
        forall|other: Span| #[trigger] is_occurrence(needles, line, other) ==> other.0 < from
    } else {
        &&& is_leftmost_longest(needles, line, from, spans[0])
        &&& are_leftmost_longest(needles, line, spans[0].1 as int, spans.drop_first())
    }
}

/// The bytes that `patterns` search for.
pub open spec fn needles_of(patterns: Seq<CompiledPattern>) -> Seq<Seq<u8>> {
    patterns.map_values(|pattern: CompiledPattern| pattern.needle())
}

/// Whether each of `patterns` searches for something.
pub open spec fn none_empty(patterns: Seq<CompiledPattern>) -> bool {
    forall|i: int| 0 <= i < patterns.len() ==> (#[trigger] patterns[i]).needle().len() > 0
}

/// A search of a literal pattern yields its first occurrence, or none if there
/// is none.
proof fn lemma_searched(pattern: CompiledPattern, line: Seq<u8>, offset: usize)
    requires
        pattern.needle().len() > 0,
        line.len() <= usize::MAX,
    ensures
        searched(pattern, line, offset) is Ok,
        match (searched(pattern, line, offset)->Ok_0).pending {
            Some(span) => {
                &&& is_first_occurrence(line, pattern.needle(), offset, span.0 as int)
                &&& span.1 == span.0 + pattern.needle().len()
                &&& (searched(pattern, line, offset)->Ok_0).offset == span.1
            },
            None => forall|at: int|
                offset <= at ==> !(#[trigger] occurs_at(line, pattern.needle(), at)),
        },
{
    let needle = pattern.needle();
    if exists|at: int| offset <= at && #[trigger] occurs_at(line, needle, at) {
        let at = choose|at: int| offset <= at && #[trigger] occurs_at(line, needle, at);
        lemma_first_exists(line, needle, offset, at);
        let first = choose|at: int| is_first_occurrence(line, needle, offset, at);
        lemma_first_occurrence(line, needle, offset, first);
    }
}

/// Where a needle occurs it has a first occurrence.
pub proof fn lemma_first_exists(line: Seq<u8>, needle: Seq<u8>, offset: usize, at: int)
    requires
        offset <= at,
        occurs_at(line, needle, at),
    ensures
        exists|first: int| is_first_occurrence(line, needle, offset, first),
    decreases at - offset,
{
    if exists|i: int| offset <= i < at && #[trigger] occurs_at(line, needle, i) {
        let i = choose|i: int| offset <= i < at && #[trigger] occurs_at(line, needle, i);
        lemma_first_exists(line, needle, offset, i);
    } else {
        assert(is_first_occurrence(line, needle, offset, at));
    }
}

/// Literal patterns never fail and never go back.
proof fn lemma_moves_forward(pattern: CompiledPattern, line: Seq<u8>)
    requires
        pattern.needle().len() > 0,
        line.len() <= usize::MAX,
    ensures
        moves_forward(pattern, line),
{
    assert forall|offset: usize| offset <= line.len() implies match #[trigger] pattern.leftmost(
        line,
        offset,
    ) {
        Ok(Some(span)) => offset <= span.0 <= line.len() && span.0 <= span.1 && span.0 < usize::MAX,
        Ok(None) => true,
        Err(_) => false,
    } by {
        if let Some(at) = first_occurrence(line, pattern.needle(), offset) {
            assert(is_first_occurrence(line, pattern.needle(), offset, at));
        }
    }
}

/// It makes no difference where a search for a literal pattern begins.
proof fn lemma_is_steady(pattern: CompiledPattern, line: Seq<u8>)
    requires
        line.len() <= usize::MAX,
    ensures
        is_steady(pattern, line),
{
    let needle = pattern.needle();
    assert forall|from: usize, later: usize| from <= later <= line.len() implies match (
    #[trigger] pattern.leftmost(line, from)) {
        Ok(Some(span)) => later <= span.0 ==> #[trigger] pattern.leftmost(line, later) == Ok::<
            Option<Span>,
            (i32, Seq<char>),
        >(Some(span)),
        Ok(None) => pattern.leftmost(line, later) == Ok::<Option<Span>, (i32, Seq<char>)>(None),
        Err(_) => true,
    } by {
        if let Some(at) = first_occurrence(line, needle, from) {
            assert(is_first_occurrence(line, needle, from, at));
            if later <= at {
                assert(is_first_occurrence(line, needle, later, at));
                lemma_first_occurrence(line, needle, later, at);
            }
        } else if let Some(at) = first_occurrence(line, needle, later) {
            assert(is_first_occurrence(line, needle, later, at));
            lemma_first_exists(line, needle, from, at);
        }
    }
}

/// Whether `cursor` knows the first occurrence of `needle` at or behind
/// `last_end`, or has a match that starts before it.
spec fn is_ahead(cursor: CursorState, needle: Seq<u8>, line: Seq<u8>, last_end: usize) -> bool {
    match cursor.pending {
        Some(span) => {
            &&& occurs_at(line, needle, span.0 as int)
            &&& span.1 == span.0 + needle.len()
            &&& cursor.offset == span.1
            &&& forall|at: int| last_end <= at < span.0 ==> !(#[trigger] occurs_at(line, needle, at))
        },
        None => forall|at: int| last_end <= at ==> !(#[trigger] occurs_at(line, needle, at)),
    }
}

spec fn are_ahead(patterns: Seq<CompiledPattern>, line: Seq<u8>, state: MergeState) -> bool {
    &&& state.cursors.len() == patterns.len()
    &&& forall|i: int|
        0 <= i < patterns.len() ==> is_ahead(
            #[trigger] state.cursors[i],
            patterns[i].needle(),
            line,
            state.last_end,
        )
}

proof fn lemma_step(patterns: Seq<CompiledPattern>, line: Seq<u8>, state: MergeState)
    requires
        none_empty(patterns),
        line.len() <= usize::MAX,
        are_ahead(patterns, line, state),
    ensures
        step(patterns, line, state) is Ok,
        match step(patterns, line, state)->Ok_0 {
            Some((next, span)) => {
                &&& is_leftmost_longest(
                    needles_of(patterns),
                    line,
                    state.last_end as int,
                    span,
                )
                &&& span.1 > state.last_end
                &&& next.last_end == span.1
                &&& are_ahead(patterns, line, next)
            },
            None => forall|other: Span| #[trigger]
                is_occurrence(needles_of(patterns), line, other) ==> other.0 < state.last_end,
        },
{
    let needles = needles_of(patterns);
    let items = refreshed_each(patterns, line, state);
    assert forall|i: int| 0 <= i < items.len() implies (#[trigger] items[i]) is Ok by {
        lemma_searched(patterns[i], line, state.last_end);
    }
    lemma_no_fault(items);
    lemma_all_or_fault(items);
    let fresh = all_or_fault(items)->Ok_0;
    assert forall|i: int| 0 <= i < fresh.len() implies is_ahead(
        #[trigger] fresh[i],
        patterns[i].needle(),
        line,
        state.last_end,
    ) && (fresh[i].pending matches Some(span) ==> state.last_end <= span.0) by {
        assert(items[i] == Ok::<_, Fault>(fresh[i]));
        assert(is_ahead(state.cursors[i], patterns[i].needle(), line, state.last_end));
        lemma_searched(patterns[i], line, state.last_end);
    }
    // Every occurrence is that of some pending match, or behind it.
    assert forall|other: Span| #[trigger]
        is_occurrence(needles, line, other) && state.last_end <= other.0 implies exists|k: int|
        0 <= k < fresh.len() && (#[trigger] fresh[k]).pending is Some && ((fresh[k].pending->0).0
            < other.0 || fresh[k].pending == Some(other)) by {
        let k = choose|k: int|
            0 <= k < needles.len() && occurs_at(line, #[trigger] needles[k], other.0 as int)
                && other.1 == other.0 + needles[k].len();
        assert(needles[k] == patterns[k].needle());
        assert(is_ahead(fresh[k], patterns[k].needle(), line, state.last_end));
    }
    match best(fresh) {
        Some(i) => {
            assert(is_best(fresh, i));
            let span = fresh[i].pending->0;
            assert(is_ahead(fresh[i], patterns[i].needle(), line, state.last_end));
            assert(patterns[i].needle().len() > 0);
            assert(needles[i] == patterns[i].needle());
            assert(is_occurrence(needles, line, span));
            assert forall|other: Span| #[trigger]
                is_occurrence(needles, line, other) && state.last_end <= other.0 implies span.0
                < other.0 || span.0 == other.0 && span.1 >= other.1 by {
                let k = choose|k: int|
                    0 <= k < fresh.len() && (#[trigger] fresh[k]).pending is Some && ((
                    fresh[k].pending->0).0 < other.0 || fresh[k].pending == Some(other));
                assert(comes_first(span, i, fresh[k].pending->0, k));
            }
            lemma_searched(patterns[i], line, fresh[i].offset);
            let (next, _) = step(patterns, line, state)->Ok_0->0;
            assert forall|j: int| 0 <= j < patterns.len() implies is_ahead(
                #[trigger] next.cursors[j],
                patterns[j].needle(),
                line,
                next.last_end,
            ) by {
                assert(is_ahead(fresh[j], patterns[j].needle(), line, state.last_end));
            }
        },
        None => {
            assert forall|other: Span| #[trigger] is_occurrence(needles, line, other) implies other.0
                < state.last_end by {
                if state.last_end <= other.0 {
                    let k = choose|k: int|
                        0 <= k < fresh.len() && (#[trigger] fresh[k]).pending is Some && ((
                        fresh[k].pending->0).0 < other.0 || fresh[k].pending == Some(other));
                    lemma_best_exists(fresh, k);
                }
            }
        },
    }
}

proof fn lemma_literal_run(patterns: Seq<CompiledPattern>, line: Seq<u8>, state: MergeState)
    requires
        none_empty(patterns),
        line.len() <= usize::MAX,
        are_ahead(patterns, line, state),
    ensures
        run(patterns, line, state) is Ok,
        are_leftmost_longest(
            needles_of(patterns),
            line,
            state.last_end as int,
            run(patterns, line, state)->Ok_0,
        ),
    decreases usize::MAX - state.last_end,
{
    lemma_run(patterns, line, state);
    lemma_step(patterns, line, state);
    if let Some((next, span)) = step(patterns, line, state)->Ok_0 {
        lemma_literal_run(patterns, line, next);
        let rest = run(patterns, line, next)->Ok_0;
        assert((seq![span] + rest).drop_first() =~= rest);
    }
}

/// Where a line is first searched, every cursor is ahead.
proof fn lemma_opened(patterns: Seq<CompiledPattern>, line: Seq<u8>)
    requires
        none_empty(patterns),
        line.len() <= usize::MAX,
    ensures
        opened(patterns, line) is Ok,
        opened(patterns, line)->Ok_0.last_end == 0,
        are_ahead(patterns, line, opened(patterns, line)->Ok_0),
{
    let items = Seq::new(patterns.len(), |i: int| searched(patterns[i], line, 0));
    assert forall|i: int| 0 <= i < items.len() implies (#[trigger] items[i]) is Ok by {
        lemma_searched(patterns[i], line, 0);
    }
    lemma_no_fault(items);
    lemma_all_or_fault(items);
    let cursors = all_or_fault(items)->Ok_0;
    assert forall|i: int| 0 <= i < patterns.len() implies is_ahead(
        #[trigger] cursors[i],
        patterns[i].needle(),
        line,
        0,
    ) by {
        assert(items[i] == Ok::<_, Fault>(cursors[i]));
        lemma_searched(patterns[i], line, 0);
    }
}

proof fn lemma_reached(
    patterns: Seq<CompiledPattern>,
    line: Seq<u8>,
    state: MergeState,
    count: nat,
)
    requires
        none_empty(patterns),
        line.len() <= usize::MAX,
        are_ahead(patterns, line, state),
        state_after(patterns, line, state, count) is Some,
    ensures
        are_ahead(patterns, line, state_after(patterns, line, state, count)->0),
    decreases count,
{
    if count > 0 {
        lemma_step(patterns, line, state);
        let (next, _) = step(patterns, line, state)->Ok_0->0;
        lemma_reached(patterns, line, next, (count - 1) as nat);
    }
}

/// What comes next for literal patterns, after any number of matches in a line:
/// of the occurrences at or behind the end of the last match, the leftmost, and
/// of those the longest; none exactly if none is left.
pub proof fn law_next_literal_match_is_leftmost_longest(
    patterns: Seq<CompiledPattern>,
    line: Seq<u8>,
    count: nat,
)
    requires
        none_empty(patterns),
        line.len() <= usize::MAX,
        opened(patterns, line) is Ok,
        state_after(patterns, line, opened(patterns, line)->Ok_0, count) is Some,
    ensures
        ({
            let state = state_after(patterns, line, opened(patterns, line)->Ok_0, count)->0;
            let needles = needles_of(patterns);
            &&& count == 0 ==> state.last_end == 0
            &&& match step(patterns, line, state) {
                Ok(Some((next, span))) => {
                    &&& is_leftmost_longest(needles, line, state.last_end as int, span)
                    &&& next.last_end == span.1
                },
                Ok(None) => forall|other: Span| #[trigger]
                    is_occurrence(needles, line, other) ==> other.0 < state.last_end,
                Err(_) => false,
            }
        }),
{
    lemma_opened(patterns, line);
    lemma_reached(patterns, line, opened(patterns, line)->Ok_0, count);
    lemma_step(patterns, line, state_after(patterns, line, opened(patterns, line)->Ok_0, count)->0);
}

/// The matches of literal patterns in a line can always be listed. They are the
/// occurrences of the patterns, leftmost first and longest first over all
/// patterns, each behind the one before it, and none is left out.
pub proof fn law_literal_matches_are_leftmost_longest(
    patterns: Seq<CompiledPattern>,
    line: Seq<u8>,
)
    requires
        none_empty(patterns),
        line.len() <= usize::MAX,
    ensures
        line_matches(patterns, line) is Ok,
        are_leftmost_longest(
            needles_of(patterns),
            line,
            0,
            line_matches(patterns, line)->Ok_0,
        ),
{
    lemma_opened(patterns, line);
    lemma_literal_run(patterns, line, opened(patterns, line)->Ok_0);
}

/// The bytes of the patterns of a search.
pub open spec fn pattern_bytes(config: Config) -> Seq<Seq<u8>> {
    config.patterns@.map_values(|pattern: String| encode_utf8(pattern@))
}

/// The literal engine compiles a search exactly if each of its patterns stands
/// for nothing but itself. It then searches for the bytes of the patterns, none
/// of them empty, and so do the substring searchers.
pub proof fn law_literal_engine_takes_plain_patterns(
    matcher: Matcher<CompiledPattern>,
    config: Config,
    k: int,
    error: (i32, Seq<char>),
)
    ensures
        matcher.compiled_from(config) ==> {
            &&& all_plain(config)
            &&& none_empty(matcher.patterns())
            &&& needles_of(matcher.patterns()) == pattern_bytes(config)
            &&& config.patterns@.len() > 0 ==> matcher.needles() == Some(pattern_bytes(config))
        },
        rejects::<CompiledPattern>(config, k, error) ==> !all_plain(config),
{
    if matcher.compiled_from(config) {
        assert forall|i: int| 0 <= i < config.patterns@.len() implies is_plain(
            (#[trigger] config.patterns@[i])@,
            config.ignore_case,
            config.regex_mode,
        ) && matcher.patterns()[i].needle() == encode_utf8(config.patterns@[i]@)
            && matcher.patterns()[i].needle().len() > 0 by {
            assert(CompiledPattern::compiles_to(
                config.patterns@[i]@,
                config,
                Ok(matcher.patterns()[i]),
            ));
            is_ascii_chars_encode_utf8(config.patterns@[i]@);
        }
        assert forall|i: int| 0 <= i < matcher.patterns().len() implies (
        #[trigger] matcher.patterns()[i]).needle().len() > 0 by {
            assert(is_plain(
                config.patterns@[i]@,
                config.ignore_case,
                config.regex_mode,
            ));
        }
        assert(needles_of(matcher.patterns()) =~= pattern_bytes(config));
    }
}

/// Whether one of `needles` occurs in `line`.
pub open spec fn any_occurs(needles: Seq<Seq<u8>>, line: Seq<u8>) -> bool {
    exists|k: int, at: int|
        0 <= k < needles.len() && #[trigger] occurs_at(line, needles[k], at)
}

proof fn lemma_any_occurs(patterns: Seq<CompiledPattern>, line: Seq<u8>)
    requires
        none_empty(patterns),
        line.len() <= usize::MAX,
    ensures
        line_matches(patterns, line) is Ok,
        line_matches(patterns, line)->Ok_0.len() > 0 <==> any_occurs(needles_of(patterns), line),
{
    law_literal_matches_are_leftmost_longest(patterns, line);
    let spans = line_matches(patterns, line)->Ok_0;
    let needles = needles_of(patterns);
    if spans.len() > 0 {
        let k = choose|k: int|
            0 <= k < needles.len() && occurs_at(line, #[trigger] needles[k], spans[0].0 as int)
                && spans[0].1 == spans[0].0 + needles[k].len();
        assert(occurs_at(line, needles[k], spans[0].0 as int));
    }
    if any_occurs(needles, line) {
        let (k, at) = choose|k: int, at: int|
            0 <= k < needles.len() && #[trigger] occurs_at(line, needles[k], at);
        let other = (at as usize, (at + needles[k].len()) as usize);
        assert(occurs_at(line, needles[k], other.0 as int));
        assert(is_occurrence(needles, line, other));
    }
}

/// Looking for the literal needles decides whether a line is wanted: without
/// `-x` and `-w` it is, up to `-v`, exactly if one of them occurs in it.
pub proof fn law_needles_decide_a_line(
    matcher: Matcher<CompiledPattern>,
    config: Config,
    line: Seq<u8>,
)
    requires
        matcher.compiled_from(config),
        !config.line_regexp,
        !config.word_regexp,
        line.len() <= usize::MAX,
    ensures
        line_matches(matcher.patterns(), line) is Ok,
        is_wanted(config, matcher.patterns(), line) == Ok::<bool, Fault>(
            any_occurs(pattern_bytes(config), line) != config.invert_match,
        ),
        selection::<CompiledPattern>(
            config,
            line,
            line_matches(matcher.patterns(), line)->Ok_0,
        ) is Some <==> any_occurs(pattern_bytes(config), line) != config.invert_match,
{
    law_literal_engine_takes_plain_patterns(matcher, config, 0, (0, Seq::empty()));
    lemma_any_occurs(matcher.patterns(), line);
    law_is_match_agrees_with_match_line(config, matcher.patterns(), line);
    let spans = line_matches(matcher.patterns(), line)->Ok_0;
    if spans.len() > 0 {
        assert(counts::<CompiledPattern>(config, line, spans[0]));
    }
}

/// Under `-x` a line is wanted, up to `-v`, exactly if it is one of the literal
/// patterns.
pub proof fn law_whole_line_is_a_pattern(
    matcher: Matcher<CompiledPattern>,
    config: Config,
    line: Seq<u8>,
)
    requires
        matcher.compiled_from(config),
        config.line_regexp,
        line.len() <= usize::MAX,
    ensures
        line_matches(matcher.patterns(), line) is Ok,
        selection::<CompiledPattern>(
            config,
            line,
            line_matches(matcher.patterns(), line)->Ok_0,
        ) is Some <==> pattern_bytes(config).contains(line) != config.invert_match,
{
    law_literal_engine_takes_plain_patterns(matcher, config, 0, (0, Seq::empty()));
    let patterns = matcher.patterns();
    let needles = pattern_bytes(config);
    law_literal_matches_are_leftmost_longest(patterns, line);
    let spans = line_matches(patterns, line)->Ok_0;
    if needles.contains(line) {
        let k = choose|k: int| 0 <= k < needles.len() && needles[k] == line;
        assert(line.subrange(0, line.len() as int) =~= line);
        let whole = (0usize, line.len() as usize);
        assert(occurs_at(line, needles[k], whole.0 as int));
        assert(is_occurrence(needles, line, whole));
        let j = choose|j: int|
            0 <= j < needles.len() && occurs_at(line, #[trigger] needles[j], spans[0].0 as int)
                && spans[0].1 == spans[0].0 + needles[j].len();
        assert(spans[0] == whole);
        assert(counts::<CompiledPattern>(config, line, spans[0]));
    }
    if any_counts::<CompiledPattern>(config, line, spans) {
        let i = choose|i: int|
            0 <= i < spans.len() && counts::<CompiledPattern>(config, line, #[trigger] spans[i]);
        lemma_spans_occur(needles, line, 0, spans, i);
        let k = choose|k: int|
            0 <= k < needles.len() && occurs_at(line, #[trigger] needles[k], spans[i].0 as int)
                && spans[i].1 == spans[i].0 + needles[k].len();
        assert(line.subrange(0, line.len() as int) =~= line);
        assert(needles[k] == line);
    }
}

/// Every match is an occurrence.
proof fn lemma_spans_occur(
    needles: Seq<Seq<u8>>,
    line: Seq<u8>,
    from: int,
    spans: Seq<Span>,
    i: int,
)
    requires
        are_leftmost_longest(needles, line, from, spans),
        0 <= i < spans.len(),
    ensures
        is_occurrence(needles, line, spans[i]),
    decreases spans.len(),
{
    if i > 0 {
        assert(spans.drop_first()[i - 1] == spans[i]);
        lemma_spans_occur(needles, line, spans[0].1 as int, spans.drop_first(), i - 1);
    }
}

/// Searches for literal patterns never fail, never go back and are steady:
/// their matches can be listed in every line, one behind the other.
pub proof fn law_literal_search_never_fails(
    matcher: Matcher<CompiledPattern>,
    config: Config,
    line: Seq<u8>,
)
    requires
        matcher.compiled_from(config),
        line.len() <= usize::MAX,
    ensures
        all_move_forward(matcher.patterns(), line),
        all_steady(matcher.patterns(), line),
        line_matches(matcher.patterns(), line) is Ok,
        is_wanted(config, matcher.patterns(), line) is Ok,
{
    law_literal_engine_takes_plain_patterns(matcher, config, 0, (0, Seq::empty()));
    assert forall|i: int| 0 <= i < matcher.patterns().len() implies moves_forward(
        #[trigger] matcher.patterns()[i],
        line,
    ) by {
        lemma_moves_forward(matcher.patterns()[i], line);
    }
    assert forall|i: int| 0 <= i < matcher.patterns().len() implies is_steady(
        #[trigger] matcher.patterns()[i],
        line,
    ) by {
        lemma_is_steady(matcher.patterns()[i], line);
    }
    law_matches_are_in_order(matcher.patterns(), line);
    law_is_match_agrees_with_match_line(config, matcher.patterns(), line);
}

/// A pattern that is plain in one regex syntax is plain in all of them, and as
/// fixed text.
pub proof fn law_plain_in_one_syntax_is_plain_in_all(
    pattern: Seq<char>,
    ignore_case: bool,
    mode: RegexMode,
    other: RegexMode,
)
    requires
        mode != RegexMode::Fixed,
        is_plain(pattern, ignore_case, mode),
    ensures
        is_plain(pattern, ignore_case, other),
{
}

/// A pattern that is plain in a regex syntax does not start with a repeat
/// operator, so that nothing is dropped from it.
pub proof fn law_plain_patterns_start_with_no_repeat(
    pattern: Seq<char>,
    ignore_case: bool,
    mode: RegexMode,
)
    requires
        mode != RegexMode::Fixed,
        is_plain(pattern, ignore_case, mode),
    ensures
        leading_repeat(pattern) is None,
{
    assert(!is_special(pattern[0]));
}

/// `-x`, `-w`, `-v` and `-z` make no difference to how a pattern is compiled.
pub proof fn law_filters_do_not_change_patterns(
    pattern: Seq<char>,
    config: Config,
    other: Config,
    outcome: Result<CompiledPattern, (i32, Seq<char>)>,
)
    requires
        config.regex_mode == other.regex_mode,
        config.ignore_case == other.ignore_case,
    ensures
        CompiledPattern::compiles_to(pattern, config, outcome) == CompiledPattern::compiles_to(
            pattern,
            other,
            outcome,
        ),
{
}

/// Start and end of the line count as non-words: under `-x`, which asks for the
/// whole line, `-w` asks for nothing more.
pub proof fn law_whole_line_stands_alone(config: Config, line: Seq<u8>, span: Span)
    requires
        config.line_regexp,
    ensures
        counts::<CompiledPattern>(config, line, span) <==> span.0 == 0 && span.1 == line.len(),
{
}

} // verus!
