//! What holds of the order in which the matches of several patterns are listed.

use crate::engine::{Engine, Span};
use crate::error::Fault;
use crate::laws::{all_move_forward, law_matches_are_in_order, lemma_best_exists, moves_forward};
use crate::listing::{lemma_run, line_matches, run};
use crate::merge::{
    all_or_fault, best, comes_first, is_best, lemma_all_or_fault, opened, refreshed_each, searched,
    step, CursorState, MergeState,
};
use vstd::prelude::*;

verus! {

/// The leftmost match of `pattern` that a search from `from` finds, as long as
/// it can be, where no search fails. There is none behind the end of the line.
pub open spec fn next_match<E: Engine>(pattern: E, line: Seq<u8>, from: usize) -> Option<Span> {
    if from > line.len() {
        None
    } else {
        match pattern.leftmost(line, from) {
            Ok(Some(span)) => match pattern.longest(line, span.0) {
                Ok(Some(end)) => Some((span.0, end)),
                _ => Some(span),
            },
            _ => None,
        }
    }
}

/// Whether it makes no difference to a search for `pattern` in `line` how far
/// before the match it begins.
pub open spec fn is_steady<E: Engine>(pattern: E, line: Seq<u8>) -> bool {
    forall|from: usize, later: usize|
        from <= later <= line.len() ==> match #[trigger] pattern.leftmost(line, from) {
            Ok(Some(span)) => later <= span.0 ==> #[trigger] pattern.leftmost(line, later) == Ok::<
                Option<Span>,
                (i32, Seq<char>),
            >(Some(span)),
            Ok(None) => pattern.leftmost(line, later) == Ok::<Option<Span>, (i32, Seq<char>)>(None),
            Err(_) => true,
        }
}

/// Whether this holds of all `patterns`.
pub open spec fn all_steady<E: Engine>(patterns: Seq<E>, line: Seq<u8>) -> bool {
    forall|i: int| 0 <= i < patterns.len() ==> is_steady(#[trigger] patterns[i], line)
}

/// Whether `span` starts before `other`, or with it and ends no sooner.
pub open spec fn is_no_worse(span: Span, other: Span) -> bool {
    span.0 < other.0 || span.0 == other.0 && span.1 >= other.1
}

/// Whether no match of `pattern` behind `from` is better than `span`. Where an
/// empty match at `from` was just listed, the pattern may have listed its own
/// and be searched for one byte farther on.
pub open spec fn is_no_worse_than_any<E: Engine>(
    pattern: E,
    line: Seq<u8>,
    from: usize,
    after_empty: bool,
    span: Span,
) -> bool {
    match next_match(pattern, line, from) {
        None => true,
        Some(other) => {
            ||| is_no_worse(span, other)
            ||| after_empty && other == (from, from) && match next_match(
                pattern,
                line,
                (from + 1) as usize,
            ) {
                None => true,
                Some(farther) => is_no_worse(span, farther),
            }
        },
    }
}

/// Whether no match of `pattern` is left behind `from`.
pub open spec fn is_exhausted<E: Engine>(
    pattern: E,
    line: Seq<u8>,
    from: usize,
    after_empty: bool,
) -> bool {
    match next_match(pattern, line, from) {
        None => true,
        Some(other) => after_empty && other == (from, from) && next_match(
            pattern,
            line,
            (from + 1) as usize,
        ) is None,
    }
}

/// Whether `span` is the match of one of `patterns` behind `from`.
pub open spec fn is_a_match<E: Engine>(
    patterns: Seq<E>,
    line: Seq<u8>,
    from: usize,
    after_empty: bool,
    span: Span,
) -> bool {
    exists|i: int|
        0 <= i < patterns.len() && (next_match(#[trigger] patterns[i], line, from) == Some(span)
            || after_empty && next_match(patterns[i], line, (from + 1) as usize) == Some(span))
}

/// Whether `spans` are matches of `patterns` in `line` behind `from`, each of
/// them leftmost and longest of all that are behind the one before it, and none
/// is left behind the last.
pub open spec fn are_best<E: Engine>(
    patterns: Seq<E>,
    line: Seq<u8>,
    from: usize,
    after_empty: bool,
    spans: Seq<Span>,
) -> bool
    decreases spans.len(),
{
    if spans.len() == 0 {
        forall|i: int|
            0 <= i < patterns.len() ==> is_exhausted(#[trigger] patterns[i], line, from, after_empty)
    } else {
        let span = spans[0];
        &&& is_a_match(patterns, line, from, after_empty, span)
        &&& forall|i: int|
            0 <= i < patterns.len() ==> is_no_worse_than_any(
                #[trigger] patterns[i],
                line,
                from,
                after_empty,
                span,
            )
        &&& are_best(patterns, line, span.1, span.0 == span.1, spans.drop_first())
    }
}

/// What a search finds does not depend on where it began.
proof fn lemma_steady<E: Engine>(pattern: E, line: Seq<u8>, from: usize, later: usize)
    requires
        moves_forward(pattern, line),
        is_steady(pattern, line),
        from <= later,
    ensures
        searched(pattern, line, from) is Ok,
        (searched(pattern, line, from)->Ok_0).pending == next_match(pattern, line, from),
        match next_match(pattern, line, from) {
            Some(span) => {
                &&& from <= span.0 <= span.1
                &&& span.0 < usize::MAX
                &&& (searched(pattern, line, from)->Ok_0).offset == (if span.1 > span.0 {
                    span.1
                } else {
                    (span.0 + 1) as usize
                })
                &&& later <= span.0 ==> next_match(pattern, line, later) == Some(span)
            },
            None => next_match(pattern, line, later) is None,
        },
{
    if from <= line.len() {
        let hit = pattern.leftmost(line, from);
        if let Ok(Some(span)) = hit {
            let end = pattern.longest(line, span.0);
        }
        if later <= line.len() {
            let hit = pattern.leftmost(line, later);
        }
    }
}

/// Whether the pending match of `cursor` was searched for from `from`, a place
/// at or before `last_end`, or behind the empty match of `pattern` there.
spec fn is_from<E: Engine>(
    pattern: E,
    line: Seq<u8>,
    cursor: CursorState,
    last_end: usize,
    after_empty: bool,
    from: usize,
) -> bool {
    &&& cursor.pending == next_match(pattern, line, from)
    &&& cursor.pending matches Some(span) ==> cursor.offset == (if span.1 > span.0 {
        span.1
    } else {
        (span.0 + 1) as usize
    })
    &&& from <= last_end || after_empty && from == last_end + 1 && next_match(
        pattern,
        line,
        last_end,
    ) == Some((last_end, last_end))
}

spec fn is_known<E: Engine>(
    pattern: E,
    line: Seq<u8>,
    cursor: CursorState,
    last_end: usize,
    after_empty: bool,
) -> bool {
    exists|from: usize| is_from(pattern, line, cursor, last_end, after_empty, from)
}

spec fn all_known<E: Engine>(
    patterns: Seq<E>,
    line: Seq<u8>,
    state: MergeState,
    after_empty: bool,
) -> bool {
    &&& state.cursors.len() == patterns.len()
    &&& forall|i: int|
        0 <= i < patterns.len() ==> is_known(
            patterns[i],
            line,
            #[trigger] state.cursors[i],
            state.last_end,
            after_empty,
        )
}

/// What a cursor that is not stale has to do with the match behind `last_end`.
proof fn lemma_known<E: Engine>(
    pattern: E,
    line: Seq<u8>,
    cursor: CursorState,
    last_end: usize,
    after_empty: bool,
)
    requires
        moves_forward(pattern, line),
        is_steady(pattern, line),
        is_known(pattern, line, cursor, last_end, after_empty),
        cursor.pending matches Some(span) ==> last_end <= span.0,
    ensures
        next_match(pattern, line, last_end) == cursor.pending || after_empty && next_match(
            pattern,
            line,
            last_end,
        ) == Some((last_end, last_end)) && cursor.pending == next_match(
            pattern,
            line,
            (last_end + 1) as usize,
        ),
{
    let from = choose|from: usize| is_from(pattern, line, cursor, last_end, after_empty, from);
    if from <= last_end {
        lemma_steady(pattern, line, from, last_end);
    }
}

proof fn lemma_best_step<E: Engine>(
    patterns: Seq<E>,
    line: Seq<u8>,
    state: MergeState,
    after_empty: bool,
)
    requires
        all_move_forward(patterns, line),
        all_steady(patterns, line),
        all_known(patterns, line, state, after_empty),
        step(patterns, line, state) is Ok,
    ensures
        match step(patterns, line, state)->Ok_0 {
            None => forall|i: int|
                0 <= i < patterns.len() ==> is_exhausted(
                    #[trigger] patterns[i],
                    line,
                    state.last_end,
                    after_empty,
                ),
            Some((next, span)) => {
                &&& is_a_match(patterns, line, state.last_end, after_empty, span)
                &&& forall|i: int|
                    0 <= i < patterns.len() ==> is_no_worse_than_any(
                        #[trigger] patterns[i],
                        line,
                        state.last_end,
                        after_empty,
                        span,
                    )
                &&& next.last_end == span.1
                &&& all_known(patterns, line, next, span.0 == span.1)
            },
        },
{
    let place = state.last_end;
    let items = refreshed_each(patterns, line, state);
    lemma_all_or_fault(items);
    let fresh = all_or_fault(items)->Ok_0;
    assert forall|i: int| 0 <= i < fresh.len() implies is_known(
        patterns[i],
        line,
        #[trigger] fresh[i],
        place,
        after_empty,
    ) && (fresh[i].pending matches Some(span) ==> place <= span.0 <= span.1 && span.0
        < usize::MAX) by {
        assert(items[i] == Ok::<_, Fault>(fresh[i]));
        let cursor = state.cursors[i];
        assert(is_known(patterns[i], line, cursor, place, after_empty));
        let from = choose|from: usize|
            is_from(patterns[i], line, cursor, place, after_empty, from);
        assert(moves_forward(patterns[i], line) && is_steady(patterns[i], line));
        lemma_steady(patterns[i], line, from, from);
        lemma_steady(patterns[i], line, place, place);
        if fresh[i] != cursor {
            assert(is_from(patterns[i], line, fresh[i], place, after_empty, place));
        }
    }
    match best(fresh) {
        None => {
            assert forall|i: int| 0 <= i < patterns.len() implies is_exhausted(
                #[trigger] patterns[i],
                line,
                place,
                after_empty,
            ) by {
                assert(is_known(patterns[i], line, fresh[i], place, after_empty));
                if fresh[i].pending is Some {
                    lemma_best_exists(fresh, i);
                }
                lemma_known(patterns[i], line, fresh[i], place, after_empty);
            }
        },
        Some(b) => {
            assert(is_best(fresh, b));
            let (next, span) = step(patterns, line, state)->Ok_0->0;
            assert(is_known(patterns[b], line, fresh[b], place, after_empty));
            lemma_known(patterns[b], line, fresh[b], place, after_empty);
            assert(is_a_match(patterns, line, place, after_empty, span)) by {
                assert(next_match(patterns[b], line, place) == Some(span) || after_empty
                    && next_match(patterns[b], line, (place + 1) as usize) == Some(span));
            }
            assert forall|i: int| 0 <= i < patterns.len() implies is_no_worse_than_any(
                #[trigger] patterns[i],
                line,
                place,
                after_empty,
                span,
            ) by {
                assert(is_known(patterns[i], line, fresh[i], place, after_empty));
                lemma_known(patterns[i], line, fresh[i], place, after_empty);
                if fresh[i].pending is Some {
                    assert(comes_first(span, b, fresh[i].pending->0, i));
                }
            }
            let empty = span.0 == span.1;
            assert forall|i: int| 0 <= i < patterns.len() implies is_known(
                patterns[i],
                line,
                #[trigger] next.cursors[i],
                span.1,
                empty,
            ) by {
                assert(is_known(patterns[i], line, fresh[i], place, after_empty));
                let from = choose|from: usize|
                    is_from(patterns[i], line, fresh[i], place, after_empty, from);
                if i == b {
                    lemma_steady(patterns[b], line, fresh[b].offset, fresh[b].offset);
                    if empty {
                        lemma_steady(patterns[b], line, from, span.1);
                    }
                    assert(is_from(
                        patterns[b],
                        line,
                        next.cursors[b],
                        span.1,
                        empty,
                        fresh[b].offset,
                    ));
                } else {
                    assert(is_from(patterns[i], line, next.cursors[i], span.1, empty, from));
                }
            }
        },
    }
}

proof fn lemma_best_run<E: Engine>(
    patterns: Seq<E>,
    line: Seq<u8>,
    state: MergeState,
    after_empty: bool,
    spans: Seq<Span>,
)
    requires
        all_move_forward(patterns, line),
        all_steady(patterns, line),
        all_known(patterns, line, state, after_empty),
        run(patterns, line, state) == Ok::<_, Fault>(spans),
    ensures
        are_best(patterns, line, state.last_end, after_empty, spans),
    decreases spans.len(),
{
    lemma_run(patterns, line, state);
    lemma_best_step(patterns, line, state, after_empty);
    if let Some((next, span)) = step(patterns, line, state)->Ok_0 {
        let rest = run(patterns, line, next)->Ok_0;
        assert(spans == seq![span] + rest);
        assert(spans.drop_first() =~= rest);
        lemma_best_run(patterns, line, next, span.0 == span.1, rest);
    }
}

/// Leftmost-longest holds across patterns, from the first match of a line to the
/// last: where searches never fail, never go back and are steady, every match
/// listed is, of the matches that any of the patterns has behind the one before
/// it, leftmost, and of those longest, and none is left behind the last.
pub proof fn law_every_match_is_leftmost_longest<E: Engine>(patterns: Seq<E>, line: Seq<u8>)
    requires
        all_move_forward(patterns, line),
        all_steady(patterns, line),
    ensures
        line_matches(patterns, line) is Ok,
        are_best(patterns, line, 0, false, line_matches(patterns, line)->Ok_0),
{
    law_matches_are_in_order(patterns, line);
    let items = Seq::new(patterns.len(), |i: int| searched(patterns[i], line, 0));
    lemma_all_or_fault(items);
    let state = opened(patterns, line)->Ok_0;
    assert forall|i: int| 0 <= i < patterns.len() implies is_known(
        patterns[i],
        line,
        #[trigger] state.cursors[i],
        0,
        false,
    ) by {
        assert(items[i] == Ok::<_, Fault>(state.cursors[i]));
        lemma_steady(patterns[i], line, 0, 0);
        assert(is_from(patterns[i], line, state.cursors[i], 0, false, 0));
    }
    lemma_best_run(patterns, line, state, false, line_matches(patterns, line)->Ok_0);
}

} // verus!
