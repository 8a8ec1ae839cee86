//! What the steps of a search do, one by one, in terms of what goes in and what
//! comes out.

use crate::config::Config;
use crate::engine::{found, Engine, Span};
use crate::error::{CompileError, EngineError, Fault, MatchError};
use crate::laws::{lemma_best_exists, lemma_no_fault};
use crate::listing::{ends, lemma_run, lemma_run_within, line_matches, run, run_within, state_after};
use crate::matcher::{any_counts, any_matches, counts, is_wanted, selection};
use crate::merge::{
    all_or_fault, best, is_best, lemma_all_or_fault, opened, refreshed_each, searched, step,
    CursorState, MergeState,
};
use vstd::prelude::*;

verus! {

/// A search that succeeds yields the leftmost match, as long as it can be: its
/// start is where the engine finds a match, its end that of the longest match
/// there, or of the match that was found if the engine knows of no longer one.
/// The next search begins behind it, and behind its first byte if it is empty.
/// There is no match exactly if the engine finds none.
pub proof fn law_a_search_yields_the_longest_match<E: Engine>(
    pattern: E,
    line: Seq<u8>,
    offset: usize,
)
    requires
        searched(pattern, line, offset) is Ok,
    ensures
        ({
            let cursor = searched(pattern, line, offset)->Ok_0;
            &&& cursor.pending is None <==> offset > line.len() || pattern.leftmost(line, offset)
                == Ok::<Option<Span>, (i32, Seq<char>)>(None)
            &&& cursor.pending is None ==> cursor.offset == offset
            &&& cursor.pending matches Some(span) ==> {
                &&& pattern.leftmost(line, offset) matches Ok(Some(hit)) && hit.0 == span.0 && (
                pattern.longest(line, span.0) == Ok::<Option<usize>, (i32, Seq<char>)>(Some(span.1))
                    || pattern.longest(line, span.0) == Ok::<Option<usize>, (i32, Seq<char>)>(None)
                    && hit.1 == span.1)
                &&& span.0 <= line.len()
                &&& span.1 > span.0 ==> cursor.offset == span.1
                &&& span.1 <= span.0 && span.0 < usize::MAX ==> cursor.offset == span.0 + 1
            }
        }),
{
}

/// A search fails exactly if the engine fails to find a match or to say how long
/// it is, with the engine's error, or if the match starts behind the line.
pub proof fn law_a_search_fails_as_the_engine_does<E: Engine>(
    pattern: E,
    line: Seq<u8>,
    offset: usize,
)
    ensures
        searched(pattern, line, offset) is Err ==> offset <= line.len(),
        offset <= line.len() ==> match pattern.leftmost(line, offset) {
            Err(error) => searched(pattern, line, offset) == Err::<CursorState, _>(
                Fault::Engine(error.0, error.1),
            ),
            Ok(None) => searched(pattern, line, offset) is Ok,
            Ok(Some(hit)) => {
                &&& hit.0 > line.len() ==> searched(pattern, line, offset) == Err::<CursorState, _>(
                    Fault::OutOfLine,
                )
                &&& hit.0 <= line.len() ==> (searched(pattern, line, offset) is Ok
                    <==> pattern.longest(line, hit.0) is Ok)
                &&& hit.0 <= line.len() ==> (pattern.longest(line, hit.0) matches Err(
                    error,
                ) ==> searched(pattern, line, offset) == Err::<CursorState, _>(
                    Fault::Engine(error.0, error.1),
                ))
            },
        },
{
}

/// Every pattern is first searched for from the start of the line.
pub proof fn law_a_line_is_searched_from_its_start<E: Engine>(patterns: Seq<E>, line: Seq<u8>)
    ensures
        opened(patterns, line) is Ok <==> forall|i: int|
            0 <= i < patterns.len() ==> searched(#[trigger] patterns[i], line, 0) is Ok,
        opened(patterns, line) matches Ok(state) ==> {
            &&& state.last_end == 0
            &&& state.cursors.len() == patterns.len()
            &&& forall|i: int|
                0 <= i < patterns.len() ==> searched(#[trigger] patterns[i], line, 0) == Ok::<
                    _,
                    Fault,
                >(state.cursors[i])
        },
{
    let items = Seq::new(patterns.len(), |i: int| searched(patterns[i], line, 0));
    if forall|i: int| 0 <= i < patterns.len() ==> searched(#[trigger] patterns[i], line, 0) is Ok {
        assert forall|i: int| 0 <= i < items.len() implies (#[trigger] items[i]) is Ok by {
            assert(searched(patterns[i], line, 0) is Ok);
        }
        lemma_no_fault(items);
    }
    if opened(patterns, line) is Ok {
        lemma_all_or_fault(items);
        assert forall|i: int| 0 <= i < patterns.len() implies searched(
            #[trigger] patterns[i],
            line,
            0,
        ) == Ok::<_, Fault>(opened(patterns, line)->Ok_0.cursors[i]) by {
            assert(items[i] == Ok::<_, Fault>(opened(patterns, line)->Ok_0.cursors[i]));
        }
    }
}

/// Of the pending matches the leftmost comes first, of those the longest, and of
/// those that of the first pattern. None does exactly if none is pending.
pub proof fn law_the_leftmost_longest_comes_first(cursors: Seq<CursorState>)
    ensures
        best(cursors) is None <==> forall|j: int|
            0 <= j < cursors.len() ==> (#[trigger] cursors[j]).pending is None,
        best(cursors) matches Some(i) ==> {
            &&& 0 <= i < cursors.len()
            &&& cursors[i].pending is Some
            &&& forall|j: int|
                0 <= j < cursors.len() && (#[trigger] cursors[j]).pending is Some ==> {
                    let (span, other) = (cursors[i].pending->0, cursors[j].pending->0);
                    &&& span.0 <= other.0
                    &&& span.0 == other.0 ==> span.1 >= other.1
                    &&& span == other ==> i <= j
                }
        },
{
    if let Some(i) = best(cursors) {
        assert(is_best(cursors, i));
    }
    if exists|j: int| 0 <= j < cursors.len() && (#[trigger] cursors[j]).pending is Some {
        let j = choose|j: int| 0 <= j < cursors.len() && (#[trigger] cursors[j]).pending is Some;
        lemma_best_exists(cursors, j);
    }
}

/// Whether `fresh` is what becomes of `state` when each match that starts before
/// the end of the last one is searched for again from there, and no other.
pub open spec fn is_fresh<E: Engine>(
    patterns: Seq<E>,
    line: Seq<u8>,
    state: MergeState,
    fresh: Seq<CursorState>,
) -> bool {
    &&& fresh.len() == state.cursors.len()
    &&& forall|j: int|
        0 <= j < fresh.len() ==> match (#[trigger] state.cursors[j]).pending {
            Some(span) => if span.0 < state.last_end {
                searched(patterns[j], line, state.last_end) == Ok::<_, Fault>(fresh[j])
            } else {
                fresh[j] == state.cursors[j]
            },
            None => fresh[j] == state.cursors[j],
        }
}

/// Where the next match exists, it is that of one of the patterns, and its own
/// cursor alone goes on, to where the match told it to. It ends where the last
/// end then is. There is none exactly if no pattern has one left.
pub proof fn law_a_step_lists_the_first_match<E: Engine>(
    patterns: Seq<E>,
    line: Seq<u8>,
    state: MergeState,
)
    requires
        step(patterns, line, state) is Ok,
    ensures
        exists|fresh: Seq<CursorState>| #[trigger]
            is_fresh(patterns, line, state, fresh) && match step(patterns, line, state)->Ok_0 {
                None => forall|j: int|
                    0 <= j < fresh.len() ==> (#[trigger] fresh[j]).pending is None,
                Some((next, span)) => exists|i: int|
                    0 <= i < fresh.len() && (#[trigger] fresh[i]).pending == Some(span) && best(
                        fresh,
                    ) == Some(i) && searched(patterns[i], line, fresh[i].offset) == Ok::<_, Fault>(
                        next.cursors[i],
                    ) && next.last_end == span.1 && next.cursors == fresh.update(
                        i,
                        next.cursors[i],
                    ),
            },
{
    let items = refreshed_each(patterns, line, state);
    lemma_all_or_fault(items);
    let fresh = all_or_fault(items)->Ok_0;
    assert(is_fresh(patterns, line, state, fresh)) by {
        assert forall|j: int| 0 <= j < fresh.len() implies match (
        #[trigger] state.cursors[j]).pending {
            Some(span) => if span.0 < state.last_end {
                searched(patterns[j], line, state.last_end) == Ok::<_, Fault>(fresh[j])
            } else {
                fresh[j] == state.cursors[j]
            },
            None => fresh[j] == state.cursors[j],
        } by {
            assert(items[j] == Ok::<_, Fault>(fresh[j]));
        }
    }
    law_the_leftmost_longest_comes_first(fresh);
    if let Some((next, span)) = step(patterns, line, state)->Ok_0 {
        let i = best(fresh)->0;
        assert(next.cursors =~= fresh.update(i, next.cursors[i]));
        assert(fresh[i].pending == Some(span));
    }
}

/// The fault of several searches is that of the first that fails.
proof fn lemma_fault_of_one(items: Seq<Result<CursorState, Fault>>) -> (j: int)
    requires
        all_or_fault(items) is Err,
    ensures
        0 <= j < items.len(),
        items[j] == Err::<CursorState, _>(all_or_fault(items)->Err_0),
        forall|i: int| 0 <= i < j ==> #[trigger] items[i] is Ok,
    decreases items.len(),
{
    let head = items.drop_last();
    if all_or_fault(head) is Err {
        let j = lemma_fault_of_one(head);
        assert forall|i: int| 0 <= i < j implies #[trigger] items[i] is Ok by {
            assert(head[i] is Ok);
        }
        j
    } else {
        lemma_all_or_fault(head);
        assert forall|i: int| 0 <= i < head.len() implies #[trigger] items[i] is Ok by {
            assert(head[i] == items[i]);
        }
        items.len() - 1
    }
}

/// Whether the match that cursor `j` of `state` has pending starts before the end of
/// the last match listed, so that it has to be searched for again.
pub open spec fn lies_behind(state: MergeState, j: int) -> bool {
    state.cursors[j].pending matches Some(span) && span.0 < state.last_end
}

/// A step fails only if one of its searches does, with the fault of the first that
/// does: of those for the matches that lie behind, from the end of the last match
/// listed, and, if none of them fails, that for what follows the match that comes
/// first.
pub proof fn law_a_step_fails_as_a_search_does<E: Engine>(
    patterns: Seq<E>,
    line: Seq<u8>,
    state: MergeState,
)
    requires
        step(patterns, line, state) is Err,
    ensures
        ({
            let fault = step(patterns, line, state)->Err_0;
            ||| exists|j: int|
                0 <= j < state.cursors.len() && #[trigger] lies_behind(state, j) && searched(
                    patterns[j],
                    line,
                    state.last_end,
                ) == Err::<CursorState, _>(fault) && forall|i: int|
                    0 <= i < j && #[trigger] lies_behind(state, i) ==> searched(
                        patterns[i],
                        line,
                        state.last_end,
                    ) is Ok
            ||| exists|fresh: Seq<CursorState>| #[trigger]
                is_fresh(patterns, line, state, fresh) && (best(fresh) matches Some(i) && searched(
                    patterns[i],
                    line,
                    fresh[i].offset,
                ) == Err::<CursorState, _>(fault))
        }),
{
    let items = refreshed_each(patterns, line, state);
    let fault = step(patterns, line, state)->Err_0;
    match all_or_fault(items) {
        Err(_) => {
            let j = lemma_fault_of_one(items);
            assert(lies_behind(state, j));
            assert forall|i: int| 0 <= i < j && #[trigger] lies_behind(state, i) implies searched(
                patterns[i],
                line,
                state.last_end,
            ) is Ok by {
                assert(items[i] is Ok);
            }
        },
        Ok(fresh) => {
            lemma_all_or_fault(items);
            assert forall|j: int| 0 <= j < fresh.len() implies match (
            #[trigger] state.cursors[j]).pending {
                Some(span) => if span.0 < state.last_end {
                    searched(patterns[j], line, state.last_end) == Ok::<_, Fault>(fresh[j])
                } else {
                    fresh[j] == state.cursors[j]
                },
                None => fresh[j] == state.cursors[j],
            } by {
                assert(items[j] == Ok::<_, Fault>(fresh[j]));
            }
            assert(is_fresh(patterns, line, state, fresh));
        },
    }
}

/// A line fails at its start exactly if a search from there does, with the fault of
/// the first pattern whose search fails.
pub proof fn law_a_line_fails_at_its_start_as_the_first_search_does<E: Engine>(
    patterns: Seq<E>,
    line: Seq<u8>,
    j: int,
)
    requires
        0 <= j < patterns.len(),
        searched(patterns[j], line, 0) is Err,
        forall|i: int| 0 <= i < j ==> searched(#[trigger] patterns[i], line, 0) is Ok,
    ensures
        opened(patterns, line) == Err::<MergeState, _>(searched(patterns[j], line, 0)->Err_0),
{
    let items = Seq::new(patterns.len(), |i: int| searched(patterns[i], line, 0));
    if all_or_fault(items) is Ok {
        lemma_all_or_fault(items);
        assert(items[j] is Ok);
    } else {
        let first = lemma_fault_of_one(items);
        if first < j {
            assert(searched(patterns[first], line, 0) is Ok);
        } else if j < first {
            assert(items[j] is Ok);
        }
    }
}

/// The fault of a step is that of a search.
proof fn lemma_step_fault<E: Engine>(
    patterns: Seq<E>,
    line: Seq<u8>,
    state: MergeState,
)
    requires
        state.cursors.len() == patterns.len(),
        step(patterns, line, state) is Err,
    ensures
        exists|j: int, from: usize|
            0 <= j < patterns.len() && #[trigger] searched(patterns[j], line, from) == Err::<
                CursorState,
                _,
            >(step(patterns, line, state)->Err_0),
{
    let items = refreshed_each(patterns, line, state);
    let fault = step(patterns, line, state)->Err_0;
    match all_or_fault(items) {
        Err(_) => {
            let j = lemma_fault_of_one(items);
            assert(searched(patterns[j], line, state.last_end) == Err::<CursorState, _>(fault));
        },
        Ok(fresh) => {
            lemma_all_or_fault(items);
            let i = best(fresh)->0;
            law_the_leftmost_longest_comes_first(fresh);
            assert(searched(patterns[i], line, fresh[i].offset) == Err::<CursorState, _>(fault));
        },
    }
}

/// The matches of a line are listed one step after the other: the next one, then
/// those of the state behind it, until no match is left or a step fails.
pub proof fn law_matches_are_listed_step_by_step<E: Engine>(
    patterns: Seq<E>,
    line: Seq<u8>,
    state: MergeState,
)
    ensures
        match step(patterns, line, state) {
            Err(fault) => run(patterns, line, state) == Err::<Seq<Span>, _>(fault),
            Ok(None) => run(patterns, line, state) matches Ok(spans) && spans.len() == 0,
            Ok(Some((next, span))) => match run(patterns, line, next) {
                Err(fault) => run(patterns, line, state) == Err::<Seq<Span>, _>(fault),
                Ok(rest) => run(patterns, line, state) matches Ok(spans) && {
                    &&& spans.len() == rest.len() + 1
                    &&& spans[0] == span
                    &&& forall|k: int| 0 <= k < rest.len() ==> spans[k + 1] == #[trigger] rest[k]
                },
            },
        },
        match opened(patterns, line) {
            Err(fault) => line_matches(patterns, line) == Err::<Seq<Span>, _>(fault),
            Ok(first) => line_matches(patterns, line) == run(patterns, line, first),
        },
{
    lemma_run(patterns, line, state);
}

/// No step goes round in a circle by itself.
proof fn lemma_no_step_stalls<E: Engine>(patterns: Seq<E>, line: Seq<u8>, state: MergeState)
    ensures
        step(patterns, line, state) != Err::<Option<(MergeState, Span)>, _>(Fault::Stalled),
{
    let items = refreshed_each(patterns, line, state);
    if all_or_fault(items) is Err {
        let j = lemma_fault_of_one(items);
        law_a_search_fails_as_the_engine_does(patterns[j], line, state.last_end);
    } else {
        let fresh = all_or_fault(items)->Ok_0;
        if let Some(i) = best(fresh) {
            law_a_search_fails_as_the_engine_does(patterns[i], line, fresh[i].offset);
        }
    }
}

/// A line is given up as endless only if it is: after any number of matches there
/// is a next one.
pub proof fn law_only_endless_lines_are_given_up<E: Engine>(
    patterns: Seq<E>,
    line: Seq<u8>,
    state: MergeState,
    count: nat,
)
    requires
        run(patterns, line, state) == Err::<Seq<Span>, _>(Fault::Stalled),
    ensures
        state_after(patterns, line, state, count) is Some,
    decreases count,
{
    if count > 0 {
        lemma_run(patterns, line, state);
        lemma_no_step_stalls(patterns, line, state);
        let (next, _) = step(patterns, line, state)->Ok_0->0;
        law_only_endless_lines_are_given_up(patterns, line, next, (count - 1) as nat);
    }
}

proof fn lemma_ended<E: Engine>(
    patterns: Seq<E>,
    line: Seq<u8>,
    state: MergeState,
    limit: nat,
)
    requires
        run_within(patterns, line, state, limit) is Some,
    ensures
        state_after(patterns, line, state, limit + 1) is None,
    decreases limit,
{
    if let Ok(Some((next, _))) = step(patterns, line, state) {
        lemma_ended(patterns, line, next, (limit - 1) as nat);
        assert(state_after(patterns, line, next, limit) is None);
    }
}

/// Every endless line is given up: one in which there is a next match after any
/// number of them.
pub proof fn law_endless_lines_are_given_up<E: Engine>(
    patterns: Seq<E>,
    line: Seq<u8>,
    state: MergeState,
)
    requires
        forall|count: nat| #[trigger] state_after(patterns, line, state, count) is Some,
    ensures
        run(patterns, line, state) == Err::<Seq<Span>, _>(Fault::Stalled),
{
    if ends(patterns, line, state) {
        let limit = choose|limit: nat| run_within(patterns, line, state, limit) is Some;
        lemma_ended(patterns, line, state, limit);
        assert(state_after(patterns, line, state, limit + 1) is Some);
    }
}

/// Errors keep their number and their text, and whose they are.
pub proof fn law_errors_tell_what_they_are(
    failed: MatchError,
    engine: EngineError,
    compile: CompileError,
)
    ensures
        engine@ == (engine.code, engine.message@),
        compile@ == (compile.code, compile.message@),
        found(Err(engine)) == Err::<Option<Span>, _>((engine.code, engine.message@)),
        failed@ is OutOfLine <==> failed is OutOfLine,
        failed@ is Stalled <==> failed is Stalled,
        failed matches MatchError::Engine(error) ==> failed@ == Fault::Engine(
            error.code,
            error.message@,
        ),
{
}

/// Whether `span` is exactly a match of one of `patterns` in `line`: it starts
/// where a search for that pattern from some place finds a match, and ends where
/// the longest match there ends, or the match found if there is no longer one.
pub open spec fn is_exact_match<E: Engine>(patterns: Seq<E>, line: Seq<u8>, span: Span) -> bool {
    exists|i: int, from: usize|
        0 <= i < patterns.len() && from <= line.len() && ((
        #[trigger] patterns[i].leftmost(line, from)) matches Ok(Some(hit)) && hit.0 == span.0 && (
        patterns[i].longest(line, span.0) == Ok::<Option<usize>, (i32, Seq<char>)>(Some(span.1))
            || patterns[i].longest(line, span.0) == Ok::<Option<usize>, (i32, Seq<char>)>(None)
            && hit.1 == span.1))
}

spec fn all_pending_exact<E: Engine>(
    patterns: Seq<E>,
    line: Seq<u8>,
    cursors: Seq<CursorState>,
) -> bool {
    &&& cursors.len() == patterns.len()
    &&& forall|i: int|
        0 <= i < cursors.len() ==> ((#[trigger] cursors[i]).pending matches Some(
            span,
        ) ==> is_exact_match(patterns, line, span))
}

proof fn lemma_search_is_exact<E: Engine>(patterns: Seq<E>, line: Seq<u8>, i: int, from: usize)
    requires
        0 <= i < patterns.len(),
        searched(patterns[i], line, from) is Ok,
    ensures
        (searched(patterns[i], line, from)->Ok_0).pending matches Some(span) ==> is_exact_match(
            patterns,
            line,
            span,
        ),
{
    law_a_search_yields_the_longest_match(patterns[i], line, from);
    let hit = patterns[i].leftmost(line, from);
}

proof fn lemma_run_is_exact<E: Engine>(
    patterns: Seq<E>,
    line: Seq<u8>,
    state: MergeState,
    spans: Seq<Span>,
    k: int,
)
    requires
        all_pending_exact(patterns, line, state.cursors),
        run(patterns, line, state) == Ok::<_, Fault>(spans),
        0 <= k < spans.len(),
    ensures
        is_exact_match(patterns, line, spans[k]),
    decreases spans.len(),
{
    law_matches_are_listed_step_by_step(patterns, line, state);
    law_a_step_lists_the_first_match(patterns, line, state);
    let (next, span) = step(patterns, line, state)->Ok_0->0;
    let rest = run(patterns, line, next)->Ok_0;
    let fresh = choose|fresh: Seq<CursorState>| #[trigger]
        is_fresh(patterns, line, state, fresh) && exists|i: int|
            0 <= i < fresh.len() && (#[trigger] fresh[i]).pending == Some(span) && best(fresh)
                == Some(i) && searched(patterns[i], line, fresh[i].offset) == Ok::<_, Fault>(
                next.cursors[i],
            ) && next.last_end == span.1 && next.cursors == fresh.update(i, next.cursors[i]);
    let i = choose|i: int|
        0 <= i < fresh.len() && (#[trigger] fresh[i]).pending == Some(span) && best(fresh) == Some(
            i,
        ) && searched(patterns[i], line, fresh[i].offset) == Ok::<_, Fault>(next.cursors[i])
            && next.last_end == span.1 && next.cursors == fresh.update(i, next.cursors[i]);
    assert forall|j: int| 0 <= j < fresh.len() implies ((#[trigger] fresh[j]).pending matches Some(
        span,
    ) ==> is_exact_match(patterns, line, span)) by {
        assert(state.cursors[j].pending matches Some(span) ==> is_exact_match(
            patterns,
            line,
            span,
        ));
        if searched(patterns[j], line, state.last_end) is Ok {
            lemma_search_is_exact(patterns, line, j, state.last_end);
        }
    }
    lemma_search_is_exact(patterns, line, i, fresh[i].offset);
    assert forall|j: int| 0 <= j < next.cursors.len() implies ((
    #[trigger] next.cursors[j]).pending matches Some(span) ==> is_exact_match(
        patterns,
        line,
        span,
    )) by {
        if j != i {
            assert(next.cursors[j] == fresh[j]);
        }
    }
    if k > 0 {
        assert(spans[k] == rest[k - 1]) by {
            let m = k - 1;
            assert(spans[m + 1] == rest[m]);
        }
        lemma_run_is_exact(patterns, line, next, rest, k - 1);
    } else {
        assert(fresh[i].pending == Some(span));
    }
}

/// Every match listed for a line is exactly a match of one of the patterns,
/// neither shorter nor longer: it starts where a search for that pattern finds a
/// match, and ends where the engine's longest match there does.
pub proof fn law_every_match_listed_is_exact<E: Engine>(
    patterns: Seq<E>,
    line: Seq<u8>,
    k: int,
)
    requires
        line_matches(patterns, line) is Ok,
        0 <= k < line_matches(patterns, line)->Ok_0.len(),
    ensures
        is_exact_match(patterns, line, line_matches(patterns, line)->Ok_0[k]),
{
    law_a_line_is_searched_from_its_start(patterns, line);
    let state = opened(patterns, line)->Ok_0;
    law_matches_are_listed_step_by_step(patterns, line, state);
    assert forall|i: int| 0 <= i < state.cursors.len() implies ((
    #[trigger] state.cursors[i]).pending matches Some(span) ==> is_exact_match(
        patterns,
        line,
        span,
    )) by {
        assert(searched(patterns[i], line, 0) is Ok);
        lemma_search_is_exact(patterns, line, i, 0);
    }
    lemma_run_is_exact(patterns, line, state, line_matches(patterns, line)->Ok_0, k);
}

/// Whether `fault` is one that searching `line` for `patterns` meets: an error of
/// the engine, or a match that starts behind the line.
pub open spec fn is_met<E: Engine>(patterns: Seq<E>, line: Seq<u8>, fault: Fault) -> bool {
    exists|i: int, from: usize|
        0 <= i < patterns.len() && from <= line.len() && match (
        #[trigger] patterns[i].leftmost(line, from)) {
            Err(error) => fault == Fault::Engine(error.0, error.1),
            Ok(None) => false,
            Ok(Some(hit)) => if hit.0 > line.len() {
                fault == Fault::OutOfLine
            } else {
                patterns[i].longest(line, hit.0) matches Err(error) && fault == Fault::Engine(
                    error.0,
                    error.1,
                )
            },
        }
}

proof fn lemma_search_meets<E: Engine>(patterns: Seq<E>, line: Seq<u8>, i: int, from: usize)
    requires
        0 <= i < patterns.len(),
        searched(patterns[i], line, from) is Err,
    ensures
        is_met(patterns, line, searched(patterns[i], line, from)->Err_0),
{
    law_a_search_fails_as_the_engine_does(patterns[i], line, from);
    let hit = patterns[i].leftmost(line, from);
}

proof fn lemma_run_meets<E: Engine>(
    patterns: Seq<E>,
    line: Seq<u8>,
    state: MergeState,
    limit: nat,
)
    requires
        state.cursors.len() == patterns.len(),
        run_within(patterns, line, state, limit) matches Some(Err(_)),
    ensures
        is_met(patterns, line, run_within(patterns, line, state, limit)->0->Err_0),
    decreases limit,
{
    match step(patterns, line, state) {
        Err(fault) => {
            lemma_step_fault(patterns, line, state);
            let (j, from) = choose|j: int, from: usize|
                0 <= j < patterns.len() && #[trigger] searched(patterns[j], line, from) == Err::<
                    CursorState,
                    _,
                >(fault);
            lemma_search_meets(patterns, line, j, from);
        },
        Ok(None) => {},
        Ok(Some((next, _))) => {
            law_a_step_lists_the_first_match(patterns, line, state);
            lemma_run_meets(patterns, line, next, (limit - 1) as nat);
        },
    }
}

/// A line fails only as the engine does: with an error that the engine gave, or
/// over a match that starts behind the line, unless its matches are endless.
pub proof fn law_a_line_fails_as_the_engine_does<E: Engine>(patterns: Seq<E>, line: Seq<u8>)
    ensures
        line_matches(patterns, line) matches Err(fault) ==> fault == Fault::Stalled || is_met(
            patterns,
            line,
            fault,
        ),
{
    match opened(patterns, line) {
        Err(fault) => {
            let items = Seq::new(patterns.len(), |i: int| searched(patterns[i], line, 0));
            let j = lemma_fault_of_one(items);
            lemma_search_meets(patterns, line, j, 0);
        },
        Ok(state) => {
            law_a_line_is_searched_from_its_start(patterns, line);
            if ends(patterns, line, state) {
                let limit = choose|limit: nat| run_within(patterns, line, state, limit) is Some;
                lemma_run_within(patterns, line, state, limit);
                if run(patterns, line, state) is Err {
                    lemma_run_meets(patterns, line, state, limit);
                }
            }
        },
    }
}

/// One match that counts makes a line wanted, and unwanted under `-v`: one that is
/// the whole line under `-x`, and that stands alone under `-w`.
pub proof fn law_one_match_that_counts_decides<E: Engine>(
    config: Config,
    line: Seq<u8>,
    spans: Seq<Span>,
    i: int,
)
    requires
        0 <= i < spans.len(),
        config.line_regexp ==> spans[i].0 == 0 && spans[i].1 == line.len(),
        config.word_regexp ==> E::stands_alone(line, spans[i].0, spans[i].1),
    ensures
        selection::<E>(config, line, spans) is Some <==> !config.invert_match,
{
    assert(counts::<E>(config, line, spans[i]));
}

/// A line none of whose matches counts is not wanted, and wanted under `-v`: each
/// is less than the whole line under `-x`, or does not stand alone under `-w`.
pub proof fn law_without_a_match_that_counts<E: Engine>(
    config: Config,
    line: Seq<u8>,
    spans: Seq<Span>,
)
    requires
        forall|i: int|
            0 <= i < spans.len() ==> config.line_regexp && ((#[trigger] spans[i]).0 != 0
                || spans[i].1 != line.len()) || config.word_regexp && !E::stands_alone(
                line,
                spans[i].0,
                spans[i].1,
            ),
    ensures
        selection::<E>(config, line, spans) is Some <==> config.invert_match,
{
    if any_counts::<E>(config, line, spans) {
        let i = choose|i: int|
            0 <= i < spans.len() && counts::<E>(config, line, #[trigger] spans[i]);
        assert(!counts::<E>(config, line, spans[i]));
    }
}

/// Whether `places` are the places in `spans`, in order, of all that `is_kept`
/// holds of.
spec fn are_places_of(
    spans: Seq<Span>,
    is_kept: spec_fn(Span) -> bool,
    places: Seq<int>,
) -> bool {
    &&& forall|k: int| 0 <= k < places.len() ==> 0 <= #[trigger] places[k] < spans.len()
    &&& forall|k: int, l: int|
        0 <= k < l < places.len() ==> #[trigger] places[k] < #[trigger] places[l]
    &&& forall|i: int|
        0 <= i < spans.len() ==> (is_kept(#[trigger] spans[i]) <==> places.contains(i))
}

proof fn lemma_filter_places(spans: Seq<Span>, is_kept: spec_fn(Span) -> bool) -> (places: Seq<int>)
    ensures
        are_places_of(spans, is_kept, places),
        spans.filter(is_kept).len() == places.len(),
        forall|k: int|
            0 <= k < places.len() ==> spans.filter(is_kept)[k] == spans[#[trigger] places[k]],
    decreases spans.len(),
{
    reveal(Seq::filter);
    if spans.len() == 0 {
        Seq::empty()
    } else {
        let head = spans.drop_last();
        let n = spans.len() - 1;
        let places = lemma_filter_places(head, is_kept);
        assert(forall|i: int| 0 <= i < n ==> head[i] == #[trigger] spans[i]);
        if is_kept(spans.last()) {
            let all = places.push(n);
            assert forall|i: int| 0 <= i < spans.len() implies (is_kept(#[trigger] spans[i])
                <==> all.contains(i)) by {
                if i < n {
                    assert(is_kept(head[i]) <==> places.contains(i));
                    if places.contains(i) {
                        let k = choose|k: int| 0 <= k < places.len() && places[k] == i;
                        assert(all[k] == i);
                    }
                    if all.contains(i) {
                        let k = choose|k: int| 0 <= k < all.len() && all[k] == i;
                        assert(places[k] == i);
                    }
                } else {
                    assert(all[places.len() as int] == n);
                }
            }
            assert forall|k: int| 0 <= k < all.len() implies spans.filter(is_kept)[k]
                == spans[#[trigger] all[k]] by {
                if k < places.len() {
                    assert(all[k] == places[k]);
                    assert(head.filter(is_kept)[k] == head[places[k]]);
                }
            }
            all
        } else {
            assert forall|i: int| 0 <= i < spans.len() implies (is_kept(#[trigger] spans[i])
                <==> places.contains(i)) by {
                if i < n {
                    assert(is_kept(head[i]) <==> places.contains(i));
                }
            }
            assert forall|k: int| 0 <= k < places.len() implies spans.filter(is_kept)[k]
                == spans[#[trigger] places[k]] by {
                assert(head.filter(is_kept)[k] == head[places[k]]);
            }
            places
        }
    }
}

/// What is highlighted in a line that is wanted are its matches, as they are and
/// in their order: all that are not empty, that are the whole line under `-x`, and
/// that stand alone under `-w`, and no others. The law gives their places among the
/// matches.
pub proof fn law_highlights_are_the_matches_that_count<E: Engine>(
    config: Config,
    line: Seq<u8>,
    spans: Seq<Span>,
) -> (places: Seq<int>)
    requires
        selection::<E>(config, line, spans) is Some,
    ensures
        selection::<E>(config, line, spans)->0.len() == places.len(),
        forall|k: int|
            0 <= k < places.len() ==> 0 <= #[trigger] places[k] < spans.len() && selection::<E>(
                config,
                line,
                spans,
            )->0[k] == spans[places[k]],
        forall|k: int, l: int|
            0 <= k < l < places.len() ==> #[trigger] places[k] < #[trigger] places[l],
        forall|i: int|
            0 <= i < spans.len() ==> (places.contains(i) <==> (#[trigger] spans[i]).0 != spans[i].1
                && (config.line_regexp ==> spans[i].0 == 0 && spans[i].1 == line.len()) && (
            config.word_regexp ==> E::stands_alone(line, spans[i].0, spans[i].1))),
{
    let raw = |span: Span|
        span.0 != span.1 && (config.line_regexp ==> span.0 == 0 && span.1 == line.len()) && (
        config.word_regexp ==> E::stands_alone(line, span.0, span.1));
    let keep = |span: Span| counts::<E>(config, line, span) && span.0 != span.1;
    assert(raw =~= keep);
    let places = lemma_filter_places(spans, raw);
    assert forall|i: int| 0 <= i < spans.len() implies (places.contains(i) <==> (
    #[trigger] spans[i]).0 != spans[i].1 && (config.line_regexp ==> spans[i].0 == 0 && spans[i].1
        == line.len()) && (config.word_regexp ==> E::stands_alone(
        line,
        spans[i].0,
        spans[i].1,
    ))) by {
        assert(raw(spans[i]) <==> places.contains(i));
    }
    places
}

/// The cheap check asks the patterns in turn whether they match from the start of
/// the line: the first that does, or fails, decides.
pub proof fn law_the_first_pattern_that_matches_decides<E: Engine>(
    config: Config,
    patterns: Seq<E>,
    line: Seq<u8>,
    i: int,
)
    requires
        !config.line_regexp,
        !config.word_regexp,
        0 <= i <= patterns.len(),
        forall|j: int|
            0 <= j < i ==> (#[trigger] patterns[j]).leftmost(line, 0) == Ok::<
                Option<Span>,
                (i32, Seq<char>),
            >(None),
    ensures
        i == patterns.len() ==> is_wanted(config, patterns, line) == Ok::<bool, Fault>(
            config.invert_match,
        ),
        i < patterns.len() ==> match patterns[i].leftmost(line, 0) {
            Ok(Some(_)) => is_wanted(config, patterns, line) == Ok::<bool, Fault>(
                !config.invert_match,
            ),
            Err(error) => is_wanted(config, patterns, line) == Err::<bool, _>(
                Fault::Engine(error.0, error.1),
            ),
            Ok(None) => true,
        },
{
    lemma_skip_to(patterns, line, i, 0);
}

proof fn lemma_skip_to<E: Engine>(patterns: Seq<E>, line: Seq<u8>, i: int, from: int)
    requires
        0 <= from <= i <= patterns.len(),
        forall|j: int|
            0 <= j < i ==> (#[trigger] patterns[j]).leftmost(line, 0) == Ok::<
                Option<Span>,
                (i32, Seq<char>),
            >(None),
    ensures
        any_matches(patterns, line, from) == any_matches(patterns, line, i),
    decreases i - from,
{
    if from < i {
        assert(patterns[from].leftmost(line, 0) == Ok::<Option<Span>, (i32, Seq<char>)>(None));
        lemma_skip_to(patterns, line, i, from + 1);
    }
}

/// Under `-x` or `-w` the cheap check lists the matches, and wants the line exactly
/// if they do; it fails as listing them does.
pub proof fn law_filters_need_the_matches<E: Engine>(
    config: Config,
    patterns: Seq<E>,
    line: Seq<u8>,
)
    requires
        config.line_regexp || config.word_regexp,
    ensures
        match line_matches(patterns, line) {
            Ok(spans) => is_wanted(config, patterns, line) == Ok::<bool, Fault>(
                selection::<E>(config, line, spans) is Some,
            ),
            Err(fault) => is_wanted(config, patterns, line) == Err::<bool, _>(fault),
        },
{
}

} // verus!
