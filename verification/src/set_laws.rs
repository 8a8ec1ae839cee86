//! What holds of the patterns of a search as a set: neither their order nor how
//! often one is given makes a difference.

use crate::alike_laws::{lemma_searched_alike, searched_alike};
use crate::config::Config;
use crate::engine::{Engine, Span};
use crate::error::Fault;
use crate::laws::{
    law_a_line_matches_if_a_pattern_does, lemma_any_matches, lemma_best_exists, lemma_no_fault,
    never_goes_back, none_goes_back,
};
use crate::listing::{lemma_run, line_matches, listed, run};
use crate::matcher::{any_counts, counts, is_wanted, same_filters, selection};
use crate::merge::{
    all_or_fault, best, comes_first, is_best, is_stale, lemma_all_or_fault, opened, refreshed,
    refreshed_all, refreshed_each, searched, step, CursorState, MergeState,
};
use vstd::prelude::*;

verus! {

/// Whether `pattern` is one of `patterns`, as far as searches in `line` go.
pub open spec fn is_one_of<E: Engine>(pattern: E, patterns: Seq<E>, line: Seq<u8>) -> bool {
    exists|j: int| 0 <= j < patterns.len() && #[trigger] searched_alike(pattern, patterns[j], line)
}

/// Whether each pattern of `a` is also one of `b`, as far as searches in `line`
/// go.
pub open spec fn is_covered<E: Engine>(a: Seq<E>, b: Seq<E>, line: Seq<u8>) -> bool {
    forall|i: int| 0 <= i < a.len() ==> #[trigger] is_one_of(a[i], b, line)
}

/// Whether `a` and `b` are the same patterns, in whatever order and however
/// often, as far as searches in `line` go.
pub open spec fn same_set<E: Engine>(a: Seq<E>, b: Seq<E>, line: Seq<u8>) -> bool {
    is_covered(a, b, line) && is_covered(b, a, line)
}

/// Whether the next search of `cursor` goes on behind its match, which lies in a
/// line of length `len`.
spec fn is_good(cursor: CursorState, len: nat) -> bool {
    cursor.pending matches Some(span) ==> {
        &&& span.0 <= span.1
        &&& span.0 <= len
        &&& span.0 < usize::MAX
        &&& cursor.offset == (if span.1 > span.0 {
            span.1
        } else {
            (span.0 + 1) as usize
        })
    }
}

/// Whether no match of `state` is stale.
spec fn is_settled<E: Engine>(patterns: Seq<E>, line: Seq<u8>, state: MergeState) -> bool {
    &&& state.cursors.len() == patterns.len()
    &&& forall|i: int|
        0 <= i < patterns.len() ==> is_good(#[trigger] state.cursors[i], line.len()) && !is_stale(
            state.cursors[i],
            state.last_end,
        )
}

proof fn lemma_search<E: Engine>(pattern: E, line: Seq<u8>, offset: usize)
    requires
        never_goes_back(pattern, line),
    ensures
        searched(pattern, line, offset) matches Ok(cursor) ==> is_good(cursor, line.len())
            && !is_stale(cursor, offset),
{
    if offset <= line.len() {
        let hit = pattern.leftmost(line, offset);
        if let Ok(Some(span)) = hit {
            let end = pattern.longest(line, span.0);
        }
    }
}

/// The cursors of `state`, the stale ones searched again from `end`.
spec fn caught_up<E: Engine>(
    patterns: Seq<E>,
    line: Seq<u8>,
    cursors: Seq<CursorState>,
    end: usize,
) -> MergeState {
    MergeState {
        cursors: Seq::new(
            cursors.len(),
            |i: int| refreshed(patterns[i], line, cursors[i], end)->Ok_0,
        ),
        last_end: end,
    }
}

/// `cursor`, searched on if its match is the empty one at `at`.
spec fn past_empty<E: Engine>(
    pattern: E,
    line: Seq<u8>,
    cursor: CursorState,
    at: usize,
) -> CursorState {
    if cursor.pending == Some((at, at)) {
        searched(pattern, line, (at + 1) as usize)->Ok_0
    } else {
        cursor
    }
}

/// The cursors, each searched on that has the empty match at `at`.
spec fn all_past_empty<E: Engine>(
    patterns: Seq<E>,
    line: Seq<u8>,
    cursors: Seq<CursorState>,
    at: usize,
) -> MergeState {
    MergeState {
        cursors: Seq::new(cursors.len(), |i: int| past_empty(patterns[i], line, cursors[i], at)),
        last_end: at,
    }
}

/// Whether the cursors can be searched on from `end` where they are stale.
spec fn can_catch_up<E: Engine>(
    patterns: Seq<E>,
    line: Seq<u8>,
    cursors: Seq<CursorState>,
    end: usize,
) -> bool {
    forall|i: int|
        0 <= i < cursors.len() ==> refreshed(patterns[i], line, #[trigger] cursors[i], end) is Ok
}

/// A state and what becomes of it when the stale matches are searched for again
/// have the same matches.
proof fn lemma_caught_up<E: Engine>(patterns: Seq<E>, line: Seq<u8>, state: MergeState)
    requires
        none_goes_back(patterns, line),
        state.cursors.len() == patterns.len(),
        forall|i: int|
            0 <= i < patterns.len() ==> is_good(#[trigger] state.cursors[i], line.len()),
        can_catch_up(patterns, line, state.cursors, state.last_end),
    ensures
        ({
            let later = caught_up(patterns, line, state.cursors, state.last_end);
            &&& is_settled(patterns, line, later)
            &&& refreshed_all(patterns, line, state) == Ok::<_, Fault>(later.cursors)
            &&& run(patterns, line, state) == run(patterns, line, later)
        }),
{
    let later = caught_up(patterns, line, state.cursors, state.last_end);
    let items = refreshed_each(patterns, line, state);
    assert forall|i: int| 0 <= i < items.len() implies (#[trigger] items[i]) is Ok by {
        assert(refreshed(patterns[i], line, state.cursors[i], state.last_end) is Ok);
    }
    lemma_no_fault(items);
    lemma_all_or_fault(items);
    let fresh = all_or_fault(items)->Ok_0;
    assert(fresh =~= later.cursors) by {
        assert forall|i: int| 0 <= i < fresh.len() implies fresh[i] == later.cursors[i] by {
            assert(items[i] == Ok::<_, Fault>(fresh[i]));
        }
    }
    assert forall|i: int| 0 <= i < patterns.len() implies is_good(
        #[trigger] later.cursors[i],
        line.len(),
    ) && !is_stale(later.cursors[i], state.last_end) by {
        assert(never_goes_back(patterns[i], line));
        assert(is_good(state.cursors[i], line.len()));
        assert(refreshed(patterns[i], line, state.cursors[i], state.last_end) is Ok);
        lemma_search(patterns[i], line, state.last_end);
    }
    lemma_settled(patterns, line, later);
    lemma_run(patterns, line, state);
    lemma_run(patterns, line, later);
}

/// In a settled state nothing is searched for again.
proof fn lemma_settled<E: Engine>(patterns: Seq<E>, line: Seq<u8>, state: MergeState)
    requires
        is_settled(patterns, line, state),
    ensures
        refreshed_all(patterns, line, state) == Ok::<_, Fault>(state.cursors),
{
    let items = refreshed_each(patterns, line, state);
    assert forall|i: int| 0 <= i < items.len() implies (#[trigger] items[i]) is Ok by {
        assert(is_good(state.cursors[i], line.len()));
    }
    lemma_no_fault(items);
    lemma_all_or_fault(items);
    let fresh = all_or_fault(items)->Ok_0;
    assert(fresh =~= state.cursors) by {
        assert forall|i: int| 0 <= i < fresh.len() implies fresh[i] == state.cursors[i] by {
            assert(items[i] == Ok::<_, Fault>(fresh[i]));
            assert(is_good(state.cursors[i], line.len()));
        }
    }
}

/// Where the matches of a settled state can be listed, and the first is not empty,
/// all cursors can be searched on behind it.
proof fn lemma_can_catch_up<E: Engine>(
    patterns: Seq<E>,
    line: Seq<u8>,
    state: MergeState,
    i: int,
)
    requires
        none_goes_back(patterns, line),
        is_settled(patterns, line, state),
        is_best(state.cursors, i),
        best(state.cursors) == Some(i),
        (state.cursors[i].pending->0).0 < (state.cursors[i].pending->0).1,
        run(patterns, line, state) is Ok,
    ensures
        can_catch_up(patterns, line, state.cursors, (state.cursors[i].pending->0).1),
{
    let span = state.cursors[i].pending->0;
    assert(is_good(state.cursors[i], line.len()));
    lemma_settled(patterns, line, state);
    lemma_run(patterns, line, state);
    let cursor = searched(patterns[i], line, span.1)->Ok_0;
    let next = MergeState { cursors: state.cursors.update(i, cursor), last_end: span.1 };
    assert(step(patterns, line, state) == Ok::<_, Fault>(Some((next, span))));
    lemma_run(patterns, line, next);
    let items = refreshed_each(patterns, line, next);
    lemma_all_or_fault(items);
    assert forall|j: int| 0 <= j < state.cursors.len() implies refreshed(
        patterns[j],
        line,
        #[trigger] state.cursors[j],
        span.1,
    ) is Ok by {
        assert(items[j] is Ok);
    }
}

/// The matches of a settled state whose first match is not empty.
proof fn lemma_first_is_text<E: Engine>(
    patterns: Seq<E>,
    line: Seq<u8>,
    state: MergeState,
    i: int,
)
    requires
        none_goes_back(patterns, line),
        is_settled(patterns, line, state),
        is_best(state.cursors, i),
        best(state.cursors) == Some(i),
        (state.cursors[i].pending->0).0 < (state.cursors[i].pending->0).1,
        can_catch_up(patterns, line, state.cursors, (state.cursors[i].pending->0).1),
    ensures
        ({
            let span = state.cursors[i].pending->0;
            let later = caught_up(patterns, line, state.cursors, span.1);
            &&& is_settled(patterns, line, later)
            &&& run(patterns, line, state) == listed(span, run(patterns, line, later))
        }),
{
    let span = state.cursors[i].pending->0;
    assert(is_good(state.cursors[i], line.len()));
    assert(never_goes_back(patterns[i], line));
    lemma_settled(patterns, line, state);
    lemma_run(patterns, line, state);
    assert(refreshed(patterns[i], line, state.cursors[i], span.1) is Ok);
    lemma_search(patterns[i], line, span.1);
    let cursor = searched(patterns[i], line, span.1)->Ok_0;
    let next = MergeState { cursors: state.cursors.update(i, cursor), last_end: span.1 };
    assert(step(patterns, line, state) == Ok::<_, Fault>(Some((next, span))));
    assert forall|j: int| 0 <= j < patterns.len() implies is_good(
        #[trigger] next.cursors[j],
        line.len(),
    ) && refreshed(patterns[j], line, next.cursors[j], span.1) is Ok by {
        assert(is_good(state.cursors[j], line.len()));
        assert(refreshed(patterns[j], line, state.cursors[j], span.1) is Ok);
    }
    lemma_caught_up(patterns, line, next);
    assert(caught_up(patterns, line, next.cursors, span.1).cursors =~= caught_up(
        patterns,
        line,
        state.cursors,
        span.1,
    ).cursors);
}

/// Whether the cursors that have the empty match at `at` can be searched on.
spec fn can_pass<E: Engine>(
    patterns: Seq<E>,
    line: Seq<u8>,
    cursors: Seq<CursorState>,
    at: usize,
) -> bool {
    forall|i: int|
        0 <= i < cursors.len() && (#[trigger] cursors[i]).pending == Some((at, at)) ==> searched(
            patterns[i],
            line,
            (at + 1) as usize,
        ) is Ok
}

/// How many of `cursors` have the pending match `span`.
spec fn count_pending(cursors: Seq<CursorState>, span: Span) -> nat
    decreases cursors.len(),
{
    if cursors.len() == 0 {
        0
    } else {
        count_pending(cursors.drop_last(), span) + (if cursors.last().pending == Some(span) {
            1nat
        } else {
            0nat
        })
    }
}

proof fn lemma_count_pending(cursors: Seq<CursorState>, span: Span, i: int, cursor: CursorState)
    requires
        0 <= i < cursors.len(),
        cursors[i].pending == Some(span),
        cursor.pending != Some(span),
    ensures
        count_pending(cursors.update(i, cursor), span) < count_pending(cursors, span),
    decreases cursors.len(),
{
    let n = cursors.len() - 1;
    if i < n {
        assert(cursors.update(i, cursor).drop_last() =~= cursors.drop_last().update(i, cursor));
        lemma_count_pending(cursors.drop_last(), span, i, cursor);
    } else {
        assert(cursors.update(i, cursor).drop_last() =~= cursors.drop_last());
    }
}

/// A step of a settled state whose first match is empty.
proof fn lemma_empty_step<E: Engine>(
    patterns: Seq<E>,
    line: Seq<u8>,
    state: MergeState,
    i: int,
)
    requires
        none_goes_back(patterns, line),
        is_settled(patterns, line, state),
        is_best(state.cursors, i),
        best(state.cursors) == Some(i),
        (state.cursors[i].pending->0).0 == (state.cursors[i].pending->0).1,
    ensures
        ({
            let span = state.cursors[i].pending->0;
            let hit = searched(patterns[i], line, (span.0 + 1) as usize);
            let next = MergeState {
                cursors: state.cursors.update(i, hit->Ok_0),
                last_end: span.0,
            };
            &&& hit matches Err(fault) ==> run(patterns, line, state) == Err::<Seq<Span>, _>(fault)
            &&& hit is Ok ==> {
                &&& run(patterns, line, state) == listed(span, run(patterns, line, next))
                &&& is_settled(patterns, line, next)
                &&& next.cursors[i].pending != Some(span)
                &&& all_past_empty(patterns, line, next.cursors, span.0) == all_past_empty(
                    patterns,
                    line,
                    state.cursors,
                    span.0,
                )
                &&& (exists|j: int|
                    0 <= j < patterns.len() && (#[trigger] next.cursors[j]).pending == Some(span))
                    ==> best(next.cursors) is Some && is_best(
                    next.cursors,
                    best(next.cursors)->0,
                ) && next.cursors[best(next.cursors)->0].pending == Some(span)
                &&& !(exists|j: int|
                    0 <= j < patterns.len() && (#[trigger] next.cursors[j]).pending == Some(span))
                    ==> all_past_empty(patterns, line, state.cursors, span.0) == next
            }
        }),
{
    let span = state.cursors[i].pending->0;
    let at = span.0;
    let cursors = state.cursors;
    assert(is_good(cursors[i], line.len()));
    assert(never_goes_back(patterns[i], line));
    lemma_settled(patterns, line, state);
    lemma_run(patterns, line, state);
    lemma_search(patterns[i], line, (at + 1) as usize);
    let hit = searched(patterns[i], line, (at + 1) as usize);
    if hit is Ok {
        let next = MergeState { cursors: cursors.update(i, hit->Ok_0), last_end: at };
        assert(step(patterns, line, state) == Ok::<_, Fault>(Some((next, span))));
        assert forall|j: int| 0 <= j < patterns.len() implies is_good(
            #[trigger] next.cursors[j],
            line.len(),
        ) && !is_stale(next.cursors[j], at) by {
            assert(is_good(cursors[j], line.len()));
            if j != i && cursors[j].pending is Some {
                assert(comes_first(span, i, cursors[j].pending->0, j));
            }
        }
        let later = all_past_empty(patterns, line, cursors, at);
        assert(all_past_empty(patterns, line, next.cursors, at).cursors =~= later.cursors);
        if exists|j: int|
            0 <= j < patterns.len() && (#[trigger] next.cursors[j]).pending == Some(span) {
            let j = choose|j: int|
                0 <= j < patterns.len() && (#[trigger] next.cursors[j]).pending == Some(span);
            lemma_best_exists(next.cursors, j);
            let b = best(next.cursors)->0;
            let other = next.cursors[b].pending->0;
            assert(comes_first(other, b, span, j));
            assert(is_good(next.cursors[b], line.len()) && !is_stale(next.cursors[b], at));
            if b != i {
                assert(comes_first(span, i, cursors[b].pending->0, b));
            }
        } else {
            assert(later.cursors =~= next.cursors) by {
                assert forall|j: int| 0 <= j < patterns.len() implies later.cursors[j]
                    == next.cursors[j] by {
                    assert(next.cursors[j].pending != Some(span));
                }
            }
        }
    }
}

/// Where the matches of a settled state can be listed, and the first is empty, all
/// cursors that have it can be searched on.
proof fn lemma_can_pass<E: Engine>(
    patterns: Seq<E>,
    line: Seq<u8>,
    state: MergeState,
    i: int,
    spans: Seq<Span>,
)
    requires
        none_goes_back(patterns, line),
        is_settled(patterns, line, state),
        is_best(state.cursors, i),
        best(state.cursors) == Some(i),
        (state.cursors[i].pending->0).0 == (state.cursors[i].pending->0).1,
        run(patterns, line, state) == Ok::<_, Fault>(spans),
    ensures
        can_pass(patterns, line, state.cursors, (state.cursors[i].pending->0).0),
    decreases spans.len(),
{
    let span = state.cursors[i].pending->0;
    lemma_empty_step(patterns, line, state, i);
    let hit = searched(patterns[i], line, (span.0 + 1) as usize);
    let next = MergeState { cursors: state.cursors.update(i, hit->Ok_0), last_end: span.0 };
    let tail = run(patterns, line, next)->Ok_0;
    assert(spans == seq![span] + tail);
    if exists|j: int|
        0 <= j < patterns.len() && (#[trigger] next.cursors[j]).pending == Some(span) {
        lemma_can_pass(patterns, line, next, best(next.cursors)->0, tail);
    }
    assert forall|j: int|
        0 <= j < state.cursors.len() && (#[trigger] state.cursors[j]).pending == Some(
            (span.0, span.0),
        ) implies searched(patterns[j], line, (span.0 + 1) as usize) is Ok by {
        if j != i {
            assert(next.cursors[j].pending == Some(span));
        }
    }
}

/// The matches of a settled state whose first match is empty: all empty matches
/// there come first, then those of the state behind them.
proof fn lemma_first_is_empty<E: Engine>(
    patterns: Seq<E>,
    line: Seq<u8>,
    state: MergeState,
    i: int,
    keep: spec_fn(Span) -> bool,
)
    requires
        none_goes_back(patterns, line),
        is_settled(patterns, line, state),
        is_best(state.cursors, i),
        best(state.cursors) == Some(i),
        (state.cursors[i].pending->0).0 == (state.cursors[i].pending->0).1,
        can_pass(patterns, line, state.cursors, (state.cursors[i].pending->0).0),
        !keep(state.cursors[i].pending->0),
    ensures
        ({
            let span = state.cursors[i].pending->0;
            let later = all_past_empty(patterns, line, state.cursors, span.0);
            &&& is_settled(patterns, line, later)
            &&& run(patterns, line, state) is Ok <==> run(patterns, line, later) is Ok
            &&& run(patterns, line, state) is Ok ==> {
                let spans = run(patterns, line, state)->Ok_0;
                let rest = run(patterns, line, later)->Ok_0;
                &&& rest.len() < spans.len()
                &&& spans.filter(keep) == rest.filter(keep)
                &&& forall|x: Span| #[trigger] spans.contains(x) <==> x == span || rest.contains(x)
            }
        }),
    decreases count_pending(state.cursors, state.cursors[i].pending->0),
{
    let span = state.cursors[i].pending->0;
    lemma_empty_step(patterns, line, state, i);
    let hit = searched(patterns[i], line, (span.0 + 1) as usize);
    assert(hit is Ok);
    let next = MergeState { cursors: state.cursors.update(i, hit->Ok_0), last_end: span.0 };
    lemma_count_pending(state.cursors, span, i, hit->Ok_0);
    if exists|j: int|
        0 <= j < patterns.len() && (#[trigger] next.cursors[j]).pending == Some(span) {
        assert(can_pass(patterns, line, next.cursors, span.0)) by {
            assert forall|j: int|
                0 <= j < next.cursors.len() && (#[trigger] next.cursors[j]).pending == Some(
                    (span.0, span.0),
                ) implies searched(patterns[j], line, (span.0 + 1) as usize) is Ok by {
                assert(state.cursors[j].pending == Some(span));
            }
        }
        lemma_first_is_empty(patterns, line, next, best(next.cursors)->0, keep);
    }
    if run(patterns, line, next) is Ok {
        let tail = run(patterns, line, next)->Ok_0;
        lemma_contains_first(span, tail);
        Seq::filter_distributes_over_add(seq![span], tail, keep);
        assert(seq![span].filter(keep) =~= Seq::empty()) by {
            reveal_with_fuel(Seq::filter, 2);
            assert(seq![span].drop_last() =~= Seq::empty());
            assert(seq![span].last() == span);
        }
        assert((seq![span] + tail).filter(keep) =~= tail.filter(keep));
    }
}

proof fn lemma_contains_first(span: Span, tail: Seq<Span>)
    ensures
        forall|x: Span| #[trigger]
            (seq![span] + tail).contains(x) <==> x == span || tail.contains(x),
{
    let all = seq![span] + tail;
    assert forall|x: Span| #[trigger] all.contains(x) <==> x == span || tail.contains(x) by {
        if all.contains(x) {
            let k = choose|k: int| 0 <= k < all.len() && all[k] == x;
            if k > 0 {
                assert(tail[k - 1] == x);
            }
        }
        if x == span {
            assert(all[0] == x);
        }
        if tail.contains(x) {
            let k = choose|k: int| 0 <= k < tail.len() && tail[k] == x;
            assert(all[k + 1] == x);
        }
    }
}

/// Whether patterns that are searched for alike have come equally far.
spec fn is_matched<E: Engine>(
    a: Seq<E>,
    b: Seq<E>,
    line: Seq<u8>,
    cursors: Seq<CursorState>,
    others: Seq<CursorState>,
) -> bool {
    forall|i: int, j: int|
        0 <= i < a.len() && 0 <= j < b.len() && #[trigger] searched_alike(a[i], b[j], line) ==> cursors[i] == others[j]
}

/// In matched states the same match comes first.
proof fn lemma_same_best<E: Engine>(
    a: Seq<E>,
    b: Seq<E>,
    line: Seq<u8>,
    state: MergeState,
    other: MergeState,
)
    requires
        same_set(a, b, line),
        is_settled(a, line, state),
        is_settled(b, line, other),
        is_matched(a, b, line, state.cursors, other.cursors),
    ensures
        best(state.cursors) is None <==> best(other.cursors) is None,
        best(state.cursors) matches Some(i) ==> is_best(state.cursors, i) && is_best(
            other.cursors,
            best(other.cursors)->0,
        ) && state.cursors[i].pending == other.cursors[best(other.cursors)->0].pending,
{
    if let Some(i) = best(state.cursors) {
        assert(is_best(state.cursors, i));
        assert(is_one_of(a[i], b, line));
        let j = choose|j: int| 0 <= j < b.len() && #[trigger] searched_alike(a[i], b[j], line);
        assert(state.cursors[i] == other.cursors[j]);
        lemma_best_exists(other.cursors, j);
    }
    if let Some(j) = best(other.cursors) {
        assert(is_best(other.cursors, j));
        assert(is_one_of(b[j], a, line));
        let i = choose|i: int| 0 <= i < a.len() && #[trigger] searched_alike(b[j], a[i], line);
        assert(searched_alike(a[i], b[j], line));
        assert(state.cursors[i] == other.cursors[j]);
        lemma_best_exists(state.cursors, i);
        let first = best(state.cursors)->0;
        assert(is_one_of(a[first], b, line));
        let k = choose|k: int| 0 <= k < b.len() && #[trigger] searched_alike(a[first], b[k], line);
        assert(state.cursors[first] == other.cursors[k]);
        assert(comes_first(
            state.cursors[first].pending->0,
            first,
            state.cursors[i].pending->0,
            i,
        ));
        assert(comes_first(other.cursors[j].pending->0, j, other.cursors[k].pending->0, k));
    }
}

/// Matched states have the same matches, up to how often an empty one is listed.
proof fn lemma_matched_run<E: Engine>(
    a: Seq<E>,
    b: Seq<E>,
    line: Seq<u8>,
    state: MergeState,
    other: MergeState,
    spans: Seq<Span>,
    keep: spec_fn(Span) -> bool,
)
    requires
        none_goes_back(a, line),
        none_goes_back(b, line),
        same_set(a, b, line),
        is_settled(a, line, state),
        is_settled(b, line, other),
        is_matched(a, b, line, state.cursors, other.cursors),
        run(a, line, state) == Ok::<_, Fault>(spans),
        forall|span: Span| #[trigger] keep(span) ==> span.0 != span.1,
    ensures
        run(b, line, other) is Ok,
        spans.filter(keep) == run(b, line, other)->Ok_0.filter(keep),
        forall|x: Span| #[trigger]
            spans.contains(x) <==> run(b, line, other)->Ok_0.contains(x),
    decreases spans.len(),
{
    lemma_same_best(a, b, line, state, other);
    lemma_settled(a, line, state);
    lemma_settled(b, line, other);
    match best(state.cursors) {
        None => {
            lemma_run(a, line, state);
            lemma_run(b, line, other);
            assert(spans =~= run(b, line, other)->Ok_0);
        },
        Some(i) => {
            let j = best(other.cursors)->0;
            let span = state.cursors[i].pending->0;
            assert(is_good(state.cursors[i], line.len()));
            if span.0 < span.1 {
                lemma_can_catch_up(a, line, state, i);
                lemma_first_is_text(a, line, state, i);
                assert forall|j: int| 0 <= j < other.cursors.len() implies refreshed(
                    b[j],
                    line,
                    #[trigger] other.cursors[j],
                    span.1,
                ) is Ok by {
                    let i = lemma_twin(a, b, line, state, other, j);
                    assert(refreshed(a[i], line, state.cursors[i], span.1) is Ok);
                    lemma_searched_alike(a[i], b[j], line, span.1);
                }
                lemma_first_is_text(b, line, other, j);
                let later = caught_up(a, line, state.cursors, span.1);
                let other_later = caught_up(b, line, other.cursors, span.1);
                assert forall|i: int, j: int|
                    0 <= i < a.len() && 0 <= j < b.len() && #[trigger] searched_alike(
                        a[i],
                        b[j],
                        line,
                    ) implies later.cursors[i] == other_later.cursors[j] by {
                    lemma_searched_alike(a[i], b[j], line, span.1);
                }
                let rest = run(a, line, later)->Ok_0;
                assert(spans == seq![span] + rest);
                lemma_matched_run(a, b, line, later, other_later, rest, keep);
                let other_rest = run(b, line, other_later)->Ok_0;
                lemma_contains_first(span, rest);
                lemma_contains_first(span, other_rest);
                Seq::filter_distributes_over_add(seq![span], rest, keep);
                Seq::filter_distributes_over_add(seq![span], other_rest, keep);
            } else {
                lemma_can_pass(a, line, state, i, spans);
                lemma_first_is_empty(a, line, state, i, keep);
                assert forall|j: int|
                    0 <= j < other.cursors.len() && (#[trigger] other.cursors[j]).pending == Some(
                        (span.0, span.0),
                    ) implies searched(b[j], line, (span.0 + 1) as usize) is Ok by {
                    let i = lemma_twin(a, b, line, state, other, j);
                    assert(state.cursors[i].pending == Some((span.0, span.0)));
                    lemma_searched_alike(a[i], b[j], line, (span.0 + 1) as usize);
                }
                lemma_first_is_empty(b, line, other, j, keep);
                let later = all_past_empty(a, line, state.cursors, span.0);
                let other_later = all_past_empty(b, line, other.cursors, span.0);
                assert forall|i: int, j: int|
                    0 <= i < a.len() && 0 <= j < b.len() && #[trigger] searched_alike(
                        a[i],
                        b[j],
                        line,
                    ) implies later.cursors[i] == other_later.cursors[j] by {
                    lemma_searched_alike(a[i], b[j], line, (span.0 + 1) as usize);
                }
                let rest = run(a, line, later)->Ok_0;
                lemma_matched_run(a, b, line, later, other_later, rest, keep);
            }
        },
    }
}

/// A pattern of `a` that is searched for as `b[j]` is, and has come equally far.
proof fn lemma_twin<E: Engine>(
    a: Seq<E>,
    b: Seq<E>,
    line: Seq<u8>,
    state: MergeState,
    other: MergeState,
    j: int,
) -> (i: int)
    requires
        is_covered(b, a, line),
        is_matched(a, b, line, state.cursors, other.cursors),
        0 <= j < b.len(),
    ensures
        0 <= i < a.len(),
        searched_alike(a[i], b[j], line),
        state.cursors[i] == other.cursors[j],
{
    assert(is_one_of(b[j], a, line));
    let i = choose|i: int| 0 <= i < a.len() && #[trigger] searched_alike(b[j], a[i], line);
    assert(searched_alike(a[i], b[j], line));
    i
}

/// The state in which a line is first searched.
proof fn lemma_opened<E: Engine>(patterns: Seq<E>, line: Seq<u8>)
    requires
        none_goes_back(patterns, line),
        forall|i: int|
            0 <= i < patterns.len() ==> searched(#[trigger] patterns[i], line, 0) is Ok,
    ensures
        opened(patterns, line) is Ok,
        opened(patterns, line)->Ok_0.cursors.len() == patterns.len(),
        is_settled(patterns, line, opened(patterns, line)->Ok_0),
        forall|i: int|
            0 <= i < patterns.len() ==> searched(#[trigger] patterns[i], line, 0) == Ok::<_, Fault>(
                opened(patterns, line)->Ok_0.cursors[i],
            ),
{
    let items = Seq::new(patterns.len(), |i: int| searched(patterns[i], line, 0));
    assert forall|i: int| 0 <= i < items.len() implies (#[trigger] items[i]) is Ok by {
        assert(searched(patterns[i], line, 0) is Ok);
    }
    lemma_no_fault(items);
    lemma_all_or_fault(items);
    let state = opened(patterns, line)->Ok_0;
    assert forall|i: int| 0 <= i < patterns.len() implies searched(
        #[trigger] patterns[i],
        line,
        0,
    ) == Ok::<_, Fault>(state.cursors[i]) by {
        assert(items[i] == Ok::<_, Fault>(state.cursors[i]));
    }
    assert forall|i: int| 0 <= i < patterns.len() implies is_good(
        #[trigger] state.cursors[i],
        line.len(),
    ) && !is_stale(state.cursors[i], 0) by {
        assert(never_goes_back(patterns[i], line));
        assert(searched(patterns[i], line, 0) == Ok::<_, Fault>(state.cursors[i]));
        lemma_search(patterns[i], line, 0);
    }
}

/// Where the matches of a line can be listed, no first search failed.
proof fn lemma_first_searches<E: Engine>(patterns: Seq<E>, line: Seq<u8>)
    requires
        opened(patterns, line) is Ok,
    ensures
        forall|i: int|
            0 <= i < patterns.len() ==> searched(#[trigger] patterns[i], line, 0) is Ok,
{
    let items = Seq::new(patterns.len(), |i: int| searched(patterns[i], line, 0));
    lemma_all_or_fault(items);
    assert forall|i: int| 0 <= i < patterns.len() implies searched(
        #[trigger] patterns[i],
        line,
        0,
    ) is Ok by {
        assert(items[i] is Ok);
    }
}

/// Neither the order of the patterns nor how often one is given makes a
/// difference to which lines are wanted and what is highlighted in them, where
/// the matches can be listed and no search goes back.
pub proof fn law_patterns_are_a_set<E: Engine>(
    config: Config,
    other: Config,
    a: Seq<E>,
    b: Seq<E>,
    line: Seq<u8>,
)
    requires
        same_filters(config, other),
        none_goes_back(a, line),
        same_set(a, b, line),
        line_matches(a, line) is Ok,
    ensures
        line_matches(b, line) is Ok,
        selection::<E>(config, line, line_matches(a, line)->Ok_0) == selection::<E>(
            other,
            line,
            line_matches(b, line)->Ok_0,
        ),
        is_wanted(config, a, line) == is_wanted(other, b, line),
{
    lemma_first_searches(a, line);
    assert forall|j: int| 0 <= j < b.len() implies never_goes_back(#[trigger] b[j], line)
        && searched(b[j], line, 0) is Ok by {
        assert(is_one_of(b[j], a, line));
        let i = choose|i: int| 0 <= i < a.len() && #[trigger] searched_alike(b[j], a[i], line);
        assert(never_goes_back(a[i], line));
        assert(searched(a[i], line, 0) is Ok);
        lemma_searched_alike(b[j], a[i], line, 0);
        assert forall|offset: usize| offset <= line.len() implies (#[trigger] b[j].leftmost(
            line,
            offset,
        )) == a[i].leftmost(line, offset) by {}
        assert forall|start: usize| start <= line.len() implies (#[trigger] b[j].longest(
            line,
            start,
        )) == a[i].longest(line, start) by {}
    }
    lemma_opened(a, line);
    lemma_opened(b, line);
    let spans = line_matches(a, line)->Ok_0;
    let state = opened(a, line)->Ok_0;
    let other_state = opened(b, line)->Ok_0;
    assert forall|i: int, j: int|
        0 <= i < a.len() && 0 <= j < b.len() && #[trigger] searched_alike(
            a[i],
            b[j],
            line,
        ) implies state.cursors[i] == other_state.cursors[j] by {
        lemma_searched_alike(a[i], b[j], line, 0);
    }
    let keep = |span: Span| counts::<E>(config, line, span) && span.0 != span.1;
    let other_keep = |span: Span| counts::<E>(other, line, span) && span.0 != span.1;
    assert(keep =~= other_keep);
    lemma_matched_run(a, b, line, state, other_state, spans, keep);
    let others = line_matches(b, line)->Ok_0;
    lemma_same_counts::<E>(config, other, line, spans, others);
    lemma_same_counts::<E>(other, config, line, others, spans);
    law_a_line_matches_if_a_pattern_does(a, line);
    law_a_line_matches_if_a_pattern_does(b, line);
    if spans.len() > 0 {
        assert(spans.contains(spans[0]));
    }
    if others.len() > 0 {
        assert(others.contains(others[0]));
    }
}

/// Without `-x` and `-w` the cheap check takes the patterns as a set, wherever no
/// search for one of them fails at the start of the line.
pub proof fn law_cheap_check_takes_patterns_as_a_set<E: Engine>(
    config: Config,
    other: Config,
    a: Seq<E>,
    b: Seq<E>,
    line: Seq<u8>,
)
    requires
        same_filters(config, other),
        !config.line_regexp,
        !config.word_regexp,
        same_set(a, b, line),
        forall|i: int| 0 <= i < a.len() ==> (#[trigger] a[i]).leftmost(line, 0) is Ok,
    ensures
        is_wanted(config, a, line) is Ok,
        is_wanted(config, a, line) == is_wanted(other, b, line),
{
    assert forall|j: int| 0 <= j < b.len() implies (#[trigger] b[j]).leftmost(line, 0) is Ok by {
        assert(is_one_of(b[j], a, line));
        let i = choose|i: int| 0 <= i < a.len() && #[trigger] searched_alike(b[j], a[i], line);
        assert(a[i].leftmost(line, 0) is Ok);
    }
    lemma_any_matches(a, line, 0);
    lemma_any_matches(b, line, 0);
    let hit = exists|i: int|
        0 <= i < a.len() && (#[trigger] a[i]).leftmost(line, 0) matches Ok(Some(_));
    let other_hit = exists|j: int|
        0 <= j < b.len() && (#[trigger] b[j]).leftmost(line, 0) matches Ok(Some(_));
    if hit {
        let i = choose|i: int|
            0 <= i < a.len() && (#[trigger] a[i]).leftmost(line, 0) matches Ok(Some(_));
        assert(is_one_of(a[i], b, line));
        let j = choose|j: int| 0 <= j < b.len() && #[trigger] searched_alike(a[i], b[j], line);
        assert(b[j].leftmost(line, 0) matches Ok(Some(_)));
    }
    if other_hit {
        let j = choose|j: int|
            0 <= j < b.len() && (#[trigger] b[j]).leftmost(line, 0) matches Ok(Some(_));
        assert(is_one_of(b[j], a, line));
        let i = choose|i: int| 0 <= i < a.len() && #[trigger] searched_alike(b[j], a[i], line);
        assert(a[i].leftmost(line, 0) matches Ok(Some(_)));
    }
    assert(hit == other_hit);
}

proof fn lemma_same_counts<E: Engine>(
    config: Config,
    other: Config,
    line: Seq<u8>,
    spans: Seq<Span>,
    others: Seq<Span>,
)
    requires
        same_filters(config, other),
        forall|x: Span| #[trigger] spans.contains(x) ==> others.contains(x),
    ensures
        any_counts::<E>(config, line, spans) ==> any_counts::<E>(other, line, others),
{
    if any_counts::<E>(config, line, spans) {
        let i = choose|i: int|
            0 <= i < spans.len() && counts::<E>(config, line, #[trigger] spans[i]);
        assert(spans.contains(spans[i]));
        let j = choose|j: int| 0 <= j < others.len() && others[j] == spans[i];
        assert(counts::<E>(other, line, others[j]));
    }
}

} // verus!
