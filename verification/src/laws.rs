//! What holds of matching as a whole.

use crate::config::Config;
use crate::engine::{Engine, Span};
use crate::error::Fault;
use crate::listing::{lemma_run, line_matches, run};
use crate::matcher::{any_counts, any_matches, counts, highlighted, is_wanted, selection};
use crate::merge::{
    all_or_fault, best, comes_first, is_best, lemma_all_or_fault, opened, refreshed_all,
    refreshed_each, searched, step, CursorState, MergeState,
};
use vstd::prelude::*;

verus! {

/// Whether searching for `pattern` in `line`, as far as it does not fail, yields
/// matches that do not start before the place where the search began.
pub open spec fn starts_ahead<E: Engine>(pattern: E, line: Seq<u8>) -> bool {
    forall|offset: usize|
        offset <= line.len() ==> (#[trigger] pattern.leftmost(line, offset) matches Ok(
            Some(span),
        ) ==> offset <= span.0 && span.0 < usize::MAX)
}

/// Whether this holds of all `patterns`.
pub open spec fn all_start_ahead<E: Engine>(patterns: Seq<E>, line: Seq<u8>) -> bool {
    forall|i: int| 0 <= i < patterns.len() ==> starts_ahead(#[trigger] patterns[i], line)
}

/// Whether searching for `pattern` in `line` never fails, and matches start in
/// the line.
pub open spec fn never_fails<E: Engine>(pattern: E, line: Seq<u8>) -> bool {
    &&& forall|offset: usize|
        offset <= line.len() ==> match #[trigger] pattern.leftmost(line, offset) {
            Ok(Some(span)) => span.0 <= line.len(),
            Ok(None) => true,
            Err(_) => false,
        }
    &&& forall|start: usize|
        start <= line.len() ==> (#[trigger] pattern.longest(line, start)) is Ok
}

/// Whether this holds of all `patterns`.
pub open spec fn none_fails<E: Engine>(patterns: Seq<E>, line: Seq<u8>) -> bool {
    forall|i: int| 0 <= i < patterns.len() ==> never_fails(#[trigger] patterns[i], line)
}

/// Whether searching for `pattern` in `line`, as far as it does not fail, never
/// goes back: no match starts before the place where the search began, or ends
/// before it starts.
pub open spec fn never_goes_back<E: Engine>(pattern: E, line: Seq<u8>) -> bool {
    &&& starts_ahead(pattern, line)
    &&& forall|offset: usize|
        offset <= line.len() ==> (#[trigger] pattern.leftmost(line, offset) matches Ok(
            Some(span),
        ) ==> span.0 <= span.1)
    &&& forall|start: usize|
        start <= line.len() ==> (#[trigger] pattern.longest(line, start) matches Ok(
            Some(end),
        ) ==> start <= end)
}

/// Whether this holds of all `patterns`.
pub open spec fn none_goes_back<E: Engine>(patterns: Seq<E>, line: Seq<u8>) -> bool {
    forall|i: int| 0 <= i < patterns.len() ==> never_goes_back(#[trigger] patterns[i], line)
}

/// Whether searching for `pattern` in `line` neither fails nor goes back.
pub open spec fn moves_forward<E: Engine>(pattern: E, line: Seq<u8>) -> bool {
    never_fails(pattern, line) && never_goes_back(pattern, line)
}

/// Whether this holds of all `patterns`.
pub open spec fn all_move_forward<E: Engine>(patterns: Seq<E>, line: Seq<u8>) -> bool {
    forall|i: int| 0 <= i < patterns.len() ==> moves_forward(#[trigger] patterns[i], line)
}

/// Whether `spans` lie one behind the other, the first at or behind `from`.
pub open spec fn in_order(spans: Seq<Span>, from: int) -> bool {
    &&& forall|i: int| 0 <= i < spans.len() ==> from <= (#[trigger] spans[i]).0
    &&& forall|i: int, j: int|
        0 <= i < j < spans.len() ==> (#[trigger] spans[i]).1 <= (#[trigger] spans[j]).0
}

/// Whether none of `spans` ends before it starts.
pub open spec fn none_reversed(spans: Seq<Span>) -> bool {
    forall|i: int| 0 <= i < spans.len() ==> (#[trigger] spans[i]).0 <= spans[i].1
}

/// Whether the pending match of `cursor` starts at or behind `floor`, in a line of
/// length `len`, and the search goes on behind it.
spec fn goes_on(cursor: CursorState, len: nat, floor: int) -> bool {
    cursor.pending matches Some(span) ==> floor <= span.0 <= len && span.1 <= cursor.offset
        && span.0 < cursor.offset
}

spec fn all_go_on(cursors: Seq<CursorState>, len: nat, floor: int) -> bool {
    forall|i: int| 0 <= i < cursors.len() ==> goes_on(#[trigger] cursors[i], len, floor)
}

/// Whether no pending match ends before it starts.
spec fn none_pending_reversed(cursors: Seq<CursorState>) -> bool {
    forall|i: int|
        0 <= i < cursors.len() ==> ((#[trigger] cursors[i]).pending matches Some(span) ==> span.0
            <= span.1)
}

/// Where a search leads.
proof fn lemma_searched_ahead<E: Engine>(pattern: E, line: Seq<u8>, offset: usize)
    requires
        starts_ahead(pattern, line),
    ensures
        never_fails(pattern, line) ==> searched(pattern, line, offset) is Ok,
        searched(pattern, line, offset) != Err::<CursorState, _>(Fault::Stalled),
        searched(pattern, line, offset) matches Ok(cursor) ==> {
            &&& goes_on(cursor, line.len(), offset as int)
            &&& never_goes_back(pattern, line) ==> (cursor.pending matches Some(span) ==> span.0
                <= span.1)
        },
{
    if offset <= line.len() {
        let hit = pattern.leftmost(line, offset);
        if let Ok(Some(span)) = hit {
            let end = pattern.longest(line, span.0);
        }
    }
}

/// No stall among the items, none of all.
proof fn lemma_no_stall(items: Seq<Result<CursorState, Fault>>)
    requires
        forall|i: int|
            0 <= i < items.len() ==> #[trigger] items[i] != Err::<CursorState, _>(Fault::Stalled),
    ensures
        all_or_fault(items) != Err::<Seq<CursorState>, _>(Fault::Stalled),
    decreases items.len(),
{
    if items.len() > 0 {
        assert forall|i: int| 0 <= i < items.len() - 1 implies #[trigger] items.drop_last()[i]
            != Err::<CursorState, _>(Fault::Stalled) by {
            assert(items[i] != Err::<CursorState, _>(Fault::Stalled));
        }
        lemma_no_stall(items.drop_last());
        assert(items[items.len() - 1] != Err::<CursorState, _>(Fault::Stalled));
    }
}

/// No fault among the items, none of all.
pub proof fn lemma_no_fault(items: Seq<Result<CursorState, Fault>>)
    requires
        forall|i: int| 0 <= i < items.len() ==> (#[trigger] items[i]) is Ok,
    ensures
        all_or_fault(items) is Ok,
    decreases items.len(),
{
    if items.len() > 0 {
        assert forall|i: int| 0 <= i < items.len() - 1 implies (
        #[trigger] items.drop_last()[i]) is Ok by {
            assert(items[i] is Ok);
        }
        lemma_no_fault(items.drop_last());
        assert(items[items.len() - 1] is Ok);
    }
}

/// A pending match, and one of them comes first.
pub proof fn lemma_best_exists(cursors: Seq<CursorState>, k: int)
    requires
        0 <= k < cursors.len(),
        cursors[k].pending is Some,
    ensures
        best(cursors) is Some,
        is_best(cursors, best(cursors)->0),
    decreases cursors.len(),
{
    let n = cursors.len() - 1;
    let head = cursors.drop_last();
    assert(forall|j: int| 0 <= j < n ==> head[j] == cursors[j]);
    if exists|j: int| 0 <= j < n && (#[trigger] cursors[j]).pending is Some {
        let j = choose|j: int| 0 <= j < n && (#[trigger] cursors[j]).pending is Some;
        lemma_best_exists(head, j);
        let b = best(head)->0;
        if cursors[n].pending is Some && !comes_first(
            cursors[b].pending->0,
            b,
            cursors[n].pending->0,
            n,
        ) {
            assert(is_best(cursors, n)) by {
                assert forall|i: int|
                    0 <= i < cursors.len() && (#[trigger] cursors[i]).pending is Some implies comes_first(
                    cursors[n].pending->0,
                    n,
                    cursors[i].pending->0,
                    i,
                ) by {
                    if i < n {
                        assert(head[i].pending is Some);
                    }
                }
            }
        } else {
            assert(is_best(cursors, b)) by {
                assert forall|i: int|
                    0 <= i < cursors.len() && (#[trigger] cursors[i]).pending is Some implies comes_first(
                    cursors[b].pending->0,
                    b,
                    cursors[i].pending->0,
                    i,
                ) by {
                    if i < n {
                        assert(head[i].pending is Some);
                    }
                }
            }
        }
    } else {
        assert(k == n);
        assert(is_best(cursors, n));
    }
}

/// How many positions are left for the matches of `cursor`, from its pending one
/// to the end of a line of length `len`.
spec fn room(cursor: CursorState, len: nat) -> int {
    match cursor.pending {
        Some(span) => len + 1 - span.0,
        None => 0,
    }
}

/// The same, over all `cursors`.
spec fn total_room(cursors: Seq<CursorState>, len: nat) -> int
    decreases cursors.len(),
{
    if cursors.len() == 0 {
        0
    } else {
        total_room(cursors.drop_last(), len) + room(cursors.last(), len)
    }
}

proof fn lemma_total_room_shrinks(a: Seq<CursorState>, b: Seq<CursorState>, len: nat)
    requires
        a.len() == b.len(),
        forall|i: int| 0 <= i < a.len() ==> room(#[trigger] a[i], len) >= room(b[i], len),
    ensures
        total_room(a, len) >= total_room(b, len),
        (exists|i: int| 0 <= i < a.len() && room(#[trigger] a[i], len) > room(b[i], len))
            ==> total_room(a, len) > total_room(b, len),
    decreases a.len(),
{
    if a.len() > 0 {
        let n = a.len() - 1;
        assert forall|i: int| 0 <= i < n implies room(#[trigger] a.drop_last()[i], len) >= room(
            b.drop_last()[i],
            len,
        ) by {
            assert(room(a[i], len) >= room(b[i], len));
        }
        lemma_total_room_shrinks(a.drop_last(), b.drop_last(), len);
        assert(room(a[n], len) >= room(b[n], len));
        if exists|i: int| 0 <= i < a.len() && room(#[trigger] a[i], len) > room(b[i], len) {
            let i = choose|i: int|
                0 <= i < a.len() && room(#[trigger] a[i], len) > room(b[i], len);
            if i < n {
                assert(room(a.drop_last()[i], len) > room(b.drop_last()[i], len));
            }
        }
    }
}

proof fn lemma_total_room_bounds(cursors: Seq<CursorState>, len: nat)
    requires
        all_go_on(cursors, len, 0),
    ensures
        0 <= total_room(cursors, len) <= cursors.len() * (len + 1),
    decreases cursors.len(),
{
    if cursors.len() > 0 {
        let head = cursors.drop_last();
        assert forall|i: int| 0 <= i < head.len() implies goes_on(#[trigger] head[i], len, 0) by {
            assert(goes_on(cursors[i], len, 0));
        }
        lemma_total_room_bounds(head, len);
        assert(goes_on(cursors[cursors.len() - 1], len, 0));
        assert(cursors.len() * (len + 1) == head.len() * (len + 1) + (len + 1))
            by (nonlinear_arith)
            requires
                cursors.len() == head.len() + 1,
        ;
    } else {
        assert(cursors.len() * (len + 1) == 0) by (nonlinear_arith)
            requires
                cursors.len() == 0,
        ;
    }
}

/// What a step finds where every search goes ahead: a match at or behind the last
/// end, which takes up room, with all matches to come at or behind its start.
proof fn lemma_step_ahead<E: Engine>(
    patterns: Seq<E>,
    line: Seq<u8>,
    state: MergeState,
    floor: int,
)
    requires
        all_start_ahead(patterns, line),
        state.cursors.len() == patterns.len(),
        0 <= floor,
        all_go_on(state.cursors, line.len(), floor),
    ensures
        none_fails(patterns, line) ==> step(patterns, line, state) is Ok,
        step(patterns, line, state) != Err::<Option<(MergeState, Span)>, _>(Fault::Stalled),
        step(patterns, line, state) matches Ok(Some(found)) ==> {
            let (next, span) = found;
            &&& floor <= span.0
            &&& state.last_end <= span.0
            &&& next.last_end == span.1
            &&& next.cursors.len() == patterns.len()
            &&& all_go_on(next.cursors, line.len(), span.0 as int)
            &&& total_room(next.cursors, line.len()) < total_room(state.cursors, line.len())
            &&& none_goes_back(patterns, line) && none_pending_reversed(state.cursors) ==> span.0
                <= span.1 && none_pending_reversed(next.cursors)
        },
{
    let len = line.len();
    let items = refreshed_each(patterns, line, state);
    assert forall|i: int| 0 <= i < items.len() implies #[trigger] items[i] != Err::<
        CursorState,
        _,
    >(Fault::Stalled) && (none_fails(patterns, line) ==> items[i] is Ok) by {
        lemma_searched_ahead(patterns[i], line, state.last_end);
    }
    lemma_no_stall(items);
    if none_fails(patterns, line) {
        lemma_no_fault(items);
    }
    if all_or_fault(items) is Ok {
        lemma_all_or_fault(items);
        let fresh = all_or_fault(items)->Ok_0;
        assert forall|i: int| 0 <= i < fresh.len() implies room(#[trigger] state.cursors[i], len)
            >= room(fresh[i], len) && goes_on(fresh[i], len, floor) && (
        fresh[i].pending matches Some(span) ==> state.last_end <= span.0) && (none_goes_back(
            patterns,
            line,
        ) && none_pending_reversed(state.cursors) ==> (fresh[i].pending matches Some(
            span,
        ) ==> span.0 <= span.1)) by {
            assert(items[i] == Ok::<_, Fault>(fresh[i]));
            assert(goes_on(state.cursors[i], len, floor));
            lemma_searched_ahead(patterns[i], line, state.last_end);
        }
        lemma_total_room_shrinks(state.cursors, fresh, len);
        if let Some(i) = best(fresh) {
            assert(is_best(fresh, i));
            assert(room(state.cursors[i], len) >= room(fresh[i], len));
            let span = fresh[i].pending->0;
            lemma_searched_ahead(patterns[i], line, fresh[i].offset);
            if let Ok(cursor) = searched(patterns[i], line, fresh[i].offset) {
                let later = fresh.update(i, cursor);
                assert(room(fresh[i], len) > room(later[i], len));
                lemma_total_room_shrinks(fresh, later, len);
                assert forall|j: int| 0 <= j < later.len() implies goes_on(
                    #[trigger] later[j],
                    len,
                    span.0 as int,
                ) by {
                    assert(room(state.cursors[j], len) >= room(fresh[j], len));
                    if j != i && fresh[j].pending is Some {
                        assert(comes_first(span, i, fresh[j].pending->0, j));
                    }
                }
                if none_goes_back(patterns, line) && none_pending_reversed(state.cursors) {
                    assert forall|j: int| 0 <= j < later.len() implies ((
                    #[trigger] later[j]).pending matches Some(span) ==> span.0 <= span.1) by {
                        assert(room(state.cursors[j], len) >= room(fresh[j], len));
                    }
                }
            }
        }
    }
}

proof fn lemma_run_ahead<E: Engine>(
    patterns: Seq<E>,
    line: Seq<u8>,
    state: MergeState,
    floor: int,
)
    requires
        all_start_ahead(patterns, line),
        state.cursors.len() == patterns.len(),
        0 <= floor,
        all_go_on(state.cursors, line.len(), floor),
    ensures
        none_fails(patterns, line) ==> run(patterns, line, state) is Ok,
        run(patterns, line, state) != Err::<Seq<Span>, _>(Fault::Stalled),
        run(patterns, line, state) matches Ok(spans) ==> {
            &&& spans.len() <= total_room(state.cursors, line.len())
            &&& in_order(spans, floor)
            &&& in_order(spans, state.last_end as int)
            &&& none_goes_back(patterns, line) && none_pending_reversed(state.cursors)
                ==> none_reversed(spans)
        },
    decreases total_room(state.cursors, line.len()),
{
    lemma_run(patterns, line, state);
    lemma_step_ahead(patterns, line, state, floor);
    lemma_lower_floor(state.cursors, line.len(), floor);
    lemma_total_room_bounds(state.cursors, line.len());
    if let Ok(Some((next, span))) = step(patterns, line, state) {
        lemma_lower_floor(next.cursors, line.len(), span.0 as int);
        lemma_total_room_bounds(next.cursors, line.len());
        lemma_run_ahead(patterns, line, next, span.0 as int);
        if let Ok(rest) = run(patterns, line, next) {
            let spans = seq![span] + rest;
            assert(run(patterns, line, state) == Ok::<_, Fault>(spans));
            assert forall|i: int| 0 <= i < spans.len() implies floor <= (#[trigger] spans[i]).0
                && state.last_end <= spans[i].0 by {
                if i > 0 {
                    assert(spans[i] == rest[i - 1]);
                }
            }
            assert forall|i: int, j: int| 0 <= i < j < spans.len() implies (
            #[trigger] spans[i]).1 <= (#[trigger] spans[j]).0 by {
                assert(spans[j] == rest[j - 1]);
                if i > 0 {
                    assert(spans[i] == rest[i - 1]);
                }
            }
            if none_goes_back(patterns, line) && none_pending_reversed(state.cursors) {
                assert forall|i: int| 0 <= i < spans.len() implies (#[trigger] spans[i]).0
                    <= spans[i].1 by {
                    if i > 0 {
                        assert(spans[i] == rest[i - 1]);
                    }
                }
            }
        }
    }
}

proof fn lemma_lower_floor(cursors: Seq<CursorState>, len: nat, floor: int)
    requires
        0 <= floor,
        all_go_on(cursors, len, floor),
    ensures
        all_go_on(cursors, len, 0),
{
    assert forall|i: int| 0 <= i < cursors.len() implies goes_on(
        #[trigger] cursors[i],
        len,
        0,
    ) by {
        assert(goes_on(cursors[i], len, floor));
    }
}

/// The state in which a line is first searched, where searches go ahead.
proof fn lemma_opened_ahead<E: Engine>(patterns: Seq<E>, line: Seq<u8>)
    requires
        all_start_ahead(patterns, line),
    ensures
        none_fails(patterns, line) ==> opened(patterns, line) is Ok,
        opened(patterns, line) != Err::<MergeState, _>(Fault::Stalled),
        opened(patterns, line) matches Ok(state) ==> {
            &&& state.cursors.len() == patterns.len()
            &&& all_go_on(state.cursors, line.len(), 0)
            &&& none_goes_back(patterns, line) ==> none_pending_reversed(state.cursors)
        },
{
    let items = Seq::new(patterns.len(), |i: int| searched(patterns[i], line, 0));
    assert forall|i: int| 0 <= i < items.len() implies #[trigger] items[i] != Err::<
        CursorState,
        _,
    >(Fault::Stalled) && (none_fails(patterns, line) ==> items[i] is Ok) by {
        lemma_searched_ahead(patterns[i], line, 0);
    }
    lemma_no_stall(items);
    if none_fails(patterns, line) {
        lemma_no_fault(items);
    }
    if all_or_fault(items) is Ok {
        lemma_all_or_fault(items);
        let cursors = all_or_fault(items)->Ok_0;
        assert forall|i: int| 0 <= i < patterns.len() implies goes_on(
            #[trigger] cursors[i],
            line.len(),
            0,
        ) && (none_goes_back(patterns, line) ==> (cursors[i].pending matches Some(
            span,
        ) ==> span.0 <= span.1)) by {
            assert(items[i] == Ok::<_, Fault>(cursors[i]));
            lemma_searched_ahead(patterns[i], line, 0);
        }
    }
}

/// Where searches start no match before the place where they began, the matches
/// listed lie one behind the other: none starts before one before it ends.
/// Listing them never goes round in a circle, and succeeds if no search fails.
/// Where besides no match ends before it starts, none listed does.
pub proof fn law_matches_are_in_order<E: Engine>(patterns: Seq<E>, line: Seq<u8>)
    requires
        all_start_ahead(patterns, line),
    ensures
        none_fails(patterns, line) ==> line_matches(patterns, line) is Ok,
        line_matches(patterns, line) != Err::<Seq<Span>, _>(Fault::Stalled),
        line_matches(patterns, line) matches Ok(spans) ==> in_order(spans, 0) && (none_goes_back(
            patterns,
            line,
        ) ==> none_reversed(spans)),
{
    lemma_opened_ahead(patterns, line);
    if let Ok(state) = opened(patterns, line) {
        lemma_run_ahead(patterns, line, state, 0);
    }
}

/// Where searches start no match before the place where they began, a pattern has
/// at most one match at each position of a line, its end included: empty matches
/// never make the list of matches spin.
pub proof fn law_matches_are_bounded<E: Engine>(patterns: Seq<E>, line: Seq<u8>)
    requires
        all_start_ahead(patterns, line),
        line_matches(patterns, line) is Ok,
    ensures
        line_matches(patterns, line)->Ok_0.len() <= patterns.len() * (line.len() + 1),
{
    lemma_opened_ahead(patterns, line);
    let state = opened(patterns, line)->Ok_0;
    lemma_run_ahead(patterns, line, state, 0);
    lemma_total_room_bounds(state.cursors, line.len());
}

/// Once no match is left, none is found again: the state does not change any
/// more.
pub proof fn law_exhausted_stays_exhausted<E: Engine>(
    patterns: Seq<E>,
    line: Seq<u8>,
    state: MergeState,
)
    requires
        step(patterns, line, state) == Ok::<Option<(MergeState, Span)>, Fault>(None),
    ensures
        refreshed_all(patterns, line, state) is Ok,
        ({
            let after = MergeState {
                cursors: refreshed_all(patterns, line, state)->Ok_0,
                last_end: state.last_end,
            };
            &&& refreshed_all(patterns, line, after) == Ok::<_, Fault>(after.cursors)
            &&& step(patterns, line, after) == Ok::<Option<(MergeState, Span)>, Fault>(None)
        }),
{
    let fresh = refreshed_all(patterns, line, state)->Ok_0;
    let after = MergeState { cursors: fresh, last_end: state.last_end };
    let items = refreshed_each(patterns, line, after);
    assert forall|i: int| 0 <= i < items.len() implies items[i] == Ok::<_, Fault>(
        #[trigger] fresh[i],
    ) by {
        if fresh[i].pending is Some {
            lemma_best_exists(fresh, i);
        }
    }
    assert forall|i: int| 0 <= i < items.len() implies (#[trigger] items[i]) is Ok by {
        assert(items[i] == Ok::<_, Fault>(fresh[i]));
    }
    lemma_no_fault(items);
    lemma_all_or_fault(items);
    assert(all_or_fault(items)->Ok_0 =~= fresh) by {
        assert forall|i: int| 0 <= i < items.len() implies all_or_fault(items)->Ok_0[i]
            == fresh[i] by {
            assert(items[i] == Ok::<_, Fault>(fresh[i]));
        }
    }
}

/// What the first step of a run finds: the pending matches as they are, for none
/// can be stale.
proof fn lemma_first_step<E: Engine>(patterns: Seq<E>, line: Seq<u8>)
    requires
        line_matches(patterns, line) is Ok,
    ensures
        ({
            let cursors = opened(patterns, line)->Ok_0.cursors;
            let spans = line_matches(patterns, line)->Ok_0;
            &&& opened(patterns, line) is Ok
            &&& cursors.len() == patterns.len()
            &&& forall|i: int|
                0 <= i < patterns.len() ==> searched(#[trigger] patterns[i], line, 0) == Ok::<
                    _,
                    Fault,
                >(cursors[i])
            &&& best(cursors) is None ==> spans.len() == 0
            &&& best(cursors) matches Some(i) ==> spans.len() > 0 && is_best(cursors, i)
                && cursors[i].pending == Some(spans[0])
        }),
{
    let items = Seq::new(patterns.len(), |i: int| searched(patterns[i], line, 0));
    lemma_all_or_fault(items);
    let state = opened(patterns, line)->Ok_0;
    assert forall|i: int| 0 <= i < patterns.len() implies searched(
        #[trigger] patterns[i],
        line,
        0,
    ) == Ok::<_, Fault>(state.cursors[i]) by {
        assert(items[i] == Ok::<_, Fault>(state.cursors[i]));
    }
    lemma_run(patterns, line, state);
    let each = refreshed_each(patterns, line, state);
    assert forall|i: int| 0 <= i < each.len() implies (#[trigger] each[i]) is Ok by {}
    lemma_no_fault(each);
    lemma_all_or_fault(each);
    let fresh = all_or_fault(each)->Ok_0;
    assert(fresh =~= state.cursors) by {
        assert forall|i: int| 0 <= i < each.len() implies fresh[i] == state.cursors[i] by {
            assert(each[i] == Ok::<_, Fault>(fresh[i]));
        }
    }
    if let Some(i) = best(fresh) {
        assert(is_best(fresh, i));
    }
}

/// A line has a match exactly if one of the patterns has one.
pub proof fn law_a_line_matches_if_a_pattern_does<E: Engine>(patterns: Seq<E>, line: Seq<u8>)
    requires
        line_matches(patterns, line) is Ok,
    ensures
        line_matches(patterns, line)->Ok_0.len() > 0 <==> exists|i: int|
            0 <= i < patterns.len() && (#[trigger] patterns[i]).leftmost(line, 0) matches Ok(Some(_)),
        any_matches(patterns, line, 0) == Ok::<bool, Fault>(
            line_matches(patterns, line)->Ok_0.len() > 0,
        ),
{
    lemma_first_step(patterns, line);
    let cursors = opened(patterns, line)->Ok_0.cursors;
    let hit = exists|i: int|
        0 <= i < patterns.len() && (#[trigger] patterns[i]).leftmost(line, 0) matches Ok(Some(_));
    if hit {
        let i = choose|i: int|
            0 <= i < patterns.len() && (#[trigger] patterns[i]).leftmost(line, 0) matches Ok(
                Some(_),
            );
        assert(searched(patterns[i], line, 0) == Ok::<_, Fault>(cursors[i]));
        lemma_best_exists(cursors, i);
    }
    if let Some(i) = best(cursors) {
        assert(searched(patterns[i], line, 0) == Ok::<_, Fault>(cursors[i]));
        assert(patterns[i].leftmost(line, 0) matches Ok(Some(_)));
    }
    assert forall|i: int| 0 <= i < patterns.len() implies (
    #[trigger] patterns[i]).leftmost(line, 0) is Ok by {
        assert(searched(patterns[i], line, 0) == Ok::<_, Fault>(cursors[i]));
    }
    lemma_any_matches(patterns, line, 0);
}

/// Whether any of the patterns matches, in one sentence.
pub proof fn lemma_any_matches<E: Engine>(patterns: Seq<E>, line: Seq<u8>, from: int)
    requires
        0 <= from <= patterns.len(),
        forall|i: int|
            0 <= i < patterns.len() ==> (#[trigger] patterns[i]).leftmost(line, 0) is Ok,
    ensures
        any_matches(patterns, line, from) == Ok::<bool, Fault>(
            exists|i: int|
                from <= i < patterns.len() && (#[trigger] patterns[i]).leftmost(line, 0) matches Ok(
                    Some(_),
                ),
        ),
    decreases patterns.len() - from,
{
    if from < patterns.len() {
        assert(patterns[from].leftmost(line, 0) is Ok);
        lemma_any_matches(patterns, line, from + 1);
    }
}

/// The first match of a line is leftmost and longest over all patterns: no
/// pattern has a match that starts before it, or one that starts with it and
/// ends behind it.
pub proof fn law_first_match_is_leftmost_longest<E: Engine>(
    patterns: Seq<E>,
    line: Seq<u8>,
    i: int,
)
    requires
        line_matches(patterns, line) is Ok,
        0 <= i < patterns.len(),
        patterns[i].leftmost(line, 0) matches Ok(Some(_)),
    ensures
        ({
            let spans = line_matches(patterns, line)->Ok_0;
            let leftmost = patterns[i].leftmost(line, 0)->Ok_0->0;
            let end = match patterns[i].longest(line, leftmost.0)->Ok_0 {
                Some(end) => end,
                None => leftmost.1,
            };
            &&& spans.len() > 0
            &&& spans[0].0 < leftmost.0 || spans[0].0 == leftmost.0 && spans[0].1 >= end
        }),
{
    lemma_first_step(patterns, line);
    let cursors = opened(patterns, line)->Ok_0.cursors;
    assert(searched(patterns[i], line, 0) == Ok::<_, Fault>(cursors[i]));
    lemma_best_exists(cursors, i);
}

/// Without patterns no line has a match, so that all lines are wanted under `-v`
/// and none otherwise.
pub proof fn law_no_patterns_match_nothing<E: Engine>(
    config: Config,
    patterns: Seq<E>,
    line: Seq<u8>,
)
    requires
        patterns.len() == 0,
    ensures
        line_matches(patterns, line) == Ok::<_, Fault>(Seq::<Span>::empty()),
        selection::<E>(config, line, Seq::empty()) is Some <==> config.invert_match,
        is_wanted(config, patterns, line) == Ok::<bool, Fault>(config.invert_match),
{
    law_matches_are_in_order(patterns, line);
    law_a_line_matches_if_a_pattern_does(patterns, line);
    assert(line_matches(patterns, line)->Ok_0 =~= Seq::<Span>::empty());
}

/// The cheap check and the listing of positions agree on which lines are
/// wanted.
pub proof fn law_is_match_agrees_with_match_line<E: Engine>(
    config: Config,
    patterns: Seq<E>,
    line: Seq<u8>,
)
    requires
        line_matches(patterns, line) is Ok,
    ensures
        is_wanted(config, patterns, line) == Ok::<bool, Fault>(
            selection::<E>(config, line, line_matches(patterns, line)->Ok_0) is Some,
        ),
{
    let spans = line_matches(patterns, line)->Ok_0;
    law_a_line_matches_if_a_pattern_does(patterns, line);
    if !config.line_regexp && !config.word_regexp {
        if spans.len() > 0 {
            assert(counts::<E>(config, line, spans[0]));
        }
    }
}

/// `config` with the lines wanted that it does not want.
pub open spec fn inverted(config: Config) -> Config {
    Config { invert_match: !config.invert_match, ..config }
}

/// `-v` wants exactly the lines that are not wanted without it.
pub proof fn law_inversion_is_complement<E: Engine>(
    config: Config,
    patterns: Seq<E>,
    line: Seq<u8>,
    spans: Seq<Span>,
)
    ensures
        selection::<E>(inverted(config), line, spans) is Some <==> selection::<E>(
            config,
            line,
            spans,
        ) is None,
        match is_wanted(config, patterns, line) {
            Ok(wanted) => is_wanted(inverted(config), patterns, line) == Ok::<bool, Fault>(!wanted),
            Err(fault) => is_wanted(inverted(config), patterns, line) == Err::<bool, _>(fault),
        },
{
    let other = inverted(config);
    assert forall|span: Span| counts::<E>(config, line, span) == counts::<E>(other, line, span) by {
    }
    assert(any_counts::<E>(config, line, spans) == any_counts::<E>(other, line, spans));
    if let Ok(all) = line_matches(patterns, line) {
        assert(any_counts::<E>(config, line, all) == any_counts::<E>(other, line, all));
    }
}

/// Under `-v` nothing is highlighted: a line with a match that counts is not
/// wanted.
pub proof fn law_inverted_lines_have_no_highlights<E: Engine>(
    config: Config,
    line: Seq<u8>,
    spans: Seq<Span>,
)
    requires
        config.invert_match,
    ensures
        selection::<E>(config, line, spans) matches Some(positions) ==> positions.len() == 0,
{
    let keep = |span: Span| counts::<E>(config, line, span) && span.0 != span.1;
    if selection::<E>(config, line, spans) is Some && spans.filter(keep).len() > 0 {
        lemma_filter_keeps(spans, keep, 0);
        let span = spans.filter(keep)[0];
        let k = choose|k: int| 0 <= k < spans.len() && spans[k] == span;
        assert(counts::<E>(config, line, spans[k]));
    }
}

/// What is highlighted is not empty and counts as a match: under `-x` it is the
/// whole line, under `-w` no word character touches it.
pub proof fn law_highlights_count<E: Engine>(
    config: Config,
    line: Seq<u8>,
    spans: Seq<Span>,
    i: int,
)
    requires
        selection::<E>(config, line, spans) is Some,
        0 <= i < selection::<E>(config, line, spans)->0.len(),
    ensures
        ({
            let span = selection::<E>(config, line, spans)->0[i];
            &&& spans.contains(span)
            &&& span.0 != span.1
            &&& config.line_regexp ==> span.0 == 0 && span.1 == line.len()
            &&& config.word_regexp ==> E::stands_alone(line, span.0, span.1)
        }),
{
    let keep = |span: Span| counts::<E>(config, line, span) && span.0 != span.1;
    lemma_filter_keeps(spans, keep, i);
}

proof fn lemma_filter_keeps(spans: Seq<Span>, keep: spec_fn(Span) -> bool, i: int)
    requires
        0 <= i < spans.filter(keep).len(),
    ensures
        keep(spans.filter(keep)[i]),
        spans.contains(spans.filter(keep)[i]),
    decreases spans.len(),
{
    reveal(Seq::filter);
    if spans.len() > 0 {
        let head = spans.drop_last();
        if i < head.filter(keep).len() {
            lemma_filter_keeps(head, keep, i);
            let k = choose|k: int| 0 <= k < head.len() && head[k] == head.filter(keep)[i];
            assert(spans[k] == head[k]);
        } else {
            assert(spans[spans.len() - 1] == spans.last());
        }
    }
}

/// Where searches start no match before the place where they began, the highlights
/// of a line do not overlap and come in the order of the line.
pub proof fn law_highlights_are_in_order<E: Engine>(
    config: Config,
    patterns: Seq<E>,
    line: Seq<u8>,
)
    requires
        all_start_ahead(patterns, line),
        line_matches(patterns, line) is Ok,
    ensures
        in_order(highlighted::<E>(config, line, line_matches(patterns, line)->Ok_0), 0),
{
    law_matches_are_in_order(patterns, line);
    let keep = |span: Span| counts::<E>(config, line, span) && span.0 != span.1;
    lemma_filter_in_order(line_matches(patterns, line)->Ok_0, keep, 0);
}

proof fn lemma_filter_in_order(spans: Seq<Span>, keep: spec_fn(Span) -> bool, from: int)
    requires
        in_order(spans, from),
    ensures
        in_order(spans.filter(keep), from),
    decreases spans.len(),
{
    reveal(Seq::filter);
    if spans.len() > 0 {
        let head = spans.drop_last();
        assert(in_order(head, from)) by {
            assert(forall|i: int| 0 <= i < head.len() ==> #[trigger] head[i] == spans[i]);
        }
        lemma_filter_in_order(head, keep, from);
        let kept = head.filter(keep);
        if keep(spans.last()) {
            let all = kept.push(spans.last());
            assert forall|i: int, j: int| 0 <= i < j < all.len() implies (#[trigger] all[i]).1 <= (
            #[trigger] all[j]).0 by {
                if j == kept.len() {
                    lemma_filter_keeps(head, keep, i);
                    let k = choose|k: int| 0 <= k < head.len() && head[k] == kept[i];
                    assert(spans[k] == head[k]);
                    assert(spans[k].1 <= spans[spans.len() - 1].0);
                }
            }
            assert(spans[spans.len() - 1] == spans.last());
            assert(in_order(all, from));
        }
    }
}

} // verus!
