//! All matches of a line.

use crate::engine::{Engine, Span};
use crate::error::{Fault, MatchError};
use crate::finite::{lemma_states_are_few, state_count};
use crate::merge::{
    lemma_opened_in_line, lemma_step_in_line, opened, start_in_line, step, MatchIter, MergeState,
    Snapshot,
};
use vstd::prelude::*;

verus! {

/// `span` in front of the matches of `rest`.
pub open spec fn listed(span: Span, rest: Result<Seq<Span>, Fault>) -> Result<Seq<Span>, Fault> {
    match rest {
        Err(fault) => Err(fault),
        Ok(spans) => Ok(seq![span] + spans),
    }
}

/// The matches of `line` from `state` on, in order, if there are no more than
/// `limit` before the line or the engine comes to an end.
pub open spec fn run_within<E: Engine>(
    patterns: Seq<E>,
    line: Seq<u8>,
    state: MergeState,
    limit: nat,
) -> Option<Result<Seq<Span>, Fault>>
    decreases limit,
{
    match step(patterns, line, state) {
        Err(fault) => Some(Err(fault)),
        Ok(None) => Some(Ok(Seq::empty())),
        Ok(Some((next, span))) => if limit == 0 {
            None
        } else {
            match run_within(patterns, line, next, (limit - 1) as nat) {
                Some(rest) => Some(listed(span, rest)),
                None => None,
            }
        },
    }
}

/// Whether the matches of `line` from `state` on come to an end.
pub open spec fn ends<E: Engine>(patterns: Seq<E>, line: Seq<u8>, state: MergeState) -> bool {
    exists|limit: nat| run_within(patterns, line, state, limit) is Some
}

/// The matches of `line` from `state` on, in order. Where they never end, the
/// line is given up.
pub open spec fn run<E: Engine>(patterns: Seq<E>, line: Seq<u8>, state: MergeState) -> Result<
    Seq<Span>,
    Fault,
> {
    if ends(patterns, line, state) {
        let limit = choose|limit: nat| run_within(patterns, line, state, limit) is Some;
        run_within(patterns, line, state, limit)->0
    } else {
        Err(Fault::Stalled)
    }
}

/// The matches of `patterns` in `line`, in order.
pub open spec fn line_matches<E: Engine>(patterns: Seq<E>, line: Seq<u8>) -> Result<
    Seq<Span>,
    Fault,
> {
    match opened(patterns, line) {
        Err(fault) => Err(fault),
        Ok(state) => run(patterns, line, state),
    }
}

/// A larger limit changes nothing.
proof fn lemma_larger_limit<E: Engine>(
    patterns: Seq<E>,
    line: Seq<u8>,
    state: MergeState,
    limit: nat,
    larger: nat,
)
    requires
        run_within(patterns, line, state, limit) is Some,
        limit <= larger,
    ensures
        run_within(patterns, line, state, larger) == run_within(patterns, line, state, limit),
    decreases limit,
{
    if let Ok(Some((next, _))) = step(patterns, line, state) {
        lemma_larger_limit(patterns, line, next, (limit - 1) as nat, (larger - 1) as nat);
    }
}

/// Any limit that is large enough yields the same matches.
pub proof fn lemma_run_within<E: Engine>(
    patterns: Seq<E>,
    line: Seq<u8>,
    state: MergeState,
    limit: nat,
)
    requires
        run_within(patterns, line, state, limit) is Some,
    ensures
        ends(patterns, line, state),
        run_within(patterns, line, state, limit) == Some(run(patterns, line, state)),
{
    let chosen = choose|limit: nat| run_within(patterns, line, state, limit) is Some;
    if limit <= chosen {
        lemma_larger_limit(patterns, line, state, limit, chosen);
    } else {
        lemma_larger_limit(patterns, line, state, chosen, limit);
    }
}

/// The matches from `state` on are the next one and those behind it.
pub proof fn lemma_run<E: Engine>(patterns: Seq<E>, line: Seq<u8>, state: MergeState)
    ensures
        run(patterns, line, state) == (match step(patterns, line, state) {
            Err(fault) => Err(fault),
            Ok(None) => Ok(Seq::empty()),
            Ok(Some((next, span))) => listed(span, run(patterns, line, next)),
        }),
{
    match step(patterns, line, state) {
        Ok(Some((next, span))) => {
            if ends(patterns, line, next) {
                let limit = choose|limit: nat| run_within(patterns, line, next, limit) is Some;
                lemma_run_within(patterns, line, next, limit);
                assert(run_within(patterns, line, state, limit + 1) == Some(
                    listed(span, run(patterns, line, next)),
                ));
                lemma_run_within(patterns, line, state, limit + 1);
            } else if ends(patterns, line, state) {
                let limit = choose|limit: nat| run_within(patterns, line, state, limit) is Some;
                assert(run_within(patterns, line, next, (limit - 1) as nat) is Some);
            }
        },
        _ => {
            lemma_run_within(patterns, line, state, 0);
        },
    }
}

/// The state behind the next `count` matches, if there are so many.
pub open spec fn state_after<E: Engine>(
    patterns: Seq<E>,
    line: Seq<u8>,
    state: MergeState,
    count: nat,
) -> Option<MergeState>
    decreases count,
{
    if count == 0 {
        Some(state)
    } else {
        match step(patterns, line, state) {
            Ok(Some((next, _))) => state_after(patterns, line, next, (count - 1) as nat),
            _ => None,
        }
    }
}

/// Whether the matches from `state` on lead to `later`.
spec fn leads_to<E: Engine>(
    patterns: Seq<E>,
    line: Seq<u8>,
    state: MergeState,
    later: MergeState,
) -> bool {
    exists|count: nat| state_after(patterns, line, state, count) == Some(later)
}

/// A step from `later` is one step more from `state`.
proof fn lemma_one_step_more<E: Engine>(
    patterns: Seq<E>,
    line: Seq<u8>,
    state: MergeState,
    later: MergeState,
    count: nat,
)
    requires
        state_after(patterns, line, state, count) == Some(later),
        step(patterns, line, later) is Ok,
        step(patterns, line, later)->Ok_0 is Some,
    ensures
        ({
            let (next, _) = step(patterns, line, later)->Ok_0->0;
            state_after(patterns, line, state, count + 1) == Some(next)
        }),
    decreases count,
{
    if count == 0 {
        let (next, _) = step(patterns, line, later)->Ok_0->0;
        assert(state_after(patterns, line, next, 0) == Some(next));
    } else {
        let (first, _) = step(patterns, line, state)->Ok_0->0;
        lemma_one_step_more(patterns, line, first, later, (count - 1) as nat);
    }
}

/// Where the matches come to an end, they do so behind any later state, and the
/// sooner.
proof fn lemma_ends_later<E: Engine>(
    patterns: Seq<E>,
    line: Seq<u8>,
    state: MergeState,
    limit: nat,
    count: nat,
)
    requires
        run_within(patterns, line, state, limit) is Some,
        state_after(patterns, line, state, count) is Some,
    ensures
        count <= limit,
        run_within(
            patterns,
            line,
            state_after(patterns, line, state, count)->0,
            (limit - count) as nat,
        ) is Some,
    decreases count,
{
    if count > 0 {
        let (next, _) = step(patterns, line, state)->Ok_0->0;
        lemma_ends_later(patterns, line, next, (limit - 1) as nat, (count - 1) as nat);
    }
}

/// Matches that lead back to where they started never end.
proof fn lemma_circle<E: Engine>(
    patterns: Seq<E>,
    line: Seq<u8>,
    state: MergeState,
    count: nat,
    limit: nat,
)
    requires
        count > 0,
        state_after(patterns, line, state, count) == Some(state),
    ensures
        run_within(patterns, line, state, limit) is None,
    decreases limit,
{
    if run_within(patterns, line, state, limit) is Some {
        lemma_ends_later(patterns, line, state, limit, count);
        lemma_circle(patterns, line, state, count, (limit - count) as nat);
    }
}

/// A state that was there before, one or more matches ago: the line is given
/// up.
proof fn lemma_stalled<E: Engine>(
    patterns: Seq<E>,
    line: Seq<u8>,
    state: MergeState,
    last: MergeState,
)
    requires
        leads_to(patterns, line, state, last),
        step(patterns, line, last) is Ok,
        step(patterns, line, last)->Ok_0 matches Some((next, _)) && next == state,
    ensures
        run(patterns, line, state) == Err::<Seq<Span>, _>(Fault::Stalled),
{
    let count = choose|count: nat| state_after(patterns, line, state, count) == Some(last);
    lemma_one_step_more(patterns, line, state, last, count);
    assert forall|limit: nat| run_within(patterns, line, state, limit) is None by {
        lemma_circle(patterns, line, state, count + 1, limit);
    }
}

/// The states that were noted.
spec fn noted_states(seen: Seq<Snapshot>) -> Seq<MergeState> {
    seen.map_values(|noted: Snapshot| noted@)
}

/// Whether `iter` is at one of the states noted.
fn is_at_any<E: Engine>(iter: &MatchIter<E>, seen: &Vec<Snapshot>) -> (known: bool)
    ensures
        known == noted_states(seen@).contains(iter.state()),
{
    let mut i: usize = 0;
    while i < seen.len()
        invariant
            i <= seen@.len(),
            forall|k: int| 0 <= k < i ==> #[trigger] noted_states(seen@)[k] != iter.state(),
        decreases seen@.len() - i,
    {
        assert(noted_states(seen@)[i as int] == seen@[i as int]@);
        if iter.is_at(&seen[i]) {
            return true;
        }
        i += 1;
    }
    false
}

/// Lists the matches of `patterns` in `line`: the leftmost first, each as long
/// as it can be, and the next searched for behind it.
///
/// An engine whose matches start before the place where it was told to search
/// can send the list in a circle. So once more matches than there are patterns
/// fail to get ahead in the line, the states behind them are noted, and the line
/// is given up where one of them comes back.
pub fn all_matches<E: Engine>(patterns: &[E], line: &[u8]) -> (outcome: Result<
    Vec<Span>,
    MatchError,
>)
    ensures
        match outcome {
            Ok(spans) => {
                &&& line_matches(patterns@, line@) == Ok::<_, Fault>(spans@)
                &&& forall|i: int| 0 <= i < spans@.len() ==> (#[trigger] spans@[i]).0 <= line@.len()
            },
            Err(error) => line_matches(patterns@, line@) == Err::<Seq<Span>, _>(error@),
        },
{
    let mut iter = match MatchIter::new(patterns, line) {
        Ok(iter) => iter,
        Err(error) => return Err(error),
    };
    proof {
        lemma_opened_in_line(patterns@, line@);
        if let Ok(rest) = run(patterns@, line@, iter.state()) {
            assert(Seq::<Span>::empty() + rest =~= rest);
        }
    }
    let mut spans: Vec<Span> = Vec::new();
    // The farthest end of a match so far, and how many did not get past it.
    let mut farthest: usize = 0;
    let mut idle: usize = 0;
    let mut seen: Vec<Snapshot> = Vec::new();
    loop
        invariant
            iter.wf(),
            iter.patterns() == patterns@,
            iter.line() == line@,
            start_in_line(iter.state().cursors, line@.len()),
            match run(patterns@, line@, iter.state()) {
                Ok(rest) => line_matches(patterns@, line@) == Ok::<_, Fault>(spans@ + rest),
                Err(fault) => line_matches(patterns@, line@) == Err::<Seq<Span>, _>(fault),
            },
            forall|i: int| 0 <= i < spans@.len() ==> (#[trigger] spans@[i]).0 <= line@.len(),
            idle <= patterns@.len(),
            noted_states(seen@).no_duplicates(),
            forall|i: int|
                0 <= i < seen@.len() ==> (#[trigger] noted_states(seen@)[i]).cursors.len()
                    == patterns@.len() && leads_to(
                    patterns@,
                    line@,
                    noted_states(seen@)[i],
                    iter.state(),
                ),
        decreases
                usize::MAX - farthest,
                patterns@.len() - idle,
                state_count(patterns@.len()) - seen@.len(),
    {
        let ghost last = iter.state();
        proof {
            lemma_run(patterns@, line@, last);
        }
        let span = match iter.next() {
            Ok(Some(span)) => span,
            Ok(None) => {
                assert(spans@ + Seq::<Span>::empty() =~= spans@);
                return Ok(spans);
            },
            Err(error) => return Err(error),
        };
        let ghost before = spans@;
        spans.push(span);
        proof {
            lemma_step_in_line(patterns@, line@, last);
            if let Ok(rest) = run(patterns@, line@, iter.state()) {
                assert(before + (seq![span] + rest) =~= spans@ + rest);
            }
            assert forall|i: int| 0 <= i < seen@.len() implies leads_to(
                patterns@,
                line@,
                #[trigger] noted_states(seen@)[i],
                iter.state(),
            ) by {
                let state = noted_states(seen@)[i];
                let count = choose|count: nat|
                    state_after(patterns@, line@, state, count) == Some(last);
                lemma_one_step_more(patterns@, line@, state, last, count);
            }
        }
        if span.1 > farthest {
            farthest = span.1;
            idle = 0;
            seen.clear();
        } else if idle < patterns.len() {
            idle += 1;
        } else if is_at_any(&iter, &seen) {
            proof {
                lemma_stalled(patterns@, line@, iter.state(), last);
            }
            return Err(MatchError::Stalled);
        } else {
            let ghost noted = noted_states(seen@);
            seen.push(iter.snapshot());
            proof {
                iter.lemma_one_cursor_each();
                assert(noted_states(seen@) =~= noted.push(iter.state()));
                assert(state_after(patterns@, line@, iter.state(), 0) == Some(iter.state()));
                lemma_states_are_few(noted_states(seen@), patterns@.len());
            }
        }
    }
}

} // verus!
