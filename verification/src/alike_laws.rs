//! What holds of two engines whose searches have the same outcomes.

use crate::config::Config;
use crate::engine::{Engine, Span};
use crate::error::Fault;
use crate::laws::{
    inverted, law_inversion_is_complement, law_inverted_lines_have_no_highlights,
    law_is_match_agrees_with_match_line,
};
use crate::listing::{lemma_run_within, line_matches, run_within};
use crate::matcher::{any_counts, any_matches, counts, is_wanted, selection};
use crate::merge::{
    all_or_fault, best, is_best, lemma_all_or_fault, opened, refreshed_each, searched, step,
    MergeState,
};
use vstd::prelude::*;

verus! {

/// Whether searches for `a` and for `b` in `line` have the same outcomes.
pub open spec fn searched_alike<E: Engine, F: Engine>(a: E, b: F, line: Seq<u8>) -> bool {
    &&& forall|offset: usize|
        offset <= line.len() ==> #[trigger] a.leftmost(line, offset) == b.leftmost(line, offset)
    &&& forall|start: usize|
        start <= line.len() ==> #[trigger] a.longest(line, start) == b.longest(line, start)
}

/// Whether this holds of each pattern of `a` and the one of `b` in its place.
pub open spec fn all_searched_alike<E: Engine, F: Engine>(
    a: Seq<E>,
    b: Seq<F>,
    line: Seq<u8>,
) -> bool {
    &&& a.len() == b.len()
    &&& forall|i: int|
        #![trigger a[i]]
        #![trigger b[i]]
        0 <= i < a.len() ==> searched_alike(a[i], b[i], line)
}

/// Searches alike lead a cursor to the same place.
pub proof fn lemma_searched_alike<E: Engine, F: Engine>(a: E, b: F, line: Seq<u8>, offset: usize)
    requires
        searched_alike(a, b, line),
    ensures
        searched(a, line, offset) == searched(b, line, offset),
{
    if offset <= line.len() {
        if let Ok(Some(span)) = a.leftmost(line, offset) {
            if span.0 <= line.len() {
                assert(a.longest(line, span.0) == b.longest(line, span.0));
            }
        }
    }
}

proof fn lemma_step_alike<E: Engine, F: Engine>(
    a: Seq<E>,
    b: Seq<F>,
    line: Seq<u8>,
    state: MergeState,
)
    requires
        all_searched_alike(a, b, line),
        state.cursors.len() == a.len(),
    ensures
        step(a, line, state) == step(b, line, state),
        step(a, line, state) matches Ok(Some((next, _))) ==> next.cursors.len() == a.len(),
{
    let items = refreshed_each(a, line, state);
    assert(items =~= refreshed_each(b, line, state)) by {
        assert forall|i: int| 0 <= i < a.len() implies items[i] == refreshed_each(
            b,
            line,
            state,
        )[i] by {
            lemma_searched_alike(a[i], b[i], line, state.last_end);
        }
    }
    if all_or_fault(items) is Ok {
        lemma_all_or_fault(items);
        let fresh = all_or_fault(items)->Ok_0;
        if let Some(i) = best(fresh) {
            assert(is_best(fresh, i));
            lemma_searched_alike(a[i], b[i], line, fresh[i].offset);
        }
    }
}

proof fn lemma_run_alike<E: Engine, F: Engine>(
    a: Seq<E>,
    b: Seq<F>,
    line: Seq<u8>,
    state: MergeState,
    limit: nat,
)
    requires
        all_searched_alike(a, b, line),
        state.cursors.len() == a.len(),
    ensures
        run_within(a, line, state, limit) == run_within(b, line, state, limit),
    decreases limit,
{
    lemma_step_alike(a, b, line, state);
    if let Ok(Some((next, _))) = step(a, line, state) {
        if limit > 0 {
            lemma_run_alike(a, b, line, next, (limit - 1) as nat);
        }
    }
}

/// The matches of a line depend on nothing but what searches for the patterns
/// yield, whatever the engine.
pub proof fn law_patterns_searched_alike_match_alike<E: Engine, F: Engine>(
    a: Seq<E>,
    b: Seq<F>,
    line: Seq<u8>,
)
    requires
        all_searched_alike(a, b, line),
    ensures
        line_matches(a, line) == line_matches(b, line),
{
    let items = Seq::new(a.len(), |i: int| searched(a[i], line, 0));
    assert(items =~= Seq::new(b.len(), |i: int| searched(b[i], line, 0))) by {
        assert forall|i: int| 0 <= i < a.len() implies items[i] == searched(b[i], line, 0) by {
            lemma_searched_alike(a[i], b[i], line, 0);
        }
    }
    assert(opened(a, line) == opened(b, line));
    if let Ok(state) = opened(a, line) {
        lemma_all_or_fault(items);
        assert forall|limit: nat| run_within(a, line, state, limit) == run_within(
            b,
            line,
            state,
            limit,
        ) by {
            lemma_run_alike(a, b, line, state, limit);
        }
        if exists|limit: nat| run_within(a, line, state, limit) is Some {
            let limit = choose|limit: nat| run_within(a, line, state, limit) is Some;
            lemma_run_within(a, line, state, limit);
            lemma_run_within(b, line, state, limit);
        } else {
            assert forall|limit: nat| run_within(b, line, state, limit) is None by {
                assert(run_within(a, line, state, limit) is None);
            }
        }
    }
}

proof fn lemma_any_matches_alike<E: Engine, F: Engine>(
    a: Seq<E>,
    b: Seq<F>,
    line: Seq<u8>,
    from: int,
)
    requires
        all_searched_alike(a, b, line),
        0 <= from <= a.len(),
    ensures
        any_matches(a, line, from) == any_matches(b, line, from),
    decreases a.len() - from,
{
    if from < a.len() {
        assert(a[from].leftmost(line, 0) == b[from].leftmost(line, 0));
        lemma_any_matches_alike(a, b, line, from + 1);
    }
}

/// Without `-w`, which lines are wanted, and what is highlighted in them,
/// depends on the matches alone, whatever the engine.
pub proof fn law_engines_select_alike<E: Engine, F: Engine>(
    config: Config,
    line: Seq<u8>,
    spans: Seq<Span>,
)
    requires
        !config.word_regexp,
    ensures
        selection::<E>(config, line, spans) == selection::<F>(config, line, spans),
{
    let by_e = |span: Span| counts::<E>(config, line, span) && span.0 != span.1;
    let by_f = |span: Span| counts::<F>(config, line, span) && span.0 != span.1;
    assert(by_e =~= by_f);
    assert(any_counts::<E>(config, line, spans) == any_counts::<F>(config, line, spans));
}

/// Without `-w`, the cheap check depends on nothing but what searches for the
/// patterns yield, whatever the engine.
pub proof fn law_patterns_searched_alike_are_wanted_alike<E: Engine, F: Engine>(
    config: Config,
    a: Seq<E>,
    b: Seq<F>,
    line: Seq<u8>,
)
    requires
        all_searched_alike(a, b, line),
        !config.word_regexp,
    ensures
        is_wanted(config, a, line) == is_wanted(config, b, line),
{
    law_patterns_searched_alike_match_alike(a, b, line);
    lemma_any_matches_alike(a, b, line, 0);
    if let Ok(spans) = line_matches(a, line) {
        law_engines_select_alike::<E, F>(config, line, spans);
    }
}

/// Two searches that differ in `-v` alone, for patterns that are searched for
/// alike, want complementary lines, and the one with `-v` highlights nothing.
pub proof fn law_inverted_search_wants_the_other_lines<E: Engine>(
    config: Config,
    a: Seq<E>,
    b: Seq<E>,
    line: Seq<u8>,
)
    requires
        !config.invert_match,
        all_searched_alike(a, b, line),
        line_matches(a, line) is Ok,
    ensures
        line_matches(b, line) == line_matches(a, line),
        ({
            let spans = line_matches(a, line)->Ok_0;
            let positions = selection::<E>(config, line, spans);
            let other = selection::<E>(inverted(config), line, spans);
            &&& positions is Some <==> other is None
            &&& other matches Some(highlights) ==> highlights.len() == 0
            &&& is_wanted(config, a, line) == Ok::<bool, Fault>(positions is Some)
            &&& is_wanted(inverted(config), b, line) == Ok::<bool, Fault>(other is Some)
        }),
{
    law_patterns_searched_alike_match_alike(a, b, line);
    let spans = line_matches(a, line)->Ok_0;
    law_inversion_is_complement(config, a, line, spans);
    law_inverted_lines_have_no_highlights::<E>(inverted(config), line, spans);
    law_is_match_agrees_with_match_line(config, a, line);
    law_is_match_agrees_with_match_line(inverted(config), b, line);
}

proof fn lemma_any_matches_joined<E: Engine>(p: Seq<E>, q: Seq<E>, line: Seq<u8>, from: int)
    requires
        0 <= from <= p.len(),
    ensures
        any_matches(p + q, line, from) == (match any_matches(p, line, from) {
            Ok(false) => any_matches(q, line, 0),
            outcome => outcome,
        }),
    decreases p.len() - from,
{
    if from < p.len() {
        assert((p + q)[from] == p[from]);
        lemma_any_matches_joined(p, q, line, from + 1);
    } else {
        lemma_any_matches_behind(p, q, line, 0);
    }
}

proof fn lemma_any_matches_behind<E: Engine>(p: Seq<E>, q: Seq<E>, line: Seq<u8>, from: int)
    requires
        0 <= from <= q.len(),
    ensures
        any_matches(p + q, line, p.len() + from) == any_matches(q, line, from),
    decreases q.len() - from,
{
    if from < q.len() {
        assert((p + q)[p.len() + from] == q[from]);
        lemma_any_matches_behind(p, q, line, from + 1);
    }
}

/// A line matches one of two lists of patterns put together exactly if it
/// matches one of the first or one of the second.
pub proof fn law_joined_lists_match_either<E: Engine>(
    config: Config,
    p: Seq<E>,
    q: Seq<E>,
    joined: Seq<E>,
    line: Seq<u8>,
)
    requires
        !config.line_regexp,
        !config.word_regexp,
        !config.invert_match,
        all_searched_alike(joined, p + q, line),
        is_wanted(config, p, line) is Ok,
        is_wanted(config, q, line) is Ok,
    ensures
        is_wanted(config, joined, line) == Ok::<bool, Fault>(
            is_wanted(config, p, line)->Ok_0 || is_wanted(config, q, line)->Ok_0,
        ),
{
    law_patterns_searched_alike_are_wanted_alike(config, joined, p + q, line);
    lemma_any_matches_joined(p, q, line, 0);
}

} // verus!
