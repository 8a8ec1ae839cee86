//! The matches of several patterns in one line, in order.

use crate::engine::{found, Engine, Span};
use crate::error::{Fault, MatchError};
use vstd::prelude::*;

verus! {

/// How far a pattern has been searched for.
pub struct CursorState {
    /// Where the next search starts.
    pub offset: usize,
    /// The match that the last search found.
    pub pending: Option<Span>,
}

/// How far a line has been searched.
pub struct MergeState {
    /// One cursor for each pattern.
    pub cursors: Seq<CursorState>,
    /// The end of the last match listed.
    pub last_end: usize,
}

/// The cursor of `pattern` after a search from `offset`: the leftmost match,
/// stretched to the longest one with the same start. The next search begins
/// behind it, and behind its first byte if it is empty.
pub open spec fn searched<E: Engine>(pattern: E, line: Seq<u8>, offset: usize) -> Result<
    CursorState,
    Fault,
> {
    if offset > line.len() {
        Ok(CursorState { offset, pending: None })
    } else {
        match pattern.leftmost(line, offset) {
            Err(error) => Err(Fault::Engine(error.0, error.1)),
            Ok(None) => Ok(CursorState { offset, pending: None }),
            Ok(Some(span)) => if span.0 > line.len() {
                Err(Fault::OutOfLine)
            } else {
                match pattern.longest(line, span.0) {
                    Err(error) => Err(Fault::Engine(error.0, error.1)),
                    Ok(longest) => {
                        let end = match longest {
                            Some(end) => end,
                            None => span.1,
                        };
                        Ok(
                            CursorState {
                                offset: if end > span.0 {
                                    end
                                } else {
                                    (span.0 + 1) as usize
                                },
                                pending: Some((span.0, end)),
                            },
                        )
                    },
                }
            },
        }
    }
}

/// All values of `items`, or the first fault among them.
pub open spec fn all_or_fault(items: Seq<Result<CursorState, Fault>>) -> Result<
    Seq<CursorState>,
    Fault,
>
    decreases items.len(),
{
    if items.len() == 0 {
        Ok(Seq::empty())
    } else {
        match all_or_fault(items.drop_last()) {
            Err(fault) => Err(fault),
            Ok(done) => match items.last() {
                Err(fault) => Err(fault),
                Ok(cursor) => Ok(done.push(cursor)),
            },
        }
    }
}

/// The state before the first match: every pattern searched for from the start
/// of the line.
pub open spec fn opened<E: Engine>(patterns: Seq<E>, line: Seq<u8>) -> Result<MergeState, Fault> {
    match all_or_fault(Seq::new(patterns.len(), |i: int| searched(patterns[i], line, 0))) {
        Err(fault) => Err(fault),
        Ok(cursors) => Ok(MergeState { cursors, last_end: 0 }),
    }
}

/// Whether the pending match of `cursor` starts before `last_end`.
pub open spec fn is_stale(cursor: CursorState, last_end: usize) -> bool {
    cursor.pending is Some && (cursor.pending->0).0 < last_end
}

/// `cursor`, searched again from `last_end` if its match is stale.
pub open spec fn refreshed<E: Engine>(
    pattern: E,
    line: Seq<u8>,
    cursor: CursorState,
    last_end: usize,
) -> Result<CursorState, Fault> {
    if is_stale(cursor, last_end) {
        searched(pattern, line, last_end)
    } else {
        Ok(cursor)
    }
}

/// What becomes of each cursor of `state` when the stale ones are searched
/// again.
pub open spec fn refreshed_each<E: Engine>(
    patterns: Seq<E>,
    line: Seq<u8>,
    state: MergeState,
) -> Seq<Result<CursorState, Fault>> {
    Seq::new(
        state.cursors.len(),
        |i: int| refreshed(patterns[i], line, state.cursors[i], state.last_end),
    )
}

/// The cursors of `state`, each stale one searched again.
pub open spec fn refreshed_all<E: Engine>(
    patterns: Seq<E>,
    line: Seq<u8>,
    state: MergeState,
) -> Result<Seq<CursorState>, Fault> {
    all_or_fault(refreshed_each(patterns, line, state))
}

/// Whether the match `a` of pattern `i` comes before the match `b` of pattern
/// `j`, or is the same: the leftmost first, of those the longest, of those the
/// one of the first pattern.
pub open spec fn comes_first(a: Span, i: int, b: Span, j: int) -> bool {
    ||| a.0 < b.0
    ||| a.0 == b.0 && a.1 > b.1
    ||| a == b && i <= j
}

/// Whether the pending match of cursor `i` comes first of all.
pub open spec fn is_best(cursors: Seq<CursorState>, i: int) -> bool {
    &&& 0 <= i < cursors.len()
    &&& cursors[i].pending is Some
    &&& forall|j: int|
        0 <= j < cursors.len() && (#[trigger] cursors[j]).pending is Some ==> comes_first(
            cursors[i].pending->0,
            i,
            cursors[j].pending->0,
            j,
        )
}

/// The cursor whose pending match comes first of all, if any match is pending.
pub open spec fn best(cursors: Seq<CursorState>) -> Option<int> {
    if exists|i: int| is_best(cursors, i) {
        Some(choose|i: int| is_best(cursors, i))
    } else {
        None
    }
}

/// The next match of `state`, and the state behind it; `None` where no match is
/// left.
pub open spec fn step<E: Engine>(patterns: Seq<E>, line: Seq<u8>, state: MergeState) -> Result<
    Option<(MergeState, Span)>,
    Fault,
> {
    match refreshed_all(patterns, line, state) {
        Err(fault) => Err(fault),
        Ok(cursors) => match best(cursors) {
            None => Ok(None),
            Some(i) => match searched(patterns[i], line, cursors[i].offset) {
                Err(fault) => Err(fault),
                Ok(next) => {
                    let span = cursors[i].pending->0;
                    Ok(
                        Some(
                            (MergeState { cursors: cursors.update(i, next), last_end: span.1 }, span),
                        ),
                    )
                },
            },
        },
    }
}

/// At most one cursor comes first of all.
pub proof fn lemma_best_unique(cursors: Seq<CursorState>, i: int, j: int)
    requires
        is_best(cursors, i),
        is_best(cursors, j),
    ensures
        i == j,
{
    assert(cursors[i].pending is Some && cursors[j].pending is Some);
}

/// A step along [`all_or_fault`].
proof fn lemma_all_or_fault_next(items: Seq<Result<CursorState, Fault>>, i: int)
    requires
        0 <= i < items.len(),
    ensures
        all_or_fault(items.take(i + 1)) == (match all_or_fault(items.take(i)) {
            Err(fault) => Err(fault),
            Ok(done) => match items[i] {
                Err(fault) => Err(fault),
                Ok(cursor) => Ok(done.push(cursor)),
            },
        }),
{
    assert(items.take(i + 1).drop_last() =~= items.take(i));
    assert(items.take(i + 1).last() == items[i]);
}

/// A fault among the first items is the fault of all.
proof fn lemma_all_or_fault_early(items: Seq<Result<CursorState, Fault>>, i: int)
    requires
        0 <= i <= items.len(),
        all_or_fault(items.take(i)) is Err,
    ensures
        all_or_fault(items) == all_or_fault(items.take(i)),
    decreases items.len() - i,
{
    if i < items.len() {
        lemma_all_or_fault_next(items, i);
        lemma_all_or_fault_early(items, i + 1);
    } else {
        assert(items.take(i) =~= items);
    }
}

/// How far one pattern has been searched for in one line.
pub struct Cursor<'a, E> {
    pattern: &'a E,
    line: &'a [u8],
    /// Where the next search starts.
    offset: usize,
    /// The next match, already searched for. `None` once the pattern is
    /// exhausted.
    pending: Option<Span>,
}

impl<'a, E: Engine> Cursor<'a, E> {
    pub closed spec fn pattern(&self) -> E {
        *self.pattern
    }

    pub closed spec fn line(&self) -> Seq<u8> {
        self.line@
    }

    pub closed spec fn state(&self) -> CursorState {
        CursorState { offset: self.offset, pending: self.pending }
    }

    /// Searches for the next match from the offset on.
    pub fn refill(&mut self) -> (outcome: Result<(), MatchError>)
        ensures
            final(self).pattern() == old(self).pattern(),
            final(self).line() == old(self).line(),
            match outcome {
                Ok(()) => searched(old(self).pattern(), old(self).line(), old(self).state().offset)
                    == Ok::<_, Fault>(final(self).state()),
                Err(error) => searched(
                    old(self).pattern(),
                    old(self).line(),
                    old(self).state().offset,
                ) == Err::<CursorState, _>(error@),
            },
    {
        if self.offset > self.line.len() {
            self.pending = None;
            return Ok(());
        }
        let (start, leftmost_end) = match self.pattern.search_leftmost(self.line, self.offset) {
            Ok(Some(span)) => span,
            Ok(None) => {
                self.pending = None;
                return Ok(());
            },
            Err(error) => return Err(MatchError::Engine(error)),
        };
        if start > self.line.len() {
            return Err(MatchError::OutOfLine);
        }
        let end = match self.pattern.longest_end_at(self.line, start) {
            Ok(longest) => longest.unwrap_or(leftmost_end),
            Err(error) => return Err(MatchError::Engine(error)),
        };
        self.offset = if end > start { end } else { start + 1 };
        self.pending = Some((start, end));
        Ok(())
    }
}

/// The states of `cursors`.
pub open spec fn states<E: Engine>(cursors: Seq<Cursor<E>>) -> Seq<CursorState> {
    cursors.map_values(|cursor: Cursor<E>| cursor.state())
}

/// The patterns that `cursors` search for.
pub open spec fn patterns_of<E: Engine>(cursors: Seq<Cursor<E>>) -> Seq<E> {
    cursors.map_values(|cursor: Cursor<E>| cursor.pattern())
}

/// Streaming k-way merge over compiled patterns.
pub struct MatchIter<'a, E> {
    line: &'a [u8],
    cursors: Vec<Cursor<'a, E>>,
    /// End of the last emitted match.
    last_end: usize,
}

impl<'a, E: Engine> MatchIter<'a, E> {
    pub closed spec fn state(&self) -> MergeState {
        MergeState { cursors: states(self.cursors@), last_end: self.last_end }
    }

    pub closed spec fn patterns(&self) -> Seq<E> {
        patterns_of(self.cursors@)
    }

    pub closed spec fn line(&self) -> Seq<u8> {
        self.line@
    }

    /// Every cursor searches the line of the iterator.
    pub closed spec fn wf(&self) -> bool {
        forall|i: int|
            0 <= i < self.cursors@.len() ==> (#[trigger] self.cursors@[i]).line() == self.line@
    }

    /// Searches for every pattern from the start of the line.
    pub fn new(patterns: &'a [E], line: &'a [u8]) -> (outcome: Result<Self, MatchError>)
        ensures
            match outcome {
                Ok(iter) => {
                    &&& iter.wf()
                    &&& iter.patterns() == patterns@
                    &&& iter.line() == line@
                    &&& opened(patterns@, line@) == Ok::<_, Fault>(iter.state())
                },
                Err(error) => opened(patterns@, line@) == Err::<MergeState, _>(error@),
            },
    {
        let ghost items = Seq::new(patterns@.len(), |i: int| searched(patterns@[i], line@, 0));
        let mut cursors: Vec<Cursor<'a, E>> = Vec::with_capacity(patterns.len());
        assert(states(cursors@) =~= Seq::empty());
        let mut i: usize = 0;
        while i < patterns.len()
            invariant
                i <= patterns@.len(),
                cursors@.len() == i,
                items == Seq::new(patterns@.len(), |i: int| searched(patterns@[i], line@, 0)),
                all_or_fault(items.take(i as int)) == Ok::<_, Fault>(states(cursors@)),
                forall|k: int|
                    0 <= k < i ==> (#[trigger] cursors@[k]).pattern() == patterns@[k]
                        && cursors@[k].line() == line@,
            decreases patterns@.len() - i,
        {
            let mut cursor = Cursor { pattern: &patterns[i], line, offset: 0, pending: None };
            let refilled = cursor.refill();
            proof {
                lemma_all_or_fault_next(items, i as int);
            }
            if let Err(error) = refilled {
                proof {
                    lemma_all_or_fault_early(items, i + 1);
                }
                return Err(error);
            }
            let ghost before = cursors@;
            cursors.push(cursor);
            i += 1;
            assert(states(cursors@) =~= states(before).push(cursor.state()));
        }
        assert(items.take(i as int) =~= items);
        assert(patterns_of(cursors@) =~= patterns@);
        Ok(MatchIter { line, cursors, last_end: 0 })
    }

    /// Discards stale pending matches, those that start before the last emitted
    /// match ends: their patterns are searched for again from there.
    fn discard_stale(&mut self) -> (outcome: Result<(), MatchError>)
        requires
            old(self).wf(),
        ensures
            final(self).wf(),
            final(self).patterns() == old(self).patterns(),
            final(self).line() == old(self).line(),
            final(self).state().last_end == old(self).state().last_end,
            match outcome {
                Ok(()) => refreshed_all(old(self).patterns(), old(self).line(), old(self).state())
                    == Ok::<_, Fault>(final(self).state().cursors),
                Err(error) => refreshed_all(
                    old(self).patterns(),
                    old(self).line(),
                    old(self).state(),
                ) == Err::<Seq<CursorState>, _>(error@),
            },
    {
        let ghost start = *self;
        let ghost items = refreshed_each(start.patterns(), start.line(), start.state());
        assert(states(self.cursors@.take(0)) =~= Seq::empty());
        let mut i: usize = 0;
        while i < self.cursors.len()
            invariant
                i <= self.cursors@.len(),
                self.cursors@.len() == start.cursors@.len(),
                self.line == start.line,
                self.last_end == start.last_end,
                self.wf(),
                start.wf(),
                start == *old(self),
                items == refreshed_each(start.patterns(), start.line(), start.state()),
                forall|k: int|
                    0 <= k < start.cursors@.len() ==> (#[trigger] self.cursors@[k]).pattern()
                        == start.cursors@[k].pattern(),
                forall|k: int|
                    i <= k < start.cursors@.len() ==> #[trigger] self.cursors@[k]
                        == start.cursors@[k],
                all_or_fault(items.take(i as int)) == Ok::<_, Fault>(
                    states(self.cursors@.take(i as int)),
                ),
            decreases start.cursors@.len() - i,
        {
            let ghost before = self.cursors@;
            assert(before[i as int] == start.cursors@[i as int]);
            let stale = match self.cursors[i].pending {
                Some((begin, _)) => begin < self.last_end,
                None => false,
            };
            proof {
                lemma_all_or_fault_next(items, i as int);
            }
            if stale {
                self.cursors[i].offset = self.last_end;
                let refilled = self.cursors[i].refill();
                if let Err(error) = refilled {
                    proof {
                        lemma_all_or_fault_early(items, i + 1);
                        assert(patterns_of(self.cursors@) =~= patterns_of(start.cursors@));
                    }
                    return Err(error);
                }
            }
            assert(states(self.cursors@.take(i + 1)) =~= states(before.take(i as int)).push(
                self.cursors@[i as int].state(),
            ));
            i += 1;
        }
        assert(items.take(i as int) =~= items);
        assert(self.cursors@.take(i as int) =~= self.cursors@);
        assert(patterns_of(self.cursors@) =~= patterns_of(start.cursors@));
        Ok(())
    }

    /// Picks the leftmost pending match. Ties are broken by the largest end, so
    /// that POSIX leftmost-longest holds across patterns too, and then by the
    /// order of the patterns.
    fn best_index(&self) -> (index: Option<usize>)
        ensures
            match index {
                Some(i) => is_best(self.state().cursors, i as int),
                None => best(self.state().cursors) is None,
            },
    {
        let ghost all = self.state().cursors;
        let mut index: Option<usize> = None;
        let mut i: usize = 0;
        while i < self.cursors.len()
            invariant
                i <= self.cursors@.len(),
                all == states(self.cursors@),
                match index {
                    Some(k) => k < i && is_best(all.take(i as int), k as int),
                    None => forall|j: int| 0 <= j < i ==> (#[trigger] all[j]).pending is None,
                },
            decreases self.cursors@.len() - i,
        {
            assert(all[i as int] == self.cursors@[i as int].state());
            if let Some((start, end)) = self.cursors[i].pending {
                let better = match index {
                    None => true,
                    Some(k) => {
                        assert(all[k as int] == self.cursors@[k as int].state());
                        match self.cursors[k].pending {
                            Some((s, e)) => start < s || (start == s && end > e),
                            None => false,
                        }
                    },
                };
                if better {
                    index = Some(i);
                }
            }
            i += 1;
            assert(forall|j: int| 0 <= j < i - 1 ==> all.take(i - 1)[j] == #[trigger] all[j]);
            assert(forall|j: int| 0 <= j < i ==> #[trigger] all.take(i as int)[j] == all[j]);
        }
        assert(all.take(i as int) =~= all);
        index
    }

    /// The next match of the line, or `None` where no match is left.
    pub fn next(&mut self) -> (outcome: Result<Option<Span>, MatchError>)
        requires
            old(self).wf(),
        ensures
            final(self).wf(),
            final(self).patterns() == old(self).patterns(),
            final(self).line() == old(self).line(),
            match outcome {
                Ok(Some(span)) => step(old(self).patterns(), old(self).line(), old(self).state())
                    == Ok::<_, Fault>(Some((final(self).state(), span))),
                Ok(None) => {
                    &&& step(old(self).patterns(), old(self).line(), old(self).state()) == Ok::<
                        Option<(MergeState, Span)>,
                        Fault,
                    >(None)
                    &&& final(self).state().last_end == old(self).state().last_end
                    &&& refreshed_all(
                        old(self).patterns(),
                        old(self).line(),
                        old(self).state(),
                    ) == Ok::<_, Fault>(final(self).state().cursors)
                },
                Err(error) => step(old(self).patterns(), old(self).line(), old(self).state())
                    == Err::<Option<(MergeState, Span)>, _>(error@),
            },
    {
        match self.discard_stale() {
            Ok(()) => {},
            Err(error) => return Err(error),
        }
        let ghost fresh = *self;
        let chosen: usize = match self.best_index() {
            Some(i) => i,
            None => return Ok(None),
        };
        proof {
            let i = choose|i: int| is_best(fresh.state().cursors, i);
            lemma_best_unique(fresh.state().cursors, chosen as int, i);
        }
        assert(fresh.state().cursors[chosen as int] == fresh.cursors@[chosen as int].state());
        let (start, end) = match self.cursors[chosen].pending {
            Some(span) => span,
            None => return Ok(None),
        };
        let refilled = self.cursors[chosen].refill();
        self.last_end = end;
        proof {
            assert(patterns_of(self.cursors@) =~= patterns_of(fresh.cursors@));
            assert(states(self.cursors@) =~= states(fresh.cursors@).update(
                chosen as int,
                self.cursors@[chosen as int].state(),
            ));
        }
        match refilled {
            Ok(()) => Ok(Some((start, end))),
            Err(error) => Err(error),
        }
    }
}

/// How far a line had been searched at some time.
pub struct Snapshot {
    /// Offset and pending match of each cursor.
    cursors: Vec<(usize, Option<Span>)>,
    last_end: usize,
}

impl View for Snapshot {
    type V = MergeState;

    closed spec fn view(&self) -> MergeState {
        MergeState {
            cursors: self.cursors@.map_values(
                |cursor: (usize, Option<Span>)|
                    CursorState { offset: cursor.0, pending: cursor.1 },
            ),
            last_end: self.last_end,
        }
    }
}

impl<'a, E: Engine> MatchIter<'a, E> {
    /// There is one cursor for each pattern.
    pub proof fn lemma_one_cursor_each(&self)
        ensures
            self.state().cursors.len() == self.patterns().len(),
    {
    }

    /// Notes how far the line has been searched.
    pub fn snapshot(&self) -> (noted: Snapshot)
        ensures
            noted@ == self.state(),
    {
        let mut cursors: Vec<(usize, Option<Span>)> = Vec::with_capacity(self.cursors.len());
        let mut i: usize = 0;
        while i < self.cursors.len()
            invariant
                i <= self.cursors@.len(),
                cursors@.len() == i,
                forall|k: int|
                    0 <= k < i ==> (#[trigger] cursors@[k]) == (
                        self.cursors@[k].offset,
                        self.cursors@[k].pending,
                    ),
            decreases self.cursors@.len() - i,
        {
            cursors.push((self.cursors[i].offset, self.cursors[i].pending));
            i += 1;
        }
        let noted = Snapshot { cursors, last_end: self.last_end };
        assert(noted@.cursors =~= self.state().cursors);
        noted
    }

    /// Whether the line has been searched exactly as far as it had been then.
    pub fn is_at(&self, noted: &Snapshot) -> (same: bool)
        ensures
            same == (noted@ == self.state()),
    {
        let ghost before = noted@.cursors;
        let ghost now = self.state().cursors;
        if self.last_end != noted.last_end || self.cursors.len() != noted.cursors.len() {
            assert(before.len() != now.len() || noted@.last_end != self.state().last_end);
            return false;
        }
        let mut i: usize = 0;
        while i < self.cursors.len()
            invariant
                i <= self.cursors@.len(),
                self.cursors@.len() == noted.cursors@.len(),
                before == noted@.cursors,
                now == self.state().cursors,
                forall|k: int| 0 <= k < i ==> #[trigger] before[k] == now[k],
            decreases self.cursors@.len() - i,
        {
            let same_pending = match (self.cursors[i].pending, noted.cursors[i].1) {
                (None, None) => true,
                (Some((s, e)), Some((t, f))) => s == t && e == f,
                _ => false,
            };
            assert(before[i as int].offset == noted.cursors@[i as int].0);
            assert(before[i as int].pending == noted.cursors@[i as int].1);
            assert(now[i as int] == self.cursors@[i as int].state());
            if self.cursors[i].offset != noted.cursors[i].0 || !same_pending {
                return false;
            }
            i += 1;
        }
        assert(before =~= now);
        true
    }
}

/// Whether every pending match of `cursors` starts in a line of length `len`.
pub open spec fn start_in_line(cursors: Seq<CursorState>, len: nat) -> bool {
    forall|i: int|
        0 <= i < cursors.len() && (#[trigger] cursors[i]).pending is Some ==> (
        cursors[i].pending->0).0 <= len
}

/// [`all_or_fault`], item by item.
pub proof fn lemma_all_or_fault(items: Seq<Result<CursorState, Fault>>)
    requires
        all_or_fault(items) is Ok,
    ensures
        all_or_fault(items)->Ok_0.len() == items.len(),
        forall|i: int|
            0 <= i < items.len() ==> #[trigger] items[i] == Ok::<_, Fault>(
                all_or_fault(items)->Ok_0[i],
            ),
    decreases items.len(),
{
    if items.len() > 0 {
        lemma_all_or_fault(items.drop_last());
        let done = all_or_fault(items.drop_last())->Ok_0;
        assert forall|i: int| 0 <= i < items.len() implies #[trigger] items[i] == Ok::<_, Fault>(
            all_or_fault(items)->Ok_0[i],
        ) by {
            if i < items.len() - 1 {
                assert(items.drop_last()[i] == items[i]);
            }
        }
    }
}

/// The first searches yield matches that start in the line.
pub proof fn lemma_opened_in_line<E: Engine>(patterns: Seq<E>, line: Seq<u8>)
    requires
        opened(patterns, line) is Ok,
    ensures
        start_in_line(opened(patterns, line)->Ok_0.cursors, line.len()),
{
    let items = Seq::new(patterns.len(), |i: int| searched(patterns[i], line, 0));
    lemma_all_or_fault(items);
    let cursors = all_or_fault(items)->Ok_0;
    assert forall|i: int|
        0 <= i < cursors.len() && (#[trigger] cursors[i]).pending is Some implies (
    cursors[i].pending->0).0 <= line.len() by {
        assert(items[i] == Ok::<_, Fault>(cursors[i]));
    }
}

/// The matches listed start in the line.
pub proof fn lemma_step_in_line<E: Engine>(patterns: Seq<E>, line: Seq<u8>, state: MergeState)
    requires
        start_in_line(state.cursors, line.len()),
        step(patterns, line, state) is Ok,
        step(patterns, line, state)->Ok_0 is Some,
    ensures
        ({
            let (next, span) = step(patterns, line, state)->Ok_0->0;
            start_in_line(next.cursors, line.len()) && span.0 <= line.len()
        }),
{
    let items = refreshed_each(patterns, line, state);
    lemma_all_or_fault(items);
    let fresh = all_or_fault(items)->Ok_0;
    assert(start_in_line(fresh, line.len())) by {
        assert forall|i: int|
            0 <= i < fresh.len() && (#[trigger] fresh[i]).pending is Some implies (
        fresh[i].pending->0).0 <= line.len() by {
            assert(items[i] == Ok::<_, Fault>(fresh[i]));
        }
    }
}

} // verus!
