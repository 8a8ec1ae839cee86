//! How many states a merge can be in: a line has only so many positions.

use crate::merge::{CursorState, MergeState};
use vstd::arithmetic::div_mod::lemma_fundamental_div_mod_converse;
use vstd::prelude::*;
use vstd::set_lib::{lemma_int_range, lemma_len_subset, set_int_range};

verus! {

/// The number of positions.
spec fn positions() -> int {
    usize::MAX + 1
}

/// The number of spans, and one for no span.
spec fn pending_count() -> int {
    positions() * positions() + 1
}

/// The number of states of one cursor.
spec fn cursor_count() -> int {
    positions() * pending_count()
}

/// A number for each pending match.
spec fn pending_code(cursor: CursorState) -> int {
    match cursor.pending {
        None => 0,
        Some(span) => span.0 * positions() + span.1 + 1,
    }
}

/// A number for each state of one cursor.
spec fn cursor_code(cursor: CursorState) -> int {
    cursor.offset * pending_count() + pending_code(cursor)
}

/// A number for each state of several cursors.
spec fn code(cursors: Seq<CursorState>) -> int
    decreases cursors.len(),
{
    if cursors.len() == 0 {
        0
    } else {
        code(cursors.drop_last()) * cursor_count() + cursor_code(cursors.last())
    }
}

/// The number of states of `len` cursors.
spec fn code_count(len: nat) -> int
    decreases len,
{
    if len == 0 {
        1
    } else {
        code_count((len - 1) as nat) * cursor_count()
    }
}

/// A number for each state of a merge.
spec fn state_code(state: MergeState) -> int {
    code(state.cursors) * positions() + state.last_end
}

/// The number of states of a merge of `len` patterns.
pub closed spec fn state_count(len: nat) -> int {
    code_count(len) * positions()
}

/// Two digits can be read off their number.
proof fn lemma_digits(high: int, low: int, other_high: int, other_low: int, base: int)
    requires
        0 <= low < base,
        0 <= other_low < base,
        high * base + low == other_high * base + other_low,
    ensures
        high == other_high,
        low == other_low,
{
    lemma_fundamental_div_mod_converse(high * base + low, base, high, low);
    lemma_fundamental_div_mod_converse(high * base + low, base, other_high, other_low);
}

/// A number of two digits is below the product of their bases.
proof fn lemma_two_digits(high: int, high_base: int, low: int, low_base: int)
    requires
        0 <= high < high_base,
        0 <= low < low_base,
    ensures
        0 <= high * low_base + low < high_base * low_base,
{
    assert(0 <= high * low_base + low < high_base * low_base) by (nonlinear_arith)
        requires
            0 <= high < high_base,
            0 <= low < low_base,
    ;
}

proof fn lemma_cursor_code(cursor: CursorState)
    ensures
        0 <= pending_code(cursor) < pending_count(),
        0 <= cursor_code(cursor) < cursor_count(),
{
    lemma_two_digits(0, positions(), 0, positions());
    if let Some(span) = cursor.pending {
        lemma_two_digits(span.0 as int, positions(), span.1 as int, positions());
    }
    lemma_two_digits(cursor.offset as int, positions(), pending_code(cursor), pending_count());
}

proof fn lemma_cursor_code_injective(a: CursorState, b: CursorState)
    requires
        cursor_code(a) == cursor_code(b),
    ensures
        a == b,
{
    lemma_cursor_code(a);
    lemma_cursor_code(b);
    lemma_digits(
        a.offset as int,
        pending_code(a),
        b.offset as int,
        pending_code(b),
        pending_count(),
    );
    if let Some(span) = a.pending {
        lemma_two_digits(span.0 as int, positions(), span.1 as int, positions());
    }
    if let Some(span) = b.pending {
        lemma_two_digits(span.0 as int, positions(), span.1 as int, positions());
    }
    if a.pending is Some && b.pending is Some {
        let (s, t) = (a.pending->0, b.pending->0);
        lemma_digits(s.0 as int, s.1 as int, t.0 as int, t.1 as int, positions());
    }
}

proof fn lemma_code(cursors: Seq<CursorState>)
    ensures
        0 <= code(cursors) < code_count(cursors.len()),
    decreases cursors.len(),
{
    if cursors.len() > 0 {
        let head = cursors.drop_last();
        lemma_code(head);
        lemma_cursor_code(cursors.last());
        lemma_two_digits(
            code(head),
            code_count(head.len()),
            cursor_code(cursors.last()),
            cursor_count(),
        );
    }
}

proof fn lemma_code_injective(a: Seq<CursorState>, b: Seq<CursorState>)
    requires
        a.len() == b.len(),
        code(a) == code(b),
    ensures
        a == b,
    decreases a.len(),
{
    if a.len() > 0 {
        lemma_cursor_code(a.last());
        lemma_cursor_code(b.last());
        lemma_digits(
            code(a.drop_last()),
            cursor_code(a.last()),
            code(b.drop_last()),
            cursor_code(b.last()),
            cursor_count(),
        );
        lemma_code_injective(a.drop_last(), b.drop_last());
        lemma_cursor_code_injective(a.last(), b.last());
        assert(a =~= a.drop_last().push(a.last()));
        assert(b =~= b.drop_last().push(b.last()));
    } else {
        assert(a =~= b);
    }
}

/// States of a merge of `len` patterns that all differ are at most
/// [`state_count`] many.
pub proof fn lemma_states_are_few(states: Seq<MergeState>, len: nat)
    requires
        states.no_duplicates(),
        forall|i: int| 0 <= i < states.len() ==> (#[trigger] states[i]).cursors.len() == len,
    ensures
        states.len() <= state_count(len),
{
    let codes = states.map_values(|state: MergeState| state_code(state));
    let all = set_int_range(0, state_count(len));
    assert forall|i: int| 0 <= i < codes.len() implies 0 <= #[trigger] codes[i] < state_count(
        len,
    ) by {
        assert(states[i].cursors.len() == len);
        lemma_code(states[i].cursors);
        lemma_two_digits(
            code(states[i].cursors),
            code_count(len),
            states[i].last_end as int,
            positions(),
        );
    }
    assert(codes.no_duplicates()) by {
        assert forall|i: int, j: int|
            0 <= i < codes.len() && 0 <= j < codes.len() && i != j implies codes[i] != codes[j] by {
            let (a, b) = (states[i], states[j]);
            if state_code(a) == state_code(b) {
                lemma_digits(
                    code(a.cursors),
                    a.last_end as int,
                    code(b.cursors),
                    b.last_end as int,
                    positions(),
                );
                lemma_code_injective(a.cursors, b.cursors);
            }
        }
    }
    codes.unique_seq_to_set();
    if states.len() > 0 {
        assert(0 <= codes[0] < state_count(len));
        lemma_int_range(0, state_count(len));
        assert(codes.to_set().subset_of(all));
        lemma_len_subset(codes.to_set(), all);
    } else {
        lemma_code(Seq::new(len, |i: int| CursorState { offset: 0, pending: None }));
        lemma_two_digits(0, code_count(len), 0, positions());
    }
}

} // verus!
