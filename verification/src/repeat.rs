//! Repeat operators at the start of an extended regular expression, where there
//! is nothing to repeat. They are dropped, with a warning.

use vstd::prelude::*;
use vstd::string::*;
use vstd::utf8::*;

verus! {

/// Whether `c` is an ASCII digit.
pub open spec fn is_digit(c: char) -> bool {
    '0' <= c <= '9'
}

/// Whether a brace interval such as `{2,3}`, whose opening brace is the first
/// character of `pattern`, is closed by the brace at `close`: nothing but digits
/// and commas between them, and one digit at least.
pub open spec fn is_interval(pattern: Seq<char>, close: int) -> bool {
    &&& 0 < close < pattern.len()
    &&& pattern[close] == '}'
    &&& forall|i: int| 0 < i < close ==> is_digit(#[trigger] pattern[i]) || pattern[i] == ','
    &&& exists|i: int| 0 < i < close && is_digit(#[trigger] pattern[i])
}

/// What follows the brace interval that the first character of `pattern` opens;
/// `None` where it opens none.
pub open spec fn after_interval(pattern: Seq<char>) -> Option<Seq<char>> {
    if exists|close: int| is_interval(pattern, close) {
        Some(pattern.skip((choose|close: int| is_interval(pattern, close)) + 1))
    } else {
        None
    }
}

/// The repeat operator at the start of `pattern`, as warnings name it, and what
/// follows it; `None` where `pattern` does not start with one.
pub open spec fn leading_repeat(pattern: Seq<char>) -> Option<(Seq<char>, Seq<char>)> {
    if pattern.len() == 0 {
        None
    } else if pattern[0] == '?' {
        Some(("?"@, pattern.skip(1)))
    } else if pattern[0] == '*' {
        Some(("*"@, pattern.skip(1)))
    } else if pattern[0] == '+' {
        Some(("+"@, pattern.skip(1)))
    } else if pattern[0] == '{' {
        match after_interval(pattern) {
            Some(rest) => Some(("{...}"@, rest)),
            None => None,
        }
    } else {
        None
    }
}

/// A pattern starts with at most one brace interval.
proof fn lemma_interval_unique(pattern: Seq<char>, close: int)
    requires
        is_interval(pattern, close),
    ensures
        after_interval(pattern) == Some(pattern.skip(close + 1)),
{
    let other = choose|i: int| is_interval(pattern, i);
    assert(is_interval(pattern, other));
    assert(pattern[other] == '}' && pattern[close] == '}');
}

/// Splits the brace interval off the start of `pattern`, whose first character
/// opens it: one that is itself a closing brace, or not ASCII where a closing
/// brace follows, cannot.
pub fn strip_leading_interval_repeat(pattern: &str) -> (rest: Option<&str>)
    requires
        pattern@.contains('}') ==> pattern@[0] != '}' && is_ascii_chars(pattern@.take(1)),
    ensures
        match rest {
            Some(rest) => after_interval(pattern@) == Some(rest@),
            None => after_interval(pattern@) is None,
        },
{
    let len = pattern.unicode_len();
    if len == 0 {
        return None;
    }
    let mut digits = false;
    let mut i: usize = 1;
    while i < len
        invariant
            1 <= i <= len,
            len == pattern@.len(),
            forall|k: int| 0 < k < i ==> is_digit(#[trigger] pattern@[k]) || pattern@[k] == ',',
            digits == exists|k: int| 0 < k < i && is_digit(#[trigger] pattern@[k]),
        decreases len - i,
    {
        let c = pattern.get_char(i);
        if c == '}' {
            if digits {
                proof {
                    lemma_interval_unique(pattern@, i as int);
                }
                return Some(pattern.substring_char(i + 1, len));
            }
            assert forall|close: int| !is_interval(pattern@, close) by {
                if is_interval(pattern@, close) {
                    assert(pattern@[close] == '}' && pattern@[i as int] == '}');
                }
            }
            return None;
        }
        let digit = '0' <= c && c <= '9';
        if !digit && c != ',' {
            assert forall|close: int| !is_interval(pattern@, close) by {
                if is_interval(pattern@, close) {
                    assert(pattern@[close] == '}' && pattern@[i as int] == c);
                }
            }
            return None;
        }
        if digit {
            assert(is_digit(pattern@[i as int]));
            digits = true;
        }
        i += 1;
    }
    assert forall|close: int| !is_interval(pattern@, close) by {
        if is_interval(pattern@, close) {
            assert(pattern@[close] == '}');
        }
    }
    None
}

/// Splits the repeat operator off the start of `pattern`: the operator, as
/// warnings name it, and the rest of the pattern.
pub fn strip_leading_repeat_operator(pattern: &str) -> (split: Option<(&'static str, &str)>)
    ensures
        match split {
            Some((operator, rest)) => leading_repeat(pattern@) == Some((operator@, rest@)),
            None => leading_repeat(pattern@) is None,
        },
{
    let len = pattern.unicode_len();
    if len == 0 {
        return None;
    }
    match pattern.get_char(0) {
        '?' => Some(("?", pattern.substring_char(1, len))),
        '*' => Some(("*", pattern.substring_char(1, len))),
        '+' => Some(("+", pattern.substring_char(1, len))),
        '{' => match strip_leading_interval_repeat(pattern) {
            Some(rest) => Some(("{...}", rest)),
            None => None,
        },
        _ => None,
    }
}

} // verus!
