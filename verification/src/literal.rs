//! Patterns that stand for nothing but themselves.

use crate::config::RegexMode;
use vstd::prelude::*;
use vstd::string::*;
use vstd::utf8::*;

verus! {

/// Whether `c` carries special meaning in any of the regex syntaxes.
pub open spec fn is_special(c: char) -> bool {
    ||| c == '.' || c == '*' || c == '[' || c == ']' || c == '^' || c == '$' || c == '\\'
    ||| c == '+' || c == '?' || c == '{' || c == '}' || c == '(' || c == ')' || c == '|'
}

/// Whether a byte-for-byte search for `pattern` is equivalent to matching it:
/// the case counts, the pattern is ASCII and not empty, and none of its
/// characters is special, or all of them are literal anyway.
pub open spec fn is_plain(pattern: Seq<char>, ignore_case: bool, mode: RegexMode) -> bool {
    &&& !ignore_case
    &&& pattern.len() > 0
    &&& is_ascii_chars(pattern)
    &&& mode == RegexMode::Fixed || forall|i: int|
        0 <= i < pattern.len() ==> !is_special(#[trigger] pattern[i])
}

/// The characters that some regex syntax reads as more than themselves.
proof fn lemma_special(c: char)
    ensures
        is_special(c) <==> ".*[]^$\\+?{}()|"@.contains(c),
{
    reveal_strlit(".*[]^$\\+?{}()|");
    let signs = ".*[]^$\\+?{}()|"@;
    assert(signs.len() == 14);
    assert(signs[0] == '.' && signs[1] == '*' && signs[2] == '[' && signs[3] == ']');
    assert(signs[4] == '^' && signs[5] == '$' && signs[6] == '\\' && signs[7] == '+');
    assert(signs[8] == '?' && signs[9] == '{' && signs[10] == '}' && signs[11] == '(');
    assert(signs[12] == ')' && signs[13] == '|');
    if signs.contains(c) {
        let i = choose|i: int| 0 <= i < signs.len() && signs[i] == c;
        assert(is_special(signs[i]));
    }
}

/// No character is below NUL.
proof fn lemma_lowest(c: char)
    ensures
        '\0' <= c,
{
}

/// Whether a pattern is plain shows in its characters: the case counts, it is not
/// empty, all of them are ASCII, and outside the fixed mode none is one of the
/// signs that some regex syntax reads as more than themselves.
pub proof fn law_plain_text(pattern: Seq<char>, ignore_case: bool, mode: RegexMode)
    ensures
        is_plain(pattern, ignore_case, mode) <==> {
            &&& !ignore_case
            &&& pattern.len() > 0
            &&& forall|i: int| 0 <= i < pattern.len() ==> #[trigger] pattern[i] <= '\u{7f}'
            &&& mode == RegexMode::Fixed || forall|i: int|
                0 <= i < pattern.len() ==> !".*[]^$\\+?{}()|"@.contains(#[trigger] pattern[i])
        },
{
    assert forall|i: int| 0 <= i < pattern.len() implies (is_special(pattern[i])
        <==> ".*[]^$\\+?{}()|"@.contains(#[trigger] pattern[i])) && '\0' <= pattern[i] by {
        lemma_special(pattern[i]);
        lemma_lowest(pattern[i]);
    }
    assert(forall|i: int| 0 <= i < pattern.len() ==> '\0' <= #[trigger] pattern[i]);
}

/// Whether `byte` is the code of a character with special meaning.
fn is_special_byte(byte: u8) -> (special: bool)
    ensures
        special == is_special(byte as char),
{
    match byte as char {
        '.' | '*' | '[' | ']' | '^' | '$' | '\\' | '+' | '?' | '{' | '}' | '(' | ')' | '|' => true,
        _ => false,
    }
}

/// Returns the literal bytes of `pattern` when a raw byte-for-byte substring
/// search is exactly equivalent to matching it, otherwise `None`.
///
/// Only ASCII, case-sensitive needles are accepted. That keeps the byte search
/// in agreement with the regex engine on every possible input, including bytes
/// that are not valid UTF-8: an ASCII byte can never be part of a multi-byte
/// sequence, so its presence is unambiguous. In the regex modes no byte may be one
/// that could act as a metacharacter; in the fixed mode the text is literal as it
/// is.
pub fn plain_literal(pattern: &str, ignore_case: bool, mode: RegexMode) -> (literal: Option<
    Vec<u8>,
>)
    ensures
        match literal {
            Some(bytes) => is_plain(pattern@, ignore_case, mode) && bytes@ == encode_utf8(pattern@),
            None => !is_plain(pattern@, ignore_case, mode),
        },
        literal is Some <==> {
            &&& !ignore_case
            &&& pattern@.len() > 0
            &&& forall|i: int| 0 <= i < pattern@.len() ==> #[trigger] pattern@[i] <= '\u{7f}'
            &&& mode == RegexMode::Fixed || forall|i: int|
                0 <= i < pattern@.len() ==> !".*[]^$\\+?{}()|"@.contains(#[trigger] pattern@[i])
        },
        literal matches Some(bytes) ==> bytes@ == Seq::new(
            pattern@.len(),
            |k: int| pattern@[k] as u8,
        ),
{
    proof {
        law_plain_text(pattern@, ignore_case, mode);
    }
    if ignore_case || pattern.is_empty() || !pattern.is_ascii() {
        return None;
    }
    let bytes = pattern.as_bytes();
    proof {
        is_ascii_chars_encode_utf8(pattern@);
    }
    if mode != RegexMode::Fixed {
        let mut i: usize = 0;
        while i < bytes.len()
            invariant
                i <= bytes@.len(),
                bytes@ == Seq::new(pattern@.len(), |k: int| pattern@[k] as u8),
                is_ascii_chars(pattern@),
                mode != RegexMode::Fixed,
                forall|k: int| 0 <= k < i ==> !is_special(#[trigger] pattern@[k]),
            decreases bytes@.len() - i,
        {
            if is_special_byte(bytes[i]) {
                proof {
                    law_plain_text(pattern@, ignore_case, mode);
                }
                return None;
            }
            i += 1;
        }
    }
    Some(vstd::slice::slice_to_vec(bytes))
}

} // verus!
