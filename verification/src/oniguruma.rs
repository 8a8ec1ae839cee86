//! Regular expressions by the `onig` crate, the binding to Oniguruma.
//!
//! The functions of `onig` that are called here are trusted: what is said of
//! their results is not proved. Most of it is that a result depends on the given
//! values alone. It does as long as memory lasts and nothing changes the limits
//! on parsing and matching that Oniguruma keeps for the whole process, which no
//! function of `onig` does. What else of the process counts when a regex is
//! compiled has a place of its own, in [`RegexSource`].

use crate::engine::{found, Found, Span};
use crate::error::EngineError;
use crate::finder::{first_occurrence, occurs_at};
use crate::literal::is_special;
use onig::{
    EncodedBytes, EncodedChars, MatchParam, Regex, RegexOptions, Region, SearchOptions, Syntax,
    SyntaxBehavior, SyntaxOperator,
};
use vstd::prelude::*;
use vstd::utf8::*;

verus! {

/// Operator bit: `` \` `` and `\'` are buffer anchors.
pub const ESC_GNU_BUF_ANCHOR: u64 = 0x0000_8000_0000_0000;

/// Operator bit: `(?P<name>...)` is a named group.
pub const QMARK_CAPITAL_P_NAME: u64 = 0x8000_0000_0000_0000;

/// Behavior bit: `{,n}` is read as `{0,n}`.
pub const ALLOW_INTERVAL_LOW_ABBREV: u32 = 16;

/// Option bit: letters match whatever their case.
pub const OPTION_IGNORECASE: u32 = 1;

/// Option bit: `.` matches a newline.
pub const OPTION_MULTILINE: u32 = 4;

/// Option bit: of all matches the longest is taken.
pub const OPTION_FIND_LONGEST: u32 = 16;

/// How many zero bytes stand behind a line that ends within a character.
/// Oniguruma takes such a character to be as long as its first byte announces,
/// and reads up to four bytes behind the end of the line.
pub const PADDING: usize = 8;

/// The longest line that Oniguruma is asked to search. It counts positions, some
/// of them a few bytes behind the end of the line, in a C `int`.
pub const MAX_LINE: usize = 0x7fff_fff0;

/// Makes `onig::Regex` known to the verifier, as an opaque type.
#[verifier::external_type_specification]
#[verifier::external_body]
pub struct ExRegex(onig::Regex);

/// The syntaxes of Oniguruma that a pattern may start from.
#[derive(Clone, Copy, Debug, PartialEq, Eq, Structural)]
pub enum BaseSyntax {
    /// Plain text: no character is special.
    AsIs,
    /// The syntax of `grep`.
    Grep,
    /// The syntax of GNU regex, that of `egrep`.
    GnuRegex,
    /// Perl with named groups.
    PerlNg,
}

/// How Oniguruma is to read a pattern: a base syntax, the operators and
/// behaviors switched on over it, and the compile options, each a set of bits.
#[derive(Clone, Copy, Debug, PartialEq, Eq, Structural)]
pub struct RegexSetup {
    pub syntax: BaseSyntax,
    pub operators: u64,
    pub behaviors: u32,
    pub options: u32,
}

/// Everything that a compiled regex depends on.
pub ghost struct RegexSource {
    /// The text of the pattern.
    pub pattern: Seq<char>,
    /// How the text is read.
    pub setup: RegexSetup,
    /// A number for what the process had to say at the time of the compilation:
    /// its default flags for case folding, and the character properties that
    /// `onig::define_user_property` had defined in it.
    pub process: int,
}

/// Whether `setup` is of the POSIX kind: the syntax has neither options within the
/// pattern, nor named character properties, nor look-behind, nor `\K`.
pub open spec fn is_posix(setup: RegexSetup) -> bool {
    &&& setup.syntax != BaseSyntax::PerlNg
    &&& setup.operators == 0 || setup.operators == ESC_GNU_BUF_ANCHOR
    &&& setup.behaviors == 0 || setup.behaviors == ALLOW_INTERVAL_LOW_ABBREV
}

/// Whether the state of the process can count when a pattern is compiled with
/// `setup`. It cannot in a syntax of the POSIX kind where the case counts.
pub open spec fn heeds_process(setup: RegexSetup) -> bool {
    !({
        &&& is_posix(setup)
        &&& setup.options == 0 || setup.options == OPTION_MULTILINE || setup.options
            == OPTION_FIND_LONGEST || setup.options == OPTION_MULTILINE + OPTION_FIND_LONGEST
    })
}

/// Whether `process` may stand for the state of the process when a pattern is
/// compiled with `setup`: any number where that state counts, and zero where it
/// does not.
pub open spec fn is_process(setup: RegexSetup, process: int) -> bool {
    heeds_process(setup) || process == 0
}

/// What a compiled regex was compiled from.
pub uninterp spec fn regex_source(regex: Regex) -> RegexSource;

/// The error, number and text, with which Oniguruma refuses to compile
/// `source`; `None` where it accepts it.
pub uninterp spec fn onig_rejection(source: RegexSource) -> Option<(i32, Seq<char>)>;

/// What Oniguruma answers to a forward search in `line` from `from` to its end,
/// where zero bytes follow the line if it ends within a character.
pub uninterp spec fn onig_search(source: RegexSource, line: Seq<u8>, from: usize) -> Found;

/// What Oniguruma answers to a match in `line` anchored at `at`, where zero bytes
/// follow the line if it ends within a character.
pub uninterp spec fn onig_match(source: RegexSource, line: Seq<u8>, at: usize) -> Found;

/// Whether Oniguruma takes the character that starts at `at` in `line` for a
/// word character.
pub uninterp spec fn onig_is_word(line: Seq<u8>, at: usize) -> bool;

/// Whether `source` reads as plain text: ASCII characters in the case in which
/// they are written, none of which the syntax can take for an operator, and no
/// more of them than Oniguruma can count.
pub open spec fn is_text(source: RegexSource) -> bool {
    let setup = source.setup;
    &&& 0 < source.pattern.len() <= i32::MAX
    &&& is_ascii_chars(source.pattern)
    &&& if setup.syntax == BaseSyntax::AsIs {
        setup.operators == 0 && setup.behaviors == 0
    } else {
        &&& setup.operators == ESC_GNU_BUF_ANCHOR || setup.operators == QMARK_CAPITAL_P_NAME
        &&& setup.behaviors == ALLOW_INTERVAL_LOW_ABBREV
        &&& forall|i: int| 0 <= i < source.pattern.len() ==> !is_special(#[trigger] source.pattern[i])
    }
}

/// The length of a character whose first byte is `byte`, as that byte has it.
pub open spec fn announced_len(byte: u8) -> int {
    if 0xc0 <= byte < 0xe0 {
        2
    } else if 0xe0 <= byte < 0xf0 {
        3
    } else if 0xf0 <= byte < 0xf5 {
        4
    } else {
        1
    }
}

/// Whether `line` ends within a character: one of its bytes announces a character
/// that is longer than what is left of the line.
pub open spec fn runs_over(line: Seq<u8>) -> bool {
    exists|i: int| 0 <= i < line.len() && i + announced_len(#[trigger] line[i]) > line.len()
}

/// Whether a line that is the first `len` bytes of `buffer` can be handed to
/// Oniguruma there: zero bytes follow it if it ends within a character.
pub open spec fn is_padded(buffer: Seq<u8>, len: usize) -> bool {
    &&& len <= buffer.len()
    &&& len <= MAX_LINE
    &&& runs_over(buffer.take(len as int)) ==> {
        &&& len + PADDING <= buffer.len()
        &&& forall|i: int| len <= i < len + PADDING ==> #[trigger] buffer[i] == 0
    }
}

/// Whether `c` is one of the control characters that Oniguruma takes to be rare
/// in a text: all but NUL, tab, line feed and carriage return.
pub open spec fn is_rare(c: char) -> bool {
    ||| '\u{1}' <= c <= '\u{8}'
    ||| c == '\u{b}' || c == '\u{c}'
    ||| '\u{e}' <= c <= '\u{1f}'
    ||| c == '\u{7f}'
}

/// Whether Oniguruma looks for the plain text `pattern` byte by byte. It looks
/// for a short one that starts with a rare character by that character alone,
/// and steps through the line from character to character: there it may step
/// over a byte that a truncated character before it claims.
pub open spec fn found_by_bytes(pattern: Seq<char>) -> bool {
    pattern.len() > 3 || pattern.len() > 0 && !is_rare(pattern[0])
}

/// Whether a search for `source` is a search for the bytes of its pattern.
pub open spec fn searches_for_text(source: RegexSource) -> bool {
    forall|line: Seq<u8>, from: usize|
        from <= line.len() && line.len() <= MAX_LINE ==> #[trigger] onig_search(source, line, from)
            == Ok::<Option<Span>, (i32, Seq<char>)>(
            match first_occurrence(line, encode_utf8(source.pattern), from) {
                Some(at) => Some(
                    (at as usize, (at + encode_utf8(source.pattern).len()) as usize),
                ),
                None => None,
            },
        )
}

/// Whether a match of `source` at a place of a line is a comparison with the
/// bytes of its pattern.
pub open spec fn matches_text(source: RegexSource) -> bool {
    forall|line: Seq<u8>, at: usize|
        at <= line.len() && line.len() <= MAX_LINE ==> #[trigger] onig_match(source, line, at)
            == Ok::<Option<Span>, (i32, Seq<char>)>(
            if occurs_at(line, encode_utf8(source.pattern), at as int) {
                Some((at, (at + encode_utf8(source.pattern).len()) as usize))
            } else {
                None
            },
        )
}

/// Whether a match of `source` neither starts before the place where it is
/// searched for or anchored, nor ends before it.
pub open spec fn stays_ahead(source: RegexSource) -> bool {
    &&& forall|line: Seq<u8>, from: usize|
        from <= line.len() && line.len() <= MAX_LINE ==> (#[trigger] onig_search(
            source,
            line,
            from,
        ) matches Ok(Some(span)) ==> from <= span.0 <= span.1 && span.0 < usize::MAX)
    &&& forall|line: Seq<u8>, at: usize|
        at <= line.len() && line.len() <= MAX_LINE ==> (#[trigger] onig_match(
            source,
            line,
            at,
        ) matches Ok(Some(span)) ==> at <= span.1)
}

/// `onig::Regex::with_options`, with the syntax of `onig::Syntax` that `setup`
/// names, after `enable_behavior` and `enable_operators` on it: compiles
/// `pattern`, in UTF-8.
///
/// Whether it succeeds, and with what error it fails, depends on the pattern, the
/// setup and the state of the process, and on the first two alone where
/// [`heeds_process`] says so. What the state of the process is is left unsaid:
/// `onig` offers no way to give or to read the flags for case folding. Where
/// Oniguruma cuts its text in the middle of a character of a name that it quotes,
/// `onig` answers with a text of its own and the number -1.
///
/// A plain text in its own case is matched as the bytes that it consists of, and
/// searched for as such if [`found_by_bytes`] says so. Of searches for other
/// plain texts nothing of the kind is claimed.
///
/// In a syntax of the POSIX kind, where there is no `\K` and no look-behind, a match
/// starts at the place where it was found or anchored and goes on from there.
#[verifier::external_body]
pub(crate) fn compile_regex(pattern: &str, setup: RegexSetup) -> (compiled: Result<
    Regex,
    EngineError,
>)
    ensures
        match compiled {
            Ok(regex) => {
                let source = regex_source(regex);
                &&& source.pattern == pattern@
                &&& source.setup == setup
                &&& is_process(setup, source.process)
                &&& onig_rejection(source) is None
                &&& is_posix(setup) ==> stays_ahead(source)
                &&& is_text(source) && found_by_bytes(source.pattern) && (setup.options == 0
                    || setup.options == OPTION_MULTILINE) ==> searches_for_text(source)
                &&& is_text(source) && (setup.options == OPTION_FIND_LONGEST || setup.options
                    == OPTION_MULTILINE + OPTION_FIND_LONGEST) ==> matches_text(source)
            },
            Err(error) => exists|process: int|
                is_process(setup, process) && #[trigger] onig_rejection(
                    RegexSource { pattern: pattern@, setup, process },
                ) == Some(error@),
        },
{
    let mut syntax = *match setup.syntax {
        BaseSyntax::AsIs => Syntax::asis(),
        BaseSyntax::Grep => Syntax::grep(),
        BaseSyntax::GnuRegex => Syntax::gnu_regex(),
        BaseSyntax::PerlNg => Syntax::perl_ng(),
    };
    syntax.enable_behavior(SyntaxBehavior::from_bits_retain(setup.behaviors));
    syntax.enable_operators(SyntaxOperator::from_bits_retain(setup.operators));
    Regex::with_options(pattern, RegexOptions::from_bits_retain(setup.options), &syntax)
        .map_err(|e| EngineError { code: e.code(), message: e.description().to_string() })
}

/// `onig::Regex::search_with_param`, forward over the first `len` bytes of
/// `buffer` as UTF-8, from `from` to the end, and `onig::Region::pos` for the
/// span of the match: the span, `None` where there is no match, or the error of
/// Oniguruma. The answer depends on the regex, the line and the place.
///
/// Where the line ends within a character, Oniguruma goes on reading behind it,
/// so that the zero bytes there are part of what the answer depends on. Elsewhere
/// no byte behind the line has a part in it.
///
/// A span never starts at `usize::MAX`, the value that marks a group without a
/// match. That it starts at or behind `from` and ends in the line is not
/// claimed: `\K` in a look-behind moves the start before `from`, and a truncated
/// character at the end of the line may be matched in the length that it
/// announces.
#[verifier::external_body]
pub(crate) fn search(regex: &Regex, buffer: &[u8], len: usize, from: usize) -> (outcome: Result<
    Option<Span>,
    EngineError,
>)
    requires
        is_padded(buffer@, len),
        from <= len,
    ensures
        found(outcome) == onig_search(regex_source(*regex), buffer@.take(len as int), from),
        outcome matches Ok(Some(span)) ==> span.0 < usize::MAX,
{
    let chars = EncodedBytes::from_parts(&buffer[..len], "".encoding());
    let (none, param) = (SearchOptions::SEARCH_OPTION_NONE, MatchParam::default());
    let mut region = Region::new();
    regex
        .search_with_param(chars, from, len, none, Some(&mut region), param)
        .map(|hit| hit.and_then(|_| region.pos(0)))
        .map_err(|e| EngineError { code: e.code(), message: e.description().to_string() })
}

/// `onig::Regex::match_with_param` on the first `len` bytes of `buffer` as UTF-8,
/// anchored at `at`, and `onig::Region::pos` for the span of the match: the span,
/// `None` where the regex does not match there, or the error of Oniguruma. The
/// answer depends on the regex, the line and the place, and, where the line ends
/// within a character, on the zero bytes behind it.
#[verifier::external_body]
pub(crate) fn match_at(regex: &Regex, buffer: &[u8], len: usize, at: usize) -> (outcome: Result<
    Option<Span>,
    EngineError,
>)
    requires
        is_padded(buffer@, len),
        at <= len,
    ensures
        found(outcome) == onig_match(regex_source(*regex), buffer@.take(len as int), at),
{
    let chars = EncodedBytes::from_parts(&buffer[..len], "".encoding());
    let (none, param) = (SearchOptions::SEARCH_OPTION_NONE, MatchParam::default());
    let mut region = Region::new();
    regex
        .match_with_param(chars, at, none, Some(&mut region), param)
        .map(|_| region.pos(0))
        .map_err(|e| EngineError { code: e.code(), message: e.description().to_string() })
}

/// `onig::Regex::match_with_param` of the regex `\w` on the bytes of `line` as
/// UTF-8, anchored at `at`: whether the character that starts there is a word
/// character by Oniguruma's tables. The answer depends on the line and the
/// place. A truncated character at the end of the line is judged by the bytes
/// that are there.
#[verifier::external_body]
pub(crate) fn is_word_at(line: &[u8], at: usize) -> (word: bool)
    requires
        at < line@.len(),
    ensures
        word == onig_is_word(line@, at),
{
    let chars = EncodedBytes::from_parts(line, "".encoding());
    let (none, param) = (SearchOptions::SEARCH_OPTION_NONE, MatchParam::default());
    Regex::with_options("\\w", RegexOptions::REGEX_OPTION_NONE, Syntax::ruby())
        .and_then(|word| word.match_with_param(chars, at, none, None, param))
        .is_ok_and(|hit| hit.is_some())
}

} // verus!
