//! Pattern matching backed by the Oniguruma regex engine.

use crate::config::{Config, RegexMode};
use crate::engine::{found, Engine, Found, Span};
use crate::error::{CompileError, EngineError};
use crate::literal::is_plain;
use crate::literal_engine;
use crate::oniguruma::{
    announced_len, compile_regex, found_by_bytes, heeds_process, is_padded, is_process, is_text,
    is_word_at, match_at, matches_text, onig_is_word, onig_match, onig_rejection, onig_search,
    regex_source, runs_over, search, searches_for_text, stays_ahead, BaseSyntax, RegexSetup,
    RegexSource,
    ALLOW_INTERVAL_LOW_ABBREV, ESC_GNU_BUF_ANCHOR, MAX_LINE, OPTION_FIND_LONGEST,
    OPTION_IGNORECASE, OPTION_MULTILINE, PADDING, QMARK_CAPITAL_P_NAME,
};
use crate::repeat::{leading_repeat, strip_leading_repeat_operator};
use vstd::prelude::*;
use vstd::slice::slice_to_vec;
use vstd::string::*;
use vstd::utf8::*;

verus! {

/// The error of a character range with its ends in the wrong order.
pub const EMPTY_RANGE_IN_CHAR_CLASS: i32 = -203;

/// Whether `byte` can be the first of a character: it is no UTF-8 continuation
/// byte.
pub open spec fn is_lead(byte: u8) -> bool {
    !(0x80 <= byte < 0xc0)
}

/// Where the character that covers position `at` of `line` starts: at the
/// nearest byte before it, or there, that can be the first of a character, and
/// at the start of the line if there is none.
pub open spec fn char_head(line: Seq<u8>, at: int) -> int
    decreases at,
{
    if at <= 0 || is_lead(line[at]) {
        at
    } else {
        char_head(line, at - 1)
    }
}

/// Whether no word character touches the span from `start` to `end`.
pub open spec fn no_word_beside(line: Seq<u8>, start: usize, end: usize) -> bool {
    &&& !(end < line.len() && onig_is_word(line, end))
    &&& !(start > 0 && onig_is_word(line, char_head(line, start - 1) as usize))
}

/// Finds the start of the character that covers position `at` of `line`.
pub fn left_adjust_char_head(line: &[u8], at: usize) -> (head: usize)
    requires
        at < line@.len(),
    ensures
        head <= at,
        head == char_head(line@, at as int),
        head == 0 || line@[head as int] < 0x80 || line@[head as int] > 0xbf,
        forall|i: int| head < i <= at ==> 0x80 <= #[trigger] line@[i] <= 0xbf,
{
    let mut head = at;
    while head > 0 && 0x80 <= line[head] && line[head] < 0xc0
        invariant
            head <= at < line@.len(),
            forall|i: int| head < i <= at ==> 0x80 <= #[trigger] line@[i] <= 0xbf,
            char_head(line@, head as int) == char_head(line@, at as int),
        decreases head,
    {
        head -= 1;
    }
    head
}

/// The word-boundary check of `-w`. It asks of the characters beside the match
/// alone: a match that begins or ends with a non-word character may have one
/// beside it, unlike with `\b` in a regex. Start and end of the line count as
/// non-words.
pub fn is_word_match(line: &[u8], start: usize, end: usize) -> (alone: bool)
    requires
        start <= line@.len(),
    ensures
        alone == no_word_beside(line@, start, end),
        end < line@.len() && onig_is_word(line@, end) ==> !alone,
        start == 0 && !(end < line@.len() && onig_is_word(line@, end)) ==> alone,
        start > 0 && !(end < line@.len() && onig_is_word(line@, end)) ==> exists|head: usize|
            head < start && (head == 0 || line@[head as int] < 0x80 || line@[head as int] > 0xbf)
                && (forall|i: int| head < i < start ==> 0x80 <= #[trigger] line@[i] <= 0xbf)
                && alone == !#[trigger] onig_is_word(line@, head),
{
    if end < line.len() && is_word_at(line, end) {
        return false;
    }
    if start > 0 {
        let head = left_adjust_char_head(line, start - 1);
        if is_word_at(line, head) {
            return false;
        }
    }
    true
}

/// How Oniguruma is to read the patterns of a search.
pub open spec fn setup_of(config: Config) -> RegexSetup {
    let posix = config.regex_mode == RegexMode::Basic || config.regex_mode == RegexMode::Extended;
    RegexSetup {
        syntax: match config.regex_mode {
            RegexMode::Fixed => BaseSyntax::AsIs,
            RegexMode::Basic => BaseSyntax::Grep,
            RegexMode::Extended => BaseSyntax::GnuRegex,
            RegexMode::Perl => BaseSyntax::PerlNg,
        },
        operators: match config.regex_mode {
            RegexMode::Fixed => 0,
            RegexMode::Basic | RegexMode::Extended => ESC_GNU_BUF_ANCHOR,
            RegexMode::Perl => QMARK_CAPITAL_P_NAME,
        },
        behaviors: match config.regex_mode {
            RegexMode::Fixed => 0,
            _ => ALLOW_INTERVAL_LOW_ABBREV,
        },
        options: (if config.ignore_case {
            OPTION_IGNORECASE
        } else {
            0
        }) | (if config.null_data && posix {
            OPTION_MULTILINE
        } else {
            0
        }),
    }
}

/// The same setup, with the longest match wanted.
pub open spec fn longest_setup(setup: RegexSetup) -> RegexSetup {
    RegexSetup { options: setup.options | OPTION_FIND_LONGEST, ..setup }
}

/// The text that is compiled for `pattern`: in extended regular expressions
/// without a leading repeat operator.
pub open spec fn normalized(pattern: Seq<char>, mode: RegexMode) -> Seq<char> {
    if mode == RegexMode::Extended {
        match leading_repeat(pattern) {
            Some((_, rest)) => rest,
            None => pattern,
        }
    } else {
        pattern
    }
}

/// The exit status and the text for a pattern that Oniguruma rejects with the
/// given number and text.
pub open spec fn rejection_of(pattern: Seq<char>, error: (i32, Seq<char>)) -> (i32, Seq<char>) {
    if error.0 == EMPTY_RANGE_IN_CHAR_CLASS {
        (2, "Invalid range end"@)
    } else {
        (2, "invalid pattern \""@ + pattern + "\": "@ + error.1)
    }
}

/// The setup for the patterns of a search.
pub fn regex_setup(config: &Config) -> (setup: RegexSetup)
    ensures
        setup == setup_of(*config),
        (setup.options & OPTION_IGNORECASE != 0) <==> config.ignore_case,
        (setup.options & OPTION_MULTILINE != 0) <==> config.null_data && (config.regex_mode
            == RegexMode::Basic || config.regex_mode == RegexMode::Extended),
{
    let (syntax, operators, behaviors) = match config.regex_mode {
        RegexMode::Fixed => (BaseSyntax::AsIs, 0, 0),
        // GNU grep supports \` and \' as buffer anchors in BRE and ERE, and
        // `{,n}` as an alias for `{0,n}` in all syntaxes.
        RegexMode::Basic => (BaseSyntax::Grep, ESC_GNU_BUF_ANCHOR, ALLOW_INTERVAL_LOW_ABBREV),
        RegexMode::Extended => (
            BaseSyntax::GnuRegex,
            ESC_GNU_BUF_ANCHOR,
            ALLOW_INTERVAL_LOW_ABBREV,
        ),
        // GNU grep supports `(?P<name>...)`.
        RegexMode::Perl => (BaseSyntax::PerlNg, QMARK_CAPITAL_P_NAME, ALLOW_INTERVAL_LOW_ABBREV),
    };
    let case: u32 = if config.ignore_case {
        OPTION_IGNORECASE
    } else {
        0
    };
    // In GNU grep's basic and extended modes, `-z` makes newline ordinary data
    // for `.`, but its Perl mode keeps to a `.` that stops at a newline.
    let dot: u32 = if config.null_data && (config.regex_mode == RegexMode::Basic
        || config.regex_mode == RegexMode::Extended) {
        OPTION_MULTILINE
    } else {
        0
    };
    assert(((case | dot) & 1 != 0 <==> case == 1) && ((case | dot) & 4 != 0 <==> dot == 4))
        by (bit_vector)
        requires
            case == 0 || case == 1,
            dot == 0 || dot == 4,
    ;
    RegexSetup { syntax, operators, behaviors, options: case | dot }
}

/// What is reported of a pattern that Oniguruma rejects.
///
/// A reversed range like `[b-a]` is reported as GNU grep does, simply as
/// "Invalid range end", without the pattern.
pub fn rejection(pattern: &str, error: EngineError) -> (reported: CompileError)
    ensures
        reported@ == rejection_of(pattern@, error@),
{
    if error.code == EMPTY_RANGE_IN_CHAR_CLASS {
        return CompileError { code: 2, message: "Invalid range end".to_string() };
    }
    let message = "invalid pattern \"".to_string().concat(pattern).concat("\": ").concat(
        error.message.as_str(),
    );
    CompileError { code: 2, message }
}

/// The flags for case folding with which a pattern is to be compiled, where
/// `default` are those of the process and `multi_char` is the flag that lets one
/// character fold to several: that one is cleared where case is ignored.
///
/// Oniguruma takes the flags from the process, so it is for the program to set
/// them while it compiles.
pub fn case_fold_flags(default: u32, multi_char: u32, ignore_case: bool) -> (flags: u32)
    ensures
        flags == (if ignore_case {
            default & !multi_char
        } else {
            default
        }),
        ignore_case ==> flags & multi_char == 0,
        flags | multi_char == default | multi_char,
{
    assert((default & !multi_char) & multi_char == 0 && (default & !multi_char) | multi_char
        == default | multi_char) by (bit_vector);
    if ignore_case {
        default & !multi_char
    } else {
        default
    }
}

/// The error for a line that is too long for Oniguruma. The number is none of
/// Oniguruma's.
pub open spec fn too_long() -> (i32, Seq<char>) {
    (0, "line too long"@)
}

fn too_long_error() -> (error: EngineError)
    ensures
        error@ == too_long(),
{
    EngineError { code: 0, message: "line too long".to_string() }
}

/// The length of a character whose first byte is `byte`, as that byte has it.
fn char_len(byte: u8) -> (len: usize)
    ensures
        len == announced_len(byte),
{
    if 0xc0 <= byte && byte < 0xe0 {
        2
    } else if 0xe0 <= byte && byte < 0xf0 {
        3
    } else if 0xf0 <= byte && byte < 0xf5 {
        4
    } else {
        1
    }
}

/// Whether `line` ends within a character. Only its last three bytes can announce
/// more than there is.
fn ends_within_char(line: &[u8]) -> (within: bool)
    ensures
        within == runs_over(line@),
{
    let len = line.len();
    let mut left: usize = 1;
    while left <= 3 && left <= len
        invariant
            len == line@.len(),
            1 <= left <= 4,
            forall|i: int|
                len - left < i < len ==> i + announced_len(#[trigger] line@[i]) <= len,
        decreases 4 - left,
    {
        if char_len(line[len - left]) > left {
            assert((len - left) + announced_len(line@[len - left]) > len);
            return true;
        }
        left += 1;
    }
    false
}

/// A copy of `line` with zero bytes behind it.
fn padded(line: &[u8]) -> (buffer: Vec<u8>)
    requires
        line@.len() <= MAX_LINE,
    ensures
        buffer@.take(line@.len() as int) == line@,
        is_padded(buffer@, line@.len() as usize),
{
    let mut buffer: Vec<u8> = slice_to_vec(line);
    let mut count: usize = 0;
    while count < PADDING
        invariant
            count <= PADDING,
            buffer@.len() == line@.len() + count,
            buffer@.take(line@.len() as int) == line@,
            forall|i: int| line@.len() <= i < buffer@.len() ==> #[trigger] buffer@[i] == 0,
        decreases PADDING - count,
    {
        buffer.push(0);
        count += 1;
        assert(buffer@.take(line@.len() as int) =~= line@);
    }
    buffer
}

/// Searches `line` from `from` on.
fn search_line(regex: &onig::Regex, line: &[u8], from: usize) -> (outcome: Result<
    Option<Span>,
    EngineError,
>)
    requires
        from <= line@.len() <= MAX_LINE,
    ensures
        found(outcome) == onig_search(regex_source(*regex), line@, from),
        outcome matches Ok(Some(span)) ==> span.0 < usize::MAX,
{
    assert(line@.take(line@.len() as int) =~= line@);
    if ends_within_char(line) {
        let buffer = padded(line);
        search(regex, buffer.as_slice(), line.len(), from)
    } else {
        search(regex, line, line.len(), from)
    }
}

/// Matches `line` at `at`.
fn match_line_at(regex: &onig::Regex, line: &[u8], at: usize) -> (outcome: Result<
    Option<Span>,
    EngineError,
>)
    requires
        at <= line@.len() <= MAX_LINE,
    ensures
        found(outcome) == onig_match(regex_source(*regex), line@, at),
{
    assert(line@.take(line@.len() as int) =~= line@);
    if ends_within_char(line) {
        let buffer = padded(line);
        match_at(regex, buffer.as_slice(), line.len(), at)
    } else {
        match_at(regex, line, line.len(), at)
    }
}

/// A pattern compiled by Oniguruma.
pub struct CompiledPattern {
    /// Default semantics. It is decently fast and used for searching.
    leftmost: onig::Regex,
    /// Compiled to find the longest match. In a search it would go through the
    /// whole line for the longest, but it is right for a second, anchored pass
    /// that gives POSIX semantics.
    longest_anchored: onig::Regex,
    /// The pattern as a literal, where it is one that Oniguruma would look for
    /// from character to character. It is searched for in place of `leftmost`, so
    /// that plain patterns are found by their bytes in every line, UTF-8 or not.
    by_bytes: Option<literal_engine::CompiledPattern>,
}

impl CompiledPattern {
    /// What the regex for searching was compiled from.
    pub closed spec fn leftmost_source(&self) -> RegexSource {
        regex_source(self.leftmost)
    }

    /// What the regex for the longest match was compiled from.
    pub closed spec fn longest_source(&self) -> RegexSource {
        regex_source(self.longest_anchored)
    }

    /// The literal that is searched for in place of the regex, if any.
    pub closed spec fn by_bytes(&self) -> Option<literal_engine::CompiledPattern> {
        self.by_bytes
    }
}

/// Whether `text` is a plain pattern that Oniguruma would look for from character
/// to character.
pub open spec fn needs_bytes(text: Seq<char>, config: Config) -> bool {
    is_plain(text, config.ignore_case, config.regex_mode) && !found_by_bytes(text)
}

/// The literal for `text`, where Oniguruma would look for it from character to
/// character.
fn literal_for(text: &str, config: &Config) -> (literal: Option<literal_engine::CompiledPattern>)
    ensures
        match literal {
            Some(literal) => needs_bytes(text@, *config) && literal.needle() == encode_utf8(text@),
            None => !needs_bytes(text@, *config),
        },
{
    let len = text.unicode_len();
    if len == 0 || len > 3 {
        return None;
    }
    match text.get_char(0) {
        '\u{1}'..='\u{8}' | '\u{b}' | '\u{c}' | '\u{e}'..='\u{1f}' | '\u{7f}' => {},
        _ => return None,
    }
    match literal_engine::CompiledPattern::compile(text, config) {
        Ok(literal) => Some(literal),
        Err(_) => None,
    }
}

/// The error that is reported when `source` is compiled, if any.
pub open spec fn rejected(source: RegexSource) -> Option<(i32, Seq<char>)> {
    match onig_rejection(source) {
        Some(error) => Some(rejection_of(source.pattern, error)),
        None => None,
    }
}

/// The error that is reported of `pattern`, if any, where `process` stands for
/// the state of the process when it is compiled for searching, and
/// `longest_process` when it is compiled for the longest match.
pub open spec fn compile_rejection(
    pattern: Seq<char>,
    config: Config,
    process: int,
    longest_process: int,
) -> Option<(i32, Seq<char>)> {
    let text = normalized(pattern, config.regex_mode);
    let setup = setup_of(config);
    match rejected(RegexSource { pattern: text, setup, process }) {
        Some(error) => Some(error),
        None => rejected(
            RegexSource { pattern: text, setup: longest_setup(setup), process: longest_process },
        ),
    }
}

/// Whether the state of the process can count when the patterns of a search are
/// compiled: it can in Perl syntax, and where case is ignored.
pub open spec fn search_heeds_process(config: Config) -> bool {
    config.ignore_case || config.regex_mode == RegexMode::Perl
}

/// Whether `process` may stand for the state of the process when the patterns of
/// a search are compiled.
pub open spec fn is_process_of(config: Config, process: int) -> bool {
    search_heeds_process(config) || process == 0
}

/// The options where the case counts.
proof fn lemma_options(config: Config)
    ensures
        !config.ignore_case ==> {
            let options = setup_of(config).options;
            let longest = longest_setup(setup_of(config)).options;
            ||| options == 0 && longest == OPTION_FIND_LONGEST
            ||| options == OPTION_MULTILINE && longest == OPTION_MULTILINE + OPTION_FIND_LONGEST
        },
        !search_heeds_process(config) ==> !heeds_process(setup_of(config)) && !heeds_process(
            longest_setup(setup_of(config)),
        ),
{
    assert(0u32 | 0u32 == 0u32) by (bit_vector);
    assert(0u32 | 4u32 == 4u32) by (bit_vector);
    assert(0u32 | 16u32 == 16u32) by (bit_vector);
    assert(4u32 | 16u32 == 20u32) by (bit_vector);
}

impl Engine for CompiledPattern {
    open spec fn compiles_to(
        pattern: Seq<char>,
        config: Config,
        outcome: Result<Self, (i32, Seq<char>)>,
    ) -> bool {
        let text = normalized(pattern, config.regex_mode);
        let setup = setup_of(config);
        match outcome {
            Ok(this) => {
                let (leftmost, longest) = (this.leftmost_source(), this.longest_source());
                &&& leftmost == RegexSource { pattern: text, setup, process: leftmost.process }
                &&& longest == RegexSource {
                    pattern: text,
                    setup: longest_setup(setup),
                    process: longest.process,
                }
                &&& is_process_of(config, leftmost.process)
                &&& is_process_of(config, longest.process)
                &&& compile_rejection(pattern, config, leftmost.process, longest.process) is None
                &&& match this.by_bytes() {
                    Some(literal) => needs_bytes(text, config) && literal.needle() == encode_utf8(
                        text,
                    ),
                    None => !needs_bytes(text, config),
                }
                &&& config.regex_mode != RegexMode::Perl ==> stays_ahead(leftmost) && stays_ahead(
                    longest,
                )
                &&& is_text(leftmost) && !config.ignore_case ==> matches_text(longest) && (
                found_by_bytes(text) ==> searches_for_text(leftmost))
            },
            Err(error) => exists|process: int, longest_process: int|
                is_process_of(config, process) && is_process_of(config, longest_process)
                    && #[trigger] compile_rejection(pattern, config, process, longest_process)
                    == Some(error),
        }
    }

    open spec fn warning_of(pattern: Seq<char>, config: Config) -> Option<Seq<char>> {
        if config.regex_mode == RegexMode::Extended {
            match leading_repeat(pattern) {
                Some((operator, _)) => Some(operator + " at start of expression"@),
                None => None,
            }
        } else {
            None
        }
    }

    open spec fn leftmost(&self, line: Seq<u8>, offset: usize) -> Found {
        if line.len() > MAX_LINE {
            Err(too_long())
        } else {
            match self.by_bytes() {
                Some(literal) => literal.leftmost(line, offset),
                None => onig_search(self.leftmost_source(), line, offset),
            }
        }
    }

    open spec fn longest(&self, line: Seq<u8>, start: usize) -> Result<
        Option<usize>,
        (i32, Seq<char>),
    > {
        if start > line.len() {
            Ok(None)
        } else if line.len() > MAX_LINE {
            Err(too_long())
        } else {
            match onig_match(self.longest_source(), line, start) {
                Ok(Some(span)) => Ok(Some(span.1)),
                Ok(None) => Ok(None),
                Err(error) => Err(error),
            }
        }
    }

    open spec fn stands_alone(line: Seq<u8>, start: usize, end: usize) -> bool {
        no_word_beside(line, start, end)
    }

    fn compile(pattern: &str, config: &Config) -> (compiled: Result<Self, CompileError>) {
        let setup = regex_setup(config);
        let text = if config.regex_mode == RegexMode::Extended {
            match strip_leading_repeat_operator(pattern) {
                Some((_, rest)) => rest,
                None => pattern,
            }
        } else {
            pattern
        };
        proof {
            lemma_options(*config);
        }
        let leftmost = match compile_regex(text, setup) {
            Ok(regex) => regex,
            Err(error) => {
                proof {
                    let process = choose|process: int|
                        is_process(setup, process) && #[trigger] onig_rejection(
                            RegexSource { pattern: text@, setup, process },
                        ) == Some(error@);
                    assert(compile_rejection(pattern@, *config, process, process) == Some(
                        rejection_of(text@, error@),
                    ));
                }
                return Err(rejection(text, error));
            },
        };
        let ghost process = regex_source(leftmost).process;
        assert(regex_source(leftmost) == RegexSource { pattern: text@, setup, process });
        let longest = RegexSetup { options: setup.options | OPTION_FIND_LONGEST, ..setup };
        let longest_anchored = match compile_regex(text, longest) {
            Ok(regex) => regex,
            Err(error) => {
                proof {
                    let longest_process = choose|process: int|
                        is_process(longest, process) && #[trigger] onig_rejection(
                            RegexSource { pattern: text@, setup: longest, process },
                        ) == Some(error@);
                    assert(compile_rejection(pattern@, *config, process, longest_process) == Some(
                        rejection_of(text@, error@),
                    ));
                }
                return Err(rejection(text, error));
            },
        };
        let by_bytes = literal_for(text, config);
        Ok(CompiledPattern { leftmost, longest_anchored, by_bytes })
    }

    fn warning(pattern: &str, config: &Config) -> (text: Option<String>) {
        if config.regex_mode == RegexMode::Extended {
            if let Some((operator, _)) = strip_leading_repeat_operator(pattern) {
                return Some(operator.to_string().concat(" at start of expression"));
            }
        }
        None
    }

    fn search_leftmost(&self, line: &[u8], offset: usize) -> (outcome: Result<
        Option<Span>,
        EngineError,
    >) {
        if line.len() > MAX_LINE {
            return Err(too_long_error());
        }
        match &self.by_bytes {
            Some(literal) => literal.search_leftmost(line, offset),
            None => search_line(&self.leftmost, line, offset),
        }
    }

    fn longest_end_at(&self, line: &[u8], start: usize) -> (outcome: Result<
        Option<usize>,
        EngineError,
    >) {
        if start > line.len() {
            return Ok(None);
        }
        if line.len() > MAX_LINE {
            return Err(too_long_error());
        }
        match match_line_at(&self.longest_anchored, line, start) {
            Ok(Some((_, end))) => Ok(Some(end)),
            Ok(None) => Ok(None),
            Err(error) => Err(error),
        }
    }

    fn is_match(&self, line: &[u8]) -> (outcome: Result<bool, EngineError>) {
        match self.search_leftmost(line, 0) {
            Ok(span) => Ok(span.is_some()),
            Err(error) => Err(error),
        }
    }

    fn is_word_match(line: &[u8], start: usize, end: usize) -> (alone: bool) {
        self::is_word_match(line, start, end)
    }
}

} // verus!
