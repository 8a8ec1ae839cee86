//! What holds of how Oniguruma reads the patterns of a search, and of what is
//! told about them, by the patterns' characters and the settings.

use crate::config::{Config, RegexMode};
use crate::engine::{Engine, Span};
use crate::literal_engine;
use crate::matcher::{accepts, gives_up, rejects, texts_of, warned, warnings_of, Matcher};
use crate::onig_engine::{
    char_head, compile_rejection, is_lead, is_process_of, longest_setup, normalized, rejected,
    setup_of, CompiledPattern,
};
use crate::oniguruma::{
    onig_is_word, onig_match, onig_rejection, BaseSyntax, RegexSource, ALLOW_INTERVAL_LOW_ABBREV,
    ESC_GNU_BUF_ANCHOR, OPTION_FIND_LONGEST, OPTION_IGNORECASE, OPTION_MULTILINE,
    QMARK_CAPITAL_P_NAME,
};
use crate::repeat::{after_interval, is_digit, is_interval};
use vstd::prelude::*;

verus! {

/// `-i` makes letters match whatever their case in every syntax, and nothing else
/// does.
pub proof fn law_case_is_ignored_where_asked(config: Config)
    ensures
        (setup_of(config).options & OPTION_IGNORECASE != 0) <==> config.ignore_case,
        (longest_setup(setup_of(config)).options & OPTION_IGNORECASE != 0) <==> config.ignore_case,
{
    lemma_option_bits(config);
}

/// `-z` lets `.` match a newline in basic and in extended regular expressions, and
/// in no other syntax. Nothing else does.
pub proof fn law_dot_matches_a_newline_where_lines_end_in_nul(config: Config)
    ensures
        (setup_of(config).options & OPTION_MULTILINE != 0) <==> config.null_data && (
        config.regex_mode == RegexMode::Basic || config.regex_mode == RegexMode::Extended),
        (longest_setup(setup_of(config)).options & OPTION_MULTILINE != 0) <==> (setup_of(
            config,
        ).options & OPTION_MULTILINE != 0),
{
    lemma_option_bits(config);
}

/// No other option is ever set for searching, and for the longest match just the
/// one that asks for it. The syntax is the same for both.
pub proof fn law_only_the_longest_match_is_asked_for_besides(config: Config)
    ensures
        setup_of(config).options & !(OPTION_IGNORECASE | OPTION_MULTILINE) == 0,
        longest_setup(setup_of(config)).options & OPTION_FIND_LONGEST != 0,
        longest_setup(setup_of(config)).options & !OPTION_FIND_LONGEST == setup_of(config).options,
        longest_setup(setup_of(config)).syntax == setup_of(config).syntax,
        longest_setup(setup_of(config)).operators == setup_of(config).operators,
        longest_setup(setup_of(config)).behaviors == setup_of(config).behaviors,
{
    lemma_option_bits(config);
}

/// The bits of the options.
proof fn lemma_option_bits(config: Config)
    ensures
        ({
            let options = setup_of(config).options;
            let longest = longest_setup(setup_of(config)).options;
            let dot = config.null_data && (config.regex_mode == RegexMode::Basic
                || config.regex_mode == RegexMode::Extended);
            &&& (options & OPTION_IGNORECASE != 0) <==> config.ignore_case
            &&& (longest & OPTION_IGNORECASE != 0) <==> config.ignore_case
            &&& (options & OPTION_MULTILINE != 0) <==> dot
            &&& (longest & OPTION_MULTILINE != 0) <==> dot
            &&& options & !(OPTION_IGNORECASE | OPTION_MULTILINE) == 0
            &&& longest & OPTION_FIND_LONGEST != 0
            &&& longest & !OPTION_FIND_LONGEST == options
        }),
{
    let options = setup_of(config).options;
    let case: u32 = if config.ignore_case {
        1
    } else {
        0
    };
    let dot: u32 = if config.null_data && (config.regex_mode == RegexMode::Basic
        || config.regex_mode == RegexMode::Extended) {
        4
    } else {
        0
    };
    assert(options == case | dot);
    assert(((case | dot) & 1 != 0 <==> case == 1) && ((case | dot) & 4 != 0 <==> dot == 4) && (case
        | dot) & !(1u32 | 4u32) == 0 && (((case | dot) | 16) & 1 != 0 <==> case == 1) && (((case
        | dot) | 16) & 4 != 0 <==> dot == 4) && ((case | dot) | 16) & 16 != 0 && ((case | dot) | 16)
        & !16u32 == case | dot) by (bit_vector)
        requires
            case == 0 || case == 1,
            dot == 0 || dot == 4,
    ;
}

/// Each mode has a syntax of its own, with nothing special in plain text.
pub proof fn law_each_mode_has_its_syntax(config: Config)
    ensures
        setup_of(config).syntax == BaseSyntax::AsIs <==> config.regex_mode == RegexMode::Fixed,
        setup_of(config).syntax == BaseSyntax::Grep <==> config.regex_mode == RegexMode::Basic,
        setup_of(config).syntax == BaseSyntax::GnuRegex <==> config.regex_mode
            == RegexMode::Extended,
        setup_of(config).syntax == BaseSyntax::PerlNg <==> config.regex_mode == RegexMode::Perl,
{
}

/// Over these syntaxes the buffer anchors of GNU are read in basic and extended
/// regular expressions, named groups in Perl's way in its own syntax, and `{,n}` in
/// all but plain text. Nothing else is switched on.
pub proof fn law_what_is_read_over_the_syntaxes(config: Config)
    ensures
        setup_of(config).operators == ESC_GNU_BUF_ANCHOR <==> config.regex_mode
            == RegexMode::Basic || config.regex_mode == RegexMode::Extended,
        setup_of(config).operators == QMARK_CAPITAL_P_NAME <==> config.regex_mode
            == RegexMode::Perl,
        setup_of(config).operators == 0 <==> config.regex_mode == RegexMode::Fixed,
        setup_of(config).behaviors == ALLOW_INTERVAL_LOW_ABBREV <==> config.regex_mode
            != RegexMode::Fixed,
        setup_of(config).behaviors == 0 <==> config.regex_mode == RegexMode::Fixed,
{
}

/// The bits of operators, behaviors and options are those of Oniguruma. An operator
/// of its second set stands in the upper half.
pub proof fn law_bits_are_those_of_oniguruma()
    ensures
        OPTION_IGNORECASE == 0x1,
        OPTION_MULTILINE == 0x4,
        OPTION_FIND_LONGEST == 0x10,
        ALLOW_INTERVAL_LOW_ABBREV == 0x10,
        ESC_GNU_BUF_ANCHOR == 0x8000 * 0x1_0000_0000,
        QMARK_CAPITAL_P_NAME == 0x8000_0000 * 0x1_0000_0000,
{
}

/// A pattern that Oniguruma accepts is compiled twice from the same text, for
/// searching with the setup of the search and for the longest match with one that
/// asks for that too. Unless case is ignored or the syntax is Perl's, the state of
/// the process does not count.
pub proof fn law_both_regexes_are_of_one_text(
    this: CompiledPattern,
    pattern: Seq<char>,
    config: Config,
)
    requires
        CompiledPattern::compiles_to(pattern, config, Ok(this)),
    ensures
        this.leftmost_source().pattern == this.longest_source().pattern,
        this.leftmost_source().setup == setup_of(config),
        this.longest_source().setup == longest_setup(setup_of(config)),
        this.longest_source().setup.options & OPTION_FIND_LONGEST != 0,
        this.leftmost_source().setup.options & OPTION_FIND_LONGEST == 0,
        !config.ignore_case && config.regex_mode != RegexMode::Perl
            ==> this.leftmost_source().process == 0 && this.longest_source().process == 0,
        onig_rejection(this.leftmost_source()) is None,
        onig_rejection(this.longest_source()) is None,
{
    lemma_option_bits(config);
    let options = setup_of(config).options;
    assert(options & 16 == 0) by (bit_vector)
        requires
            options & !(1u32 | 4u32) == 0,
    ;
    let text = this.leftmost_source().pattern;
    assert(rejected(this.leftmost_source()) is None);
    assert(rejected(this.longest_source()) is None);
}

/// Whether a compilation that ends in `outcome` has read `text`: both regexes are
/// compiled from it, or Oniguruma has refused it, with the setup for searching or
/// the one for the longest match.
pub open spec fn has_read(
    config: Config,
    outcome: Result<CompiledPattern, (i32, Seq<char>)>,
    text: Seq<char>,
) -> bool {
    match outcome {
        Ok(this) => this.leftmost_source().pattern == text && this.longest_source().pattern == text,
        Err(error) => exists|source: RegexSource|
            {
                &&& #[trigger] is_reported(source, error)
                &&& source.pattern == text
                &&& source.setup == setup_of(config) || source.setup == longest_setup(
                    setup_of(config),
                )
                &&& !config.ignore_case && config.regex_mode != RegexMode::Perl ==> source.process
                    == 0
            },
    }
}

/// Whether `error` is what is reported where Oniguruma refuses `source`: an exit
/// status of two, and for a range with its ends in the wrong order just this,
/// else the text together with Oniguruma's own words.
pub open spec fn is_reported(source: RegexSource, error: (i32, Seq<char>)) -> bool {
    &&& onig_rejection(source) is Some
    &&& error.0 == 2
    &&& (onig_rejection(source)->0).0 == -203 ==> error.1 == "Invalid range end"@
    &&& (onig_rejection(source)->0).0 != -203 ==> error.1 == "invalid pattern \""@ + source.pattern
        + "\": "@ + (onig_rejection(source)->0).1
}

/// The text is what is read.
proof fn lemma_has_read(
    pattern: Seq<char>,
    config: Config,
    outcome: Result<CompiledPattern, (i32, Seq<char>)>,
)
    requires
        CompiledPattern::compiles_to(pattern, config, outcome),
    ensures
        has_read(config, outcome, normalized(pattern, config.regex_mode)),
{
    if let Err(error) = outcome {
        let text = normalized(pattern, config.regex_mode);
        let setup = setup_of(config);
        let (process, longest_process) = choose|process: int, longest_process: int|
            is_process_of(config, process) && is_process_of(config, longest_process)
                && #[trigger] compile_rejection(pattern, config, process, longest_process) == Some(
                error,
            );
        let first = RegexSource { pattern: text, setup, process };
        let second = RegexSource {
            pattern: text,
            setup: longest_setup(setup),
            process: longest_process,
        };
        if rejected(first) is Some {
            assert(is_reported(first, error));
        } else {
            assert(is_reported(second, error));
        }
    }
}

/// Where the state of the process does not count, Oniguruma decides alone: what it
/// refuses to compile for searching is refused for that, what it refuses only to
/// compile for the longest match is refused for that, and the rest is accepted.
pub proof fn law_what_oniguruma_refuses_is_refused(
    pattern: Seq<char>,
    config: Config,
    outcome: Result<CompiledPattern, (i32, Seq<char>)>,
)
    requires
        CompiledPattern::compiles_to(pattern, config, outcome),
        !config.ignore_case,
        config.regex_mode != RegexMode::Perl,
    ensures
        ({
            let text = normalized(pattern, config.regex_mode);
            let first = RegexSource { pattern: text, setup: setup_of(config), process: 0 };
            let second = RegexSource { setup: longest_setup(setup_of(config)), ..first };
            if onig_rejection(first) is Some {
                outcome matches Err(error) && is_reported(first, error)
            } else if onig_rejection(second) is Some {
                outcome matches Err(error) && is_reported(second, error)
            } else {
                outcome is Ok
            }
        }),
{
    let text = normalized(pattern, config.regex_mode);
    let first = RegexSource { pattern: text, setup: setup_of(config), process: 0 };
    let second = RegexSource { setup: longest_setup(setup_of(config)), ..first };
    match outcome {
        Ok(this) => {
            assert(this.leftmost_source() == first);
            assert(this.longest_source() == second);
        },
        Err(error) => {
            assert(compile_rejection(pattern, config, 0, 0) == Some(error));
        },
    }
}

/// Outside extended regular expressions a pattern is compiled as it stands,
/// whatever it starts with, and draws no warning.
pub proof fn law_patterns_are_read_as_they_stand(
    pattern: Seq<char>,
    config: Config,
    outcome: Result<CompiledPattern, (i32, Seq<char>)>,
)
    requires
        config.regex_mode != RegexMode::Extended,
    ensures
        CompiledPattern::compiles_to(pattern, config, outcome) ==> has_read(config, outcome, pattern),
        CompiledPattern::warning_of(pattern, config) is None,
{
    if CompiledPattern::compiles_to(pattern, config, outcome) {
        lemma_has_read(pattern, config, outcome);
    }
}

/// In extended regular expressions a `?`, `*` or `+` at the start is left out, one
/// of them, and a warning names it.
pub proof fn law_a_leading_sign_is_left_out(
    pattern: Seq<char>,
    config: Config,
    outcome: Result<CompiledPattern, (i32, Seq<char>)>,
)
    requires
        config.regex_mode == RegexMode::Extended,
        pattern.len() > 0,
        pattern[0] == '?' || pattern[0] == '*' || pattern[0] == '+',
    ensures
        CompiledPattern::compiles_to(pattern, config, outcome) ==> has_read(
            config,
            outcome,
            pattern.subrange(1, pattern.len() as int),
        ),
        CompiledPattern::warning_of(pattern, config) == Some(
            seq![pattern[0]] + " at start of expression"@,
        ),
{
    reveal_strlit("?");
    reveal_strlit("*");
    reveal_strlit("+");
    assert("?"@ =~= seq!['?']);
    assert("*"@ =~= seq!['*']);
    assert("+"@ =~= seq!['+']);
    assert(pattern.skip(1) =~= pattern.subrange(1, pattern.len() as int));
    if CompiledPattern::compiles_to(pattern, config, outcome) {
        lemma_has_read(pattern, config, outcome);
    }
}

/// An interval that the first character opens ends at its closing brace: what
/// follows that is the rest.
pub proof fn law_an_interval_ends_at_its_brace(pattern: Seq<char>, close: int, digit: int)
    requires
        0 < digit < close < pattern.len(),
        '0' <= pattern[digit] <= '9',
        pattern[close] == '}',
        forall|i: int|
            0 < i < close ==> '0' <= #[trigger] pattern[i] <= '9' || pattern[i] == ',',
    ensures
        after_interval(pattern) == Some(pattern.subrange(close + 1, pattern.len() as int)),
{
    assert(is_digit(pattern[digit]));
    assert(is_interval(pattern, close));
    let other = choose|other: int| is_interval(pattern, other);
    assert(is_interval(pattern, other));
    assert(pattern[other] == '}' && pattern[close] == '}');
    assert(pattern.skip(close + 1) =~= pattern.subrange(close + 1, pattern.len() as int));
}

/// Without a closing brace there is no interval, nor where something else than
/// digits and commas, or no digit, stands before it.
pub proof fn law_nothing_else_is_an_interval(pattern: Seq<char>)
    requires
        forall|close: int|
            0 < close < pattern.len() && #[trigger] pattern[close] == '}' ==> {
                ||| exists|i: int|
                    0 < i < close && !('0' <= #[trigger] pattern[i] <= '9') && pattern[i] != ','
                ||| forall|i: int| 0 < i < close ==> !('0' <= #[trigger] pattern[i] <= '9')
            },
    ensures
        after_interval(pattern) is None,
{
    assert forall|close: int| !is_interval(pattern, close) by {
        if is_interval(pattern, close) {
            assert(pattern[close] == '}');
            let digit = choose|i: int| 0 < i < close && is_digit(#[trigger] pattern[i]);
            assert(is_digit(pattern[digit]));
        }
    }
}

/// There too an interval at the start is left out, from its opening brace to its
/// closing one, with nothing but digits and commas between and one digit at least.
/// The warning does not quote it.
pub proof fn law_a_leading_interval_is_left_out(
    pattern: Seq<char>,
    config: Config,
    outcome: Result<CompiledPattern, (i32, Seq<char>)>,
    close: int,
    digit: int,
)
    requires
        config.regex_mode == RegexMode::Extended,
        0 < digit < close < pattern.len(),
        pattern[0] == '{',
        '0' <= pattern[digit] <= '9',
        pattern[close] == '}',
        forall|i: int|
            0 < i < close ==> '0' <= #[trigger] pattern[i] <= '9' || pattern[i] == ',',
    ensures
        CompiledPattern::compiles_to(pattern, config, outcome) ==> has_read(
            config,
            outcome,
            pattern.subrange(close + 1, pattern.len() as int),
        ),
        CompiledPattern::warning_of(pattern, config) == Some(
            "{...}"@ + " at start of expression"@,
        ),
{
    law_an_interval_ends_at_its_brace(pattern, close, digit);
    if CompiledPattern::compiles_to(pattern, config, outcome) {
        lemma_has_read(pattern, config, outcome);
    }
}

/// Any other pattern is compiled as it stands there too, without a warning: the
/// empty one, one that starts with another character, and one whose opening brace
/// starts no such interval.
pub proof fn law_other_starts_are_read_as_they_stand(
    pattern: Seq<char>,
    config: Config,
    outcome: Result<CompiledPattern, (i32, Seq<char>)>,
)
    requires
        config.regex_mode == RegexMode::Extended,
        pattern.len() > 0 ==> pattern[0] != '?' && pattern[0] != '*' && pattern[0] != '+',
        pattern.len() > 0 && pattern[0] == '{' ==> forall|close: int|
            0 < close < pattern.len() && #[trigger] pattern[close] == '}' ==> {
                ||| exists|i: int|
                    0 < i < close && !('0' <= #[trigger] pattern[i] <= '9') && pattern[i] != ','
                ||| forall|i: int| 0 < i < close ==> !('0' <= #[trigger] pattern[i] <= '9')
            },
    ensures
        CompiledPattern::compiles_to(pattern, config, outcome) ==> has_read(config, outcome, pattern),
        CompiledPattern::warning_of(pattern, config) is None,
{
    if pattern.len() > 0 && pattern[0] == '{' {
        law_nothing_else_is_an_interval(pattern);
    }
    if CompiledPattern::compiles_to(pattern, config, outcome) {
        lemma_has_read(pattern, config, outcome);
    }
}

/// The literal engine never warns.
pub proof fn law_literals_draw_no_warning(pattern: Seq<char>, config: Config)
    ensures
        literal_engine::CompiledPattern::warning_of(pattern, config) is None,
{
}

/// Whether the character that covers position `at` of `line` starts at `head`: all
/// bytes behind it up to `at` are UTF-8 continuation bytes, and it is none itself,
/// unless the line starts with it.
pub open spec fn starts_at(line: Seq<u8>, head: int, at: int) -> bool {
    &&& 0 <= head <= at < line.len()
    &&& forall|i: int| head < i <= at ==> 0x80 <= #[trigger] line[i] <= 0xbf
    &&& head == 0 || line[head] < 0x80 || line[head] > 0xbf
}

/// Every position has one such place, and no more.
pub proof fn law_characters_start_in_one_place(line: Seq<u8>, at: int)
    requires
        0 <= at < line.len(),
    ensures
        starts_at(line, char_head(line, at), at),
        forall|head: int| #[trigger] starts_at(line, head, at) ==> head == char_head(line, at),
    decreases at,
{
    if at > 0 && !is_lead(line[at]) {
        law_characters_start_in_one_place(line, at - 1);
        assert forall|head: int| #[trigger] starts_at(line, head, at) implies head == char_head(
            line,
            at,
        ) by {
            assert(starts_at(line, head, at - 1));
        }
    }
}

/// A match stands alone exactly if neither the character at its end nor the one
/// that ends where it starts, which `head` is the place of, is a word character to
/// Oniguruma, whatever the characters are.
pub proof fn law_matches_stand_alone_between_non_words(
    line: Seq<u8>,
    start: usize,
    end: usize,
    head: usize,
)
    requires
        start <= line.len(),
        start > 0 ==> starts_at(line, head as int, start - 1),
    ensures
        CompiledPattern::stands_alone(line, start, end) <==> {
            &&& end < line.len() ==> !onig_is_word(line, end)
            &&& start > 0 ==> !onig_is_word(line, head)
        },
{
    if start > 0 {
        law_characters_start_in_one_place(line, start - 1);
    }
}

/// A longest match is Oniguruma's own, anchored where it is asked for: its end is
/// what is given. There is none behind the end of the line.
pub proof fn law_the_longest_match_is_onigurumas(this: CompiledPattern, line: Seq<u8>, start: usize)
    requires
        line.len() <= 0x7fff_fff0,
    ensures
        start > line.len() ==> this.longest(line, start) == Ok::<Option<usize>, (i32, Seq<char>)>(
            None,
        ),
        start <= line.len() ==> (onig_match(this.longest_source(), line, start) matches Ok(
            Some(span),
        ) ==> this.longest(line, start) == Ok::<Option<usize>, (i32, Seq<char>)>(Some(span.1))),
        start <= line.len() ==> (onig_match(this.longest_source(), line, start) matches Ok(None)
            ==> this.longest(line, start) == Ok::<Option<usize>, (i32, Seq<char>)>(None)),
        start <= line.len() ==> (onig_match(this.longest_source(), line, start) matches Err(error)
            ==> this.longest(line, start) == Err::<Option<usize>, (i32, Seq<char>)>(error)),
{
}

/// A line that is too long for Oniguruma is not searched at all. There is no match
/// behind its end either.
pub proof fn law_too_long_a_line_is_not_searched(
    this: CompiledPattern,
    line: Seq<u8>,
    from: usize,
)
    requires
        line.len() > 0x7fff_fff0,
    ensures
        this.leftmost(line, from) == Err::<Option<Span>, _>((0i32, "line too long"@)),
        from <= line.len() ==> this.longest(line, from) == Err::<Option<usize>, _>(
            (0i32, "line too long"@),
        ),
        from > line.len() ==> this.longest(line, from) == Ok::<Option<usize>, (i32, Seq<char>)>(
            None,
        ),
{
}

/// A compiled search has the settings that it was asked for, and a compiled pattern
/// for each of its patterns, in their order.
pub proof fn law_every_pattern_is_compiled<E: Engine>(matcher: Matcher<E>, config: Config, i: int)
    requires
        matcher.compiled_from(config),
        0 <= i < config.patterns@.len(),
    ensures
        matcher.config() == config,
        matcher.patterns().len() == config.patterns@.len(),
        E::compiles_to(config.patterns@[i]@, config, Ok(matcher.patterns()[i])),
{
    assert(config.patterns@[i] == config.patterns@[i]);
}

/// The warnings of the first patterns of a search.
proof fn lemma_warnings<E: Engine>(config: Config, count: int) -> (places: Seq<int>)
    requires
        0 <= count,
    ensures
        warnings_of::<E>(config, count).len() == places.len(),
        forall|k: int|
            0 <= k < places.len() ==> 0 <= #[trigger] places[k] < count && E::warning_of(
                config.patterns@[places[k]]@,
                config,
            ) == Some(warnings_of::<E>(config, count)[k]),
        forall|k: int, l: int|
            0 <= k < l < places.len() ==> #[trigger] places[k] < #[trigger] places[l],
        forall|i: int|
            0 <= i < count ==> (E::warning_of((#[trigger] config.patterns@[i])@, config) is Some
                <==> places.contains(i)),
    decreases count,
{
    if count == 0 {
        Seq::empty()
    } else {
        let before = lemma_warnings::<E>(config, count - 1);
        let last = E::warning_of(config.patterns@[count - 1]@, config);
        let places = if last is Some {
            before.push(count - 1)
        } else {
            before
        };
        assert forall|k: int| 0 <= k < places.len() implies 0 <= #[trigger] places[k] < count
            && E::warning_of(config.patterns@[places[k]]@, config) == Some(
            warnings_of::<E>(config, count)[k],
        ) by {
            if k < before.len() {
                assert(places[k] == before[k]);
                assert(warnings_of::<E>(config, count)[k] == warnings_of::<E>(
                    config,
                    count - 1,
                )[k]);
            }
        }
        assert forall|k: int, l: int| 0 <= k < l < places.len() implies #[trigger] places[k]
            < #[trigger] places[l] by {
            assert(places[k] == before[k]);
            if l < before.len() {
                assert(places[l] == before[l]);
            }
        }
        assert forall|i: int| 0 <= i < count implies (E::warning_of(
            (#[trigger] config.patterns@[i])@,
            config,
        ) is Some <==> places.contains(i)) by {
            if i < count - 1 {
                if before.contains(i) {
                    let k = choose|k: int| 0 <= k < before.len() && before[k] == i;
                    assert(places[k] == i);
                }
                if places.contains(i) {
                    let k = choose|k: int| 0 <= k < places.len() && places[k] == i;
                    assert(before[k] == i);
                }
            } else if last is Some {
                assert(places[before.len() as int] == i);
            } else if places.contains(i) {
                let k = choose|k: int| 0 <= k < places.len() && places[k] == i;
                assert(before[k] == i);
            }
        }
        places
    }
}

/// The warnings of the first patterns of a search are appended to those that there
/// are: one for each pattern that draws one, in the order of the patterns. The law
/// gives the places of those patterns.
pub proof fn law_each_warning_is_given_once<E: Engine>(
    config: Config,
    count: int,
    before: Seq<String>,
    after: Seq<String>,
) -> (places: Seq<int>)
    requires
        0 <= count <= config.patterns@.len(),
        warned::<E>(config, count, before, after),
    ensures
        after.len() == before.len() + places.len(),
        forall|i: int| 0 <= i < before.len() ==> (#[trigger] after[i])@ == before[i]@,
        forall|k: int|
            0 <= k < places.len() ==> 0 <= #[trigger] places[k] < count && E::warning_of(
                config.patterns@[places[k]]@,
                config,
            ) == Some(after[before.len() + k]@),
        forall|k: int, l: int|
            0 <= k < l < places.len() ==> #[trigger] places[k] < #[trigger] places[l],
        forall|i: int|
            0 <= i < count ==> (E::warning_of((#[trigger] config.patterns@[i])@, config) is Some
                <==> places.contains(i)),
{
    let places = lemma_warnings::<E>(config, count);
    let texts = texts_of(after);
    assert(texts.len() == after.len());
    assert forall|i: int| 0 <= i < before.len() implies (#[trigger] after[i])@ == before[i]@ by {
        assert(texts[i] == after[i]@);
        assert(texts[i] == texts_of(before)[i]);
    }
    assert forall|k: int| 0 <= k < places.len() implies 0 <= #[trigger] places[k] < count
        && E::warning_of(config.patterns@[places[k]]@, config) == Some(
        after[before.len() + k]@,
    ) by {
        assert(texts[before.len() + k] == after[before.len() + k]@);
        assert(texts[before.len() + k] == warnings_of::<E>(config, count)[k]);
    }
    places
}

/// The first pattern that the engine rejects ends a compilation, with its error:
/// those before it are accepted. The warnings are those of the patterns up to and
/// with that one. The law gives what those before it may be compiled to: as many as
/// they are is the place of the rejected one.
pub proof fn law_the_first_rejected_pattern_ends_it<E: Engine>(
    config: Config,
    error: (i32, Seq<char>),
    before: Seq<String>,
    after: Seq<String>,
) -> (compiled: Seq<E>)
    requires
        gives_up::<E>(config, error, before, after),
    ensures
        compiled.len() < config.patterns@.len(),
        E::compiles_to(config.patterns@[compiled.len() as int]@, config, Err(error)),
        forall|i: int|
            0 <= i < compiled.len() ==> E::compiles_to(
                (#[trigger] config.patterns@[i])@,
                config,
                Ok(compiled[i]),
            ),
        warned::<E>(config, (compiled.len() + 1) as int, before, after),
{
    let k = choose|k: int| #[trigger]
        rejects::<E>(config, k, error) && warned::<E>(config, k + 1, before, after);
    let compiled = Seq::new(
        k as nat,
        |i: int| choose|one: E| E::compiles_to(config.patterns@[i]@, config, Ok(one)),
    );
    assert forall|i: int| 0 <= i < compiled.len() implies E::compiles_to(
        (#[trigger] config.patterns@[i])@,
        config,
        Ok(compiled[i]),
    ) by {
        assert(accepts::<E>(config, config.patterns@[i]@));
    }
    compiled
}

} // verus!
