use grep_match::onig_engine::{
    case_fold_flags, is_word_match, left_adjust_char_head, regex_setup, rejection, CompiledPattern,
    EMPTY_RANGE_IN_CHAR_CLASS,
};
use grep_match::oniguruma::{
    BaseSyntax, ALLOW_INTERVAL_LOW_ABBREV, ESC_GNU_BUF_ANCHOR, MAX_LINE, OPTION_FIND_LONGEST,
    OPTION_IGNORECASE, OPTION_MULTILINE, QMARK_CAPITAL_P_NAME,
};
use grep_match::{Config, Engine, EngineError, MatchError, Matcher, RegexMode, Span};
use onig::{RegexOptions, SyntaxBehavior, SyntaxOperator};

fn owned(patterns: &[&str]) -> Vec<String> {
    patterns.iter().map(|p| p.to_string()).collect()
}

fn plain(patterns: &[String], regex_mode: RegexMode) -> Config<'_> {
    Config {
        patterns,
        regex_mode,
        ignore_case: false,
        null_data: false,
        line_regexp: false,
        word_regexp: false,
        invert_match: false,
    }
}

fn matches(config: &Config, line: &[u8]) -> Option<Vec<Span>> {
    let matcher = Matcher::<CompiledPattern>::compile(config).unwrap();
    let positions = matcher.match_line(line);
    assert_eq!(matcher.try_match_line(line).unwrap(), positions);
    assert_eq!(matcher.is_match(line), positions.as_ref().map(|_| Vec::new()));
    assert_eq!(matcher.try_is_match(line).unwrap(), matcher.is_match(line));
    positions
}

fn one(pattern: &str, mode: RegexMode, line: &str) -> Option<Vec<Span>> {
    let p = owned(&[pattern]);
    matches(&plain(&p, mode), line.as_bytes())
}

fn failure(pattern: &str, mode: RegexMode) -> String {
    let p = owned(&[pattern]);
    let config = plain(&p, mode);
    let error = Matcher::<CompiledPattern>::compile(&config).err().unwrap();
    assert_eq!(error.code, 2);
    error.message
}

#[test]
fn each_mode_has_its_syntax() {
    assert_eq!(one("a.c", RegexMode::Fixed, "abc a.c"), Some(vec![(4, 7)]));
    assert_eq!(one("a\\+", RegexMode::Basic, "caaat"), Some(vec![(1, 4)]));
    assert_eq!(one("a+", RegexMode::Basic, "aaa a+"), Some(vec![(4, 6)]));
    assert_eq!(one("a+", RegexMode::Extended, "caaat"), Some(vec![(1, 4)]));
    assert_eq!(one("\\d+", RegexMode::Perl, "x42"), Some(vec![(1, 3)]));
    assert_eq!(one("(?P<x>a)\\k<x>", RegexMode::Perl, "baa"), Some(vec![(1, 3)]));
}

#[test]
fn buffer_anchors_and_short_intervals() {
    assert_eq!(one("\\`a\\'", RegexMode::Basic, "a"), Some(vec![(0, 1)]));
    assert_eq!(one("\\`a", RegexMode::Extended, "ba"), None);
    assert_eq!(one("^a{,2}$", RegexMode::Extended, "aa"), Some(vec![(0, 2)]));
    assert_eq!(one("^a{,2}$", RegexMode::Extended, "aaa"), None);
    assert_eq!(one("^a\\{,2\\}$", RegexMode::Basic, "aa"), Some(vec![(0, 2)]));
    assert_eq!(one("^a{,2}$", RegexMode::Perl, "aa"), Some(vec![(0, 2)]));
}

#[test]
fn matches_are_leftmost_longest() {
    assert_eq!(one("a|ab", RegexMode::Extended, "ab"), Some(vec![(0, 2)]));
    assert_eq!(one("a|ab|abcd", RegexMode::Extended, "xabcd"), Some(vec![(1, 5)]));
    let p = owned(&["a", "ab"]);
    assert_eq!(matches(&plain(&p, RegexMode::Basic), b"ab"), Some(vec![(0, 2)]));
    let p = owned(&["[0-9]+", "[a-z]+", "b[0-9]"]);
    assert_eq!(
        matches(&plain(&p, RegexMode::Extended), b"ab1 22"),
        Some(vec![(0, 2), (2, 3), (4, 6)])
    );
}

#[test]
fn empty_matches_select_but_are_not_shown() {
    assert_eq!(one("x*", RegexMode::Basic, "abc"), Some(vec![]));
    assert_eq!(one("x*", RegexMode::Basic, ""), Some(vec![]));
    assert_eq!(one("x*", RegexMode::Basic, "axxb"), Some(vec![(1, 3)]));
    let p = owned(&["", "b*"]);
    assert_eq!(matches(&plain(&p, RegexMode::Basic), b"abb"), Some(vec![(1, 3)]));
    // An empty match counts under `-x` on an empty line only.
    let p = owned(&["x*"]);
    let config = Config { line_regexp: true, ..plain(&p, RegexMode::Basic) };
    assert_eq!(matches(&config, b""), Some(vec![]));
    assert_eq!(matches(&config, b"a"), None);
    assert_eq!(matches(&config, b"xx"), Some(vec![(0, 2)]));
}

#[test]
fn case_is_ignored_on_request() {
    let p = owned(&["hello", "é"]);
    let config = Config { ignore_case: true, ..plain(&p, RegexMode::Basic) };
    assert_eq!(matches(&config, "HeLLo É".as_bytes()), Some(vec![(0, 5), (6, 8)]));
    let config = plain(&p, RegexMode::Basic);
    assert_eq!(matches(&config, "HeLLo É".as_bytes()), None);
}

#[test]
fn newline_is_data_between_nul_bytes() {
    let p = owned(&["a.b"]);
    for mode in [RegexMode::Basic, RegexMode::Extended] {
        let config = plain(&p, mode);
        assert_eq!(matches(&config, b"a\nb"), None);
        let config = Config { null_data: true, ..config };
        assert_eq!(matches(&config, b"a\nb"), Some(vec![(0, 3)]));
    }
    let config = Config { null_data: true, ..plain(&p, RegexMode::Perl) };
    assert_eq!(matches(&config, b"a\nb"), None);
}

#[test]
fn words_are_judged_by_unicode() {
    let p = owned(&["foo"]);
    let config = Config { word_regexp: true, ..plain(&p, RegexMode::Basic) };
    assert_eq!(matches(&config, "foo, éfoo fooé «foo»".as_bytes()), Some(vec![(0, 3), (19, 22)]));
    assert_eq!(matches(&config, "foo_".as_bytes()), None);
    // A match may begin or end with a non-word character.
    let p = owned(&["-foo"]);
    let config = Config { word_regexp: true, ..plain(&p, RegexMode::Basic) };
    assert_eq!(matches(&config, b"a -foo"), Some(vec![(2, 6)]));
    assert_eq!(matches(&config, b"a-foo"), None);
}

#[test]
fn word_boundaries_of_characters() {
    let line = "aé-b".as_bytes();
    assert_eq!(left_adjust_char_head(line, 2), 1);
    assert_eq!(left_adjust_char_head(line, 1), 1);
    assert_eq!(left_adjust_char_head(&[0x80, 0x80], 1), 0);
    assert!(!is_word_match(line, 3, 4));
    assert!(is_word_match(line, 4, 5));
    assert!(!is_word_match(line, 0, 1));
    assert!(is_word_match(line, 0, 3));
    assert!(is_word_match(line, 0, line.len()));
    assert!(is_word_match(b"", 0, 0));
}

#[test]
fn inversion_wants_the_other_lines() {
    let p = owned(&["^a"]);
    let config = Config { invert_match: true, ..plain(&p, RegexMode::Basic) };
    assert_eq!(matches(&config, b"ba"), Some(vec![]));
    assert_eq!(matches(&config, b"ab"), None);
}

#[test]
fn leading_repeat_operators_are_dropped_with_a_warning() {
    let p = owned(&["*a", "b", "{2}c", "(", "+d"]);
    let config = plain(&p[..3], RegexMode::Extended);
    let mut warnings = vec!["before".to_string()];
    let matcher =
        Matcher::<CompiledPattern>::compile_with_warnings(&config, &mut warnings).unwrap();
    assert_eq!(
        warnings,
        vec!["before", "* at start of expression", "{...} at start of expression"]
    );
    assert_eq!(matcher.match_line(b"cab"), Some(vec![(0, 1), (1, 2), (2, 3)]));
    // The patterns behind a rejected one draw no warning.
    let config = plain(&p, RegexMode::Extended);
    let mut warnings = Vec::new();
    assert!(Matcher::<CompiledPattern>::compile_with_warnings(&config, &mut warnings).is_err());
    assert_eq!(warnings.len(), 2);
    // In the basic syntax a leading star stands for itself.
    let config = plain(&p[..1], RegexMode::Basic);
    let mut warnings = Vec::new();
    let matcher =
        Matcher::<CompiledPattern>::compile_with_warnings(&config, &mut warnings).unwrap();
    assert!(warnings.is_empty());
    assert_eq!(matcher.match_line(b"a*a"), Some(vec![(1, 3)]));
}

#[test]
fn rejected_patterns_are_reported() {
    assert_eq!(failure("[b-a]", RegexMode::Extended), "Invalid range end");
    assert_eq!(failure("[b-a]", RegexMode::Perl), "Invalid range end");
    assert_eq!(
        failure("(a", RegexMode::Extended),
        "invalid pattern \"(a\": end pattern with unmatched parenthesis"
    );
    // The pattern is shown without the operator that was dropped.
    assert_eq!(
        failure("*(a", RegexMode::Extended),
        "invalid pattern \"(a\": end pattern with unmatched parenthesis"
    );
    let error = EngineError { code: -5, message: "why".to_string() };
    let reported = rejection("p", error);
    assert_eq!((reported.code, reported.message.as_str()), (2, "invalid pattern \"p\": why"));
    let error = EngineError { code: EMPTY_RANGE_IN_CHAR_CLASS, message: "why".to_string() };
    assert_eq!(rejection("p", error).message, "Invalid range end");
}

#[test]
fn searchers_exist_for_plain_patterns_only() {
    let p = owned(&["ing", "ab"]);
    let config = plain(&p, RegexMode::Basic);
    let matcher = Matcher::<CompiledPattern>::compile(&config).unwrap();
    assert_eq!(matcher.literal_searchers().unwrap()[1].needle(), b"ab");
    let p = owned(&["ing", "a.b"]);
    let config = plain(&p, RegexMode::Basic);
    assert!(Matcher::<CompiledPattern>::compile(&config).unwrap().literal_searchers().is_none());
}

#[test]
fn setups() {
    let p = owned(&[]);
    let setup = regex_setup(&plain(&p, RegexMode::Fixed));
    assert_eq!(
        (setup.syntax, setup.operators, setup.behaviors, setup.options),
        (BaseSyntax::AsIs, 0, 0, 0)
    );
    let setup = regex_setup(&Config {
        ignore_case: true,
        null_data: true,
        ..plain(&p, RegexMode::Extended)
    });
    assert_eq!(
        (setup.syntax, setup.operators, setup.behaviors, setup.options),
        (BaseSyntax::GnuRegex, 0x8000_0000_0000, 16, 5)
    );
    let setup = regex_setup(&Config { null_data: true, ..plain(&p, RegexMode::Perl) });
    assert_eq!(
        (setup.syntax, setup.operators, setup.behaviors, setup.options),
        (BaseSyntax::PerlNg, 1 << 63, 16, 0)
    );
    assert_eq!(regex_setup(&plain(&p, RegexMode::Basic)).syntax, BaseSyntax::Grep);
}

#[test]
fn bits_are_those_of_oniguruma() {
    let operator = SyntaxOperator::SYNTAX_OPERATOR_ESC_GNU_BUF_ANCHOR;
    assert_eq!(ESC_GNU_BUF_ANCHOR, operator.bits());
    // The crate defines this one of the second word without the shift.
    let operator = SyntaxOperator::SYNTAX_OPERATOR_QMARK_CAPITAL_P_NAME;
    assert_eq!(QMARK_CAPITAL_P_NAME, operator.bits() << 32);
    let behavior = SyntaxBehavior::SYNTAX_BEHAVIOR_ALLOW_INTERVAL_LOW_ABBREV;
    assert_eq!(ALLOW_INTERVAL_LOW_ABBREV, behavior.bits());
    assert_eq!(OPTION_IGNORECASE, RegexOptions::REGEX_OPTION_IGNORECASE.bits());
    assert_eq!(OPTION_MULTILINE, RegexOptions::REGEX_OPTION_MULTILINE.bits());
    assert_eq!(OPTION_FIND_LONGEST, RegexOptions::REGEX_OPTION_FIND_LONGEST.bits());
    assert_eq!(EMPTY_RANGE_IN_CHAR_CLASS, onig_sys::ONIGERR_EMPTY_RANGE_IN_CHAR_CLASS);
}

#[test]
fn bytes_that_are_no_text_are_searched_too() {
    let p = owned(&["b"]);
    let config = plain(&p, RegexMode::Basic);
    assert_eq!(matches(&config, &[0xff, b'b', 0x80, 0, b'b']), Some(vec![(1, 2), (4, 5)]));
}

#[test]
fn an_engine_that_gives_up_is_reported() {
    let p = owned(&["^(a|a)*c"]);
    let config = plain(&p, RegexMode::Perl);
    let matcher = Matcher::<CompiledPattern>::compile(&config).unwrap();
    let mut line = vec![b'a'; 60];
    line.extend_from_slice(b"!c");
    match matcher.try_match_line(&line) {
        Err(MatchError::Engine(error)) => assert!(error.code < -1 && !error.message.is_empty()),
        other => panic!("{other:?}"),
    }
    assert!(matches!(matcher.try_is_match(&line), Err(MatchError::Engine(_))));
}

#[test]
fn a_search_that_does_not_get_ahead_is_given_up() {
    let p = owned(&["(?<=\\Ka)"]);
    let config = plain(&p, RegexMode::Perl);
    let matcher = Matcher::<CompiledPattern>::compile(&config).unwrap();
    assert!(matches!(matcher.try_match_line(b"a"), Err(MatchError::Stalled)));
    assert_eq!(matcher.try_match_line(b"b").unwrap(), None);
    // A match may start before the place where the search for it began.
    let p = owned(&["(?<=\\Ka)a"]);
    let config = plain(&p, RegexMode::Perl);
    let matcher = Matcher::<CompiledPattern>::compile(&config).unwrap();
    assert_eq!(matches(&config, b"aa"), Some(vec![(0, 2)]));
    assert!(matches!(matcher.try_match_line(b"aaa"), Err(MatchError::Stalled)));
}

#[test]
fn a_search_may_fall_back_and_still_get_ahead() {
    // Matches that look behind themselves, listed one by one until the last of
    // them leaps over all the others.
    let p = owned(&[
        "abcdef|cdefghi|d|(?<=\\Kcd)e|(?<=\\Kde)f|(?<=\\Kef)g",
    ]);
    let config = plain(&p, RegexMode::Perl);
    assert_eq!(matches(&config, b"abcdefghi"), Some(vec![(0, 6), (4, 5), (3, 4), (2, 9)]));
}

#[test]
fn a_match_that_starts_behind_the_line_is_reported() {
    let p = owned(&["\\w\\K"]);
    let config = plain(&p, RegexMode::Perl);
    let matcher = Matcher::<CompiledPattern>::compile(&config).unwrap();
    // A truncated character is taken for as long as its first byte announces.
    assert!(matches!(matcher.try_match_line(&[0xe3]), Err(MatchError::OutOfLine)));
    assert_eq!(matcher.try_is_match(&[0xe3]).unwrap(), Some(vec![]));
    assert_eq!(matcher.try_match_line("\u{e3}".as_bytes()).unwrap(), Some(vec![]));
    let p = owned(&["\\w"]);
    assert_eq!(matches(&plain(&p, RegexMode::Perl), &[0xe3]), Some(vec![(0, 3)]));
}

#[test]
fn both_engines_agree_on_plain_patterns() {
    let lines: [&[u8]; 8] = [
        b"",
        b"abc",
        b"aabcab",
        "\u{e9}abc\u{3042}b".as_bytes(),
        b"xyz",
        &[0x80, b'a', b'b', 0xff, b'b', b'c'],
        &[b'b', b'c', 0xe3],
        b"ab\nbc",
    ];
    for mode in [RegexMode::Fixed, RegexMode::Basic, RegexMode::Extended, RegexMode::Perl] {
        for patterns in [&["ab", "bc", "abc"][..], &["b"][..], &["ca", "a", "b"][..]] {
            let p = owned(patterns);
            for (line_regexp, invert_match, null_data) in [
                (false, false, false),
                (true, false, false),
                (false, true, true),
                (true, true, true),
            ] {
                let config =
                    Config { line_regexp, invert_match, null_data, ..plain(&p, mode) };
                let by_onig = Matcher::<CompiledPattern>::compile(&config).unwrap();
                let by_bytes =
                    Matcher::<grep_match::literal_engine::CompiledPattern>::compile(&config)
                        .unwrap();
                for line in lines {
                    assert_eq!(by_onig.match_line(line), by_bytes.match_line(line));
                    assert_eq!(by_onig.is_match(line), by_bytes.is_match(line));
                    if !line_regexp {
                        let hit = by_onig
                            .literal_searchers()
                            .unwrap()
                            .iter()
                            .any(|searcher| searcher.find(line).is_some());
                        assert_eq!(by_onig.is_match(line).is_some(), hit != invert_match);
                    }
                }
            }
        }
    }
}

#[test]
fn a_truncated_character_hides_no_byte() {
    let p = owned(&["\u{1}"]);
    for mode in [RegexMode::Fixed, RegexMode::Basic, RegexMode::Extended, RegexMode::Perl] {
        let config = plain(&p, mode);
        assert_eq!(matches(&config, &[0xc3, 0xa9, 1]), Some(vec![(2, 3)]));
        assert_eq!(matches(&config, &[0xc3, 1]), Some(vec![(1, 2)]));
        assert_eq!(matches(&config, &[0xc3, 0x41, 1, 1]), Some(vec![(2, 3), (3, 4)]));
        assert_eq!(matches(&config, &[0xc3, 2]), None);
    }
    let p = owned(&["*\u{1}"]);
    let config = plain(&p, RegexMode::Extended);
    assert_eq!(matches(&config, &[0xc3, 1]), Some(vec![(1, 2)]));
}

#[test]
fn what_stands_behind_a_line_makes_no_difference() {
    for pattern in ["\\w\\b", "\\w\\B", "\\w\\>", "\\b", "\\w", "[^a]", "a\\|\\B"] {
        let p = owned(&[pattern]);
        let config = plain(&p, RegexMode::Basic);
        let matcher = Matcher::<CompiledPattern>::compile(&config).unwrap();
        for line in [&[0xc3][..], &[b'a', 0xe9], &[0xf0, 0x90], &[b' ', 0xe3, 0x81]] {
            let outcome = |behind: &[u8]| {
                let buffer = [line, behind].concat();
                let line = &buffer[..line.len()];
                (
                    format!("{:?}", matcher.try_match_line(line)),
                    format!("{:?}", matcher.try_is_match(line)),
                )
            };
            let expected = outcome(b"");
            for behind in [&b"\na"[..], b"\n\n", b"aaaa", b"\xa9\xa9\xa9\xa9", b"\0\0\0\0"] {
                assert_eq!(outcome(behind), expected, "{pattern} in {line:?}");
            }
        }
    }
    // Zero bytes follow a line that ends within a character.
    let p = owned(&["\\w\\b"]);
    let config = plain(&p, RegexMode::Basic);
    assert_eq!(matches(&config, &b"\xc3\na"[..1]), None);
    assert_eq!(matches(&config, b"\xc3\xa9"), Some(vec![(0, 2)]));
}

#[test]
fn a_line_can_be_too_long() {
    let p = owned(&["a"]);
    let pattern = CompiledPattern::compile(&p[0], &plain(&p, RegexMode::Basic)).unwrap();
    let line = vec![0u8; MAX_LINE + 1];
    let error = pattern.search_leftmost(&line, 0).unwrap_err();
    assert_eq!((error.code, error.message.as_str()), (0, "line too long"));
    assert_eq!(pattern.longest_end_at(&line, 1).unwrap_err().code, 0);
    assert!(pattern.is_match(&line).is_err());
    assert_eq!(pattern.longest_end_at(&line, MAX_LINE + 2).unwrap(), None);
}

#[test]
fn filters_work_together() {
    let p = owned(&["a*"]);
    let config = Config { line_regexp: true, word_regexp: true, ..plain(&p, RegexMode::Basic) };
    assert_eq!(matches(&config, b"aaa"), Some(vec![(0, 3)]));
    assert_eq!(matches(&config, b"aab"), None);
    // An empty match beside a word character does not count under `-w`.
    let config = Config { line_regexp: false, ..config };
    assert_eq!(matches(&config, b"b"), None);
    assert_eq!(matches(&config, b"b -"), Some(vec![]));
    let config = Config { invert_match: true, ..config };
    assert_eq!(matches(&config, b"b"), Some(vec![]));
    assert_eq!(matches(&config, b"b -"), None);
}

#[test]
fn no_patterns_are_searched_for() {
    let p = owned(&[]);
    let config = plain(&p, RegexMode::Perl);
    assert_eq!(matches(&config, b"abc"), None);
    assert_eq!(matches(&Config { invert_match: true, ..config }, b"abc"), Some(vec![]));
}

#[test]
fn plain_patterns_are_found_by_bytes() {
    let p = owned(&["hello"]);
    let config = plain(&p, RegexMode::Basic);
    assert_eq!(matches(&config, b"a\xe9 hello"), Some(vec![(3, 8)]));
    assert_eq!(matches(&config, b"a\xe9 help"), None);
    // Texts of all shapes, behind truncated characters of all lengths.
    let heads: [&[u8]; 8] = [
        b"",
        &[0xc3],
        &[0xe3],
        &[0xe3, 0x81],
        &[0xf0],
        &[0xf0, 0x90],
        &[0xf0, 0x90, 0x80],
        &[b'x', 0xe3],
    ];
    for first in 0u8..128 {
        for rest in [&b""[..], b"a", b"\x01", b"ab", b"\x01\x7f", b"abc", b"\x01\x02\x03"] {
            let mut text = vec![first];
            text.extend_from_slice(rest);
            let p = vec![String::from_utf8(text.clone()).unwrap()];
            let config = plain(&p, RegexMode::Fixed);
            let by_onig = Matcher::<CompiledPattern>::compile(&config).unwrap();
            let by_bytes =
                Matcher::<grep_match::literal_engine::CompiledPattern>::compile(&config).unwrap();
            for head in heads {
                for tail in [&b""[..], b"zz", &[0xe3]] {
                    let line = [head, &text[..], tail].concat();
                    assert_eq!(by_onig.match_line(&line), by_bytes.match_line(&line), "{line:?}");
                    assert_eq!(by_onig.is_match(&line), Some(vec![]), "{line:?}");
                }
                assert_eq!(by_onig.match_line(head), by_bytes.match_line(head), "{head:?}");
            }
        }
    }
}

#[test]
fn order_and_repetition_make_no_difference() {
    let lines: [&[u8]; 6] = [b"", b"abcab", b"xxabxb", b"ba", b"axxb", b"cab"];
    for (p, q) in [
        (&["a", "ab", "b*"][..], &["b*", "ab", "a", "ab", "b*"][..]),
        (&["", "x+"][..], &["x+", "", "", "x+"][..]),
        (&["c?", "ab|b"][..], &["ab|b", "c?"][..]),
    ] {
        let (p, q) = (owned(p), owned(q));
        for (line_regexp, word_regexp, invert_match) in [
            (false, false, false),
            (true, false, false),
            (false, true, false),
            (false, true, true),
        ] {
            let filtered =
                Config { line_regexp, word_regexp, invert_match, ..plain(&p, RegexMode::Extended) };
            for line in lines {
                let other = Config { patterns: &q, ..filtered };
                assert_eq!(matches(&filtered, line), matches(&other, line));
            }
        }
    }
}

#[test]
fn repetition_can_matter_where_searches_go_back() {
    let pattern = "abcd\\K|(?<=\\Kcd)|(?<=\\Kde)f|c|defg\\Kh";
    let p = owned(&[pattern]);
    assert_eq!(
        matches(&plain(&p, RegexMode::Perl), b"abcdefghi"),
        Some(vec![(2, 3), (7, 8)])
    );
    let p = owned(&[pattern, pattern]);
    assert_eq!(
        matches(&plain(&p, RegexMode::Perl), b"abcdefghi"),
        Some(vec![(2, 3), (2, 3), (7, 8)])
    );
}

#[test]
fn joined_lists_match_either() {
    let (p, q, both) = (owned(&["ab", "x$"]), owned(&["^c"]), owned(&["ab", "x$", "^c"]));
    for line in [&b"ab"[..], b"cx", b"zx", b"cd", b"dc", b""] {
        let hit = |patterns: &[String]| {
            matches(&plain(patterns, RegexMode::Basic), line).is_some()
        };
        assert_eq!(hit(&both), hit(&p) || hit(&q));
    }
}

#[test]
fn inverted_searches_want_the_other_lines_and_highlight_nothing() {
    let p = owned(&["a", "b*$"]);
    for (line_regexp, word_regexp) in [(false, false), (true, false), (false, true)] {
        let config = Config { line_regexp, word_regexp, ..plain(&p, RegexMode::Basic) };
        for line in [&b"a"[..], b"xa", b"bb", b"c", b"", b"a b"] {
            let inverted = matches(&Config { invert_match: true, ..config }, line);
            assert_eq!(inverted, matches(&config, line).is_none().then_some(vec![]));
        }
    }
}

#[test]
fn matches_are_bounded_by_the_line() {
    let p = owned(&["", "x*", "b?", "$"]);
    for line in [&b""[..], b"a", b"bxxb", b"xbx"] {
        let patterns: Vec<CompiledPattern> = p
            .iter()
            .map(|text| CompiledPattern::compile(text, &plain(&p, RegexMode::Extended)).unwrap())
            .collect();
        let spans = grep_match::listing::all_matches(&patterns, line).unwrap();
        assert!(spans.len() <= p.len() * (line.len() + 1));
        assert!(spans.windows(2).all(|pair| pair[0].1 <= pair[1].0));
    }
}

#[test]
fn an_exhausted_search_stays_exhausted() {
    let p = owned(&["a", "b"]);
    let config = plain(&p, RegexMode::Basic);
    let patterns: Vec<CompiledPattern> =
        p.iter().map(|text| CompiledPattern::compile(text, &config).unwrap()).collect();
    let mut iter = grep_match::merge::MatchIter::new(&patterns, b"cba").unwrap();
    assert_eq!(iter.next().unwrap(), Some((1, 2)));
    assert_eq!(iter.next().unwrap(), Some((2, 3)));
    for _ in 0..3 {
        assert_eq!(iter.next().unwrap(), None);
    }
}

#[test]
fn no_match_starts_behind_the_line() {
    let p = owned(&["a*"]);
    let pattern = CompiledPattern::compile(&p[0], &plain(&p, RegexMode::Basic)).unwrap();
    assert_eq!(pattern.longest_end_at(b"aab", 0).unwrap(), Some(2));
    assert_eq!(pattern.longest_end_at(b"aab", 3).unwrap(), Some(3));
    assert_eq!(pattern.longest_end_at(b"aab", 4).unwrap(), None);
}

#[test]
fn several_characters_fold_unless_case_is_ignored() {
    let multi_char = onig_sys::INTERNAL_ONIGENC_CASE_FOLD_MULTI_CHAR;
    assert_eq!(case_fold_flags(multi_char | 5, multi_char, true), 5);
    assert_eq!(case_fold_flags(multi_char | 5, multi_char, false), multi_char | 5);
    assert_eq!(case_fold_flags(5, multi_char, true), 5);
}
