use grep_match::literal_engine::{is_word_match, CompiledPattern};
use grep_match::{Config, Engine, Matcher, RegexMode, Span};

fn owned(patterns: &[&str]) -> Vec<String> {
    patterns.iter().map(|p| p.to_string()).collect()
}

fn fixed(patterns: &[String]) -> Config<'_> {
    Config {
        patterns,
        regex_mode: RegexMode::Fixed,
        ignore_case: false,
        null_data: false,
        line_regexp: false,
        word_regexp: false,
        invert_match: false,
    }
}

fn matches(config: &Config, line: &[u8]) -> Option<Vec<Span>> {
    let matcher = Matcher::<CompiledPattern>::compile(config).unwrap();
    let positions = matcher.match_line(line);
    assert_eq!(matcher.try_match_line(line).unwrap(), positions);
    assert_eq!(matcher.is_match(line), positions.as_ref().map(|_| Vec::new()));
    assert_eq!(matcher.try_is_match(line).unwrap(), matcher.is_match(line));
    positions
}

#[test]
fn all_occurrences_are_listed_without_overlap() {
    let p = owned(&["aa"]);
    assert_eq!(matches(&fixed(&p), b"aaaaa b aa"), Some(vec![(0, 2), (2, 4), (8, 10)]));
    assert_eq!(matches(&fixed(&p), b"a b a"), None);
    assert_eq!(matches(&fixed(&p), b""), None);
}

#[test]
fn leftmost_longest_holds_across_patterns() {
    let p = owned(&["a", "ab"]);
    assert_eq!(matches(&fixed(&p), b"ab"), Some(vec![(0, 2)]));
    let p = owned(&["bcd", "abc", "d"]);
    // `abc` comes first, and `bcd` overlaps it.
    assert_eq!(matches(&fixed(&p), b"abcd"), Some(vec![(0, 3), (3, 4)]));
    let p = owned(&["ab", "ab", "b"]);
    assert_eq!(matches(&fixed(&p), b"abb"), Some(vec![(0, 2), (2, 3)]));
}

#[test]
fn a_match_hidden_by_a_longer_one_is_found_again_later() {
    let p = owned(&["abcd", "bc", "cx"]);
    assert_eq!(matches(&fixed(&p), b"abcdbcx"), Some(vec![(0, 4), (4, 6)]));
}

#[test]
fn whole_line_only() {
    let p = owned(&["b", "ab", "abc"]);
    let config = Config { line_regexp: true, ..fixed(&p) };
    assert_eq!(matches(&config, b"abc"), Some(vec![(0, 3)]));
    assert_eq!(matches(&config, b"ab"), Some(vec![(0, 2)]));
    assert_eq!(matches(&config, b"abx"), None);
    assert_eq!(matches(&config, b""), None);
}

#[test]
fn words_only() {
    let p = owned(&["foo"]);
    let config = Config { word_regexp: true, ..fixed(&p) };
    assert_eq!(matches(&config, b"foo"), Some(vec![(0, 3)]));
    assert_eq!(matches(&config, b"foobar foo, _foo"), Some(vec![(7, 10)]));
    assert_eq!(matches(&config, b"foo1"), None);
    assert_eq!(matches(&config, b"Zfoo"), None);
    // The check is ASCII-only.
    assert_eq!(matches(&config, "éfoo".as_bytes()), Some(vec![(2, 5)]));
}

#[test]
fn inverted_literals_want_the_other_lines() {
    let p = owned(&["x"]);
    let config = Config { invert_match: true, ..fixed(&p) };
    assert_eq!(matches(&config, b"abc"), Some(vec![]));
    assert_eq!(matches(&config, b"axc"), None);
    // Under `-w` a match that does not count leaves the line wanted.
    let config = Config { word_regexp: true, ..config };
    assert_eq!(matches(&config, b"axc"), Some(vec![]));
    assert_eq!(matches(&config, b"a x c"), None);
}

#[test]
fn no_patterns_match_nothing() {
    let p = owned(&[]);
    let config = fixed(&p);
    assert_eq!(matches(&config, b"abc"), None);
    assert!(Matcher::<CompiledPattern>::compile(&config).unwrap().literal_searchers().is_none());
    let config = Config { invert_match: true, ..config };
    assert_eq!(matches(&config, b"abc"), Some(vec![]));
}

#[test]
fn searchers_look_for_the_patterns() {
    let p = owned(&["foo", "a.b"]);
    let config = fixed(&p);
    let matcher = Matcher::<CompiledPattern>::compile(&config).unwrap();
    let searchers = matcher.literal_searchers().unwrap();
    assert_eq!(searchers.len(), 2);
    assert_eq!(searchers[0].needle(), b"foo");
    assert_eq!(searchers[1].needle(), b"a.b");
    assert_eq!(searchers[1].find(b"axb a.b"), Some(4));
}

#[test]
fn what_needs_a_regex_is_rejected() {
    let p = owned(&["abc", "a.b", "caf\u{e9}"]);
    let config = Config { regex_mode: RegexMode::Basic, ..fixed(&p) };
    let mut warnings = Vec::new();
    let error =
        Matcher::<CompiledPattern>::compile_with_warnings(&config, &mut warnings).err().unwrap();
    assert_eq!(error.code, 2);
    assert_eq!(
        error.message,
        "this build supports ASCII literal patterns only; rebuild with the `oniguruma` feature for full regex support"
    );
    assert!(warnings.is_empty());
    let config = Config { ignore_case: true, ..fixed(&p[..1]) };
    assert_eq!(Matcher::<CompiledPattern>::compile(&config).err().unwrap().code, 2);
}

#[test]
fn word_boundaries() {
    assert!(is_word_match(b"foo", 0, 3));
    assert!(!is_word_match(b"foo", 0, 2));
    assert!(!is_word_match(b"foo", 1, 3));
    assert!(is_word_match(b" foo-", 1, 4));
    assert!(!is_word_match(b"0foo", 1, 4));
    assert!(!is_word_match(b"foo_", 0, 3));
    assert!(is_word_match(b"@A[", 2, 2) == false);
    assert!(is_word_match(b"`{", 1, 1));
}

#[test]
fn literals_are_found_among_bytes_that_are_no_text() {
    let p = owned(&["b"]);
    assert_eq!(matches(&fixed(&p), &[0xff, b'b', 0x80, 0, b'b']), Some(vec![(1, 2), (4, 5)]));
}

#[test]
fn longest_end_is_that_of_the_literal() {
    let p = owned(&["ab"]);
    let pattern = CompiledPattern::compile(&p[0], &fixed(&p)).unwrap();
    assert_eq!(pattern.longest_end_at(b"xab", 1).unwrap(), Some(3));
    assert_eq!(pattern.longest_end_at(b"xab", 0).unwrap(), None);
    assert_eq!(pattern.longest_end_at(b"xab", 2).unwrap(), None);
    assert_eq!(pattern.longest_end_at(b"xab", 3).unwrap(), None);
    assert_eq!(pattern.longest_end_at(b"xab", 4).unwrap(), None);
    assert_eq!(pattern.longest_end_at(b"xab", usize::MAX).unwrap(), None);
}

#[test]
fn literals_are_a_set() {
    let (p, q) = (owned(&["a", "ab", "b"]), owned(&["b", "ab", "b", "a"]));
    for line in [&b"abab"[..], b"bba", b"", b"cab"] {
        assert_eq!(matches(&fixed(&p), line), matches(&fixed(&q), line));
    }
}
