use grep_match::{plain_literal, RegexMode};

fn lit(p: &str, ic: bool, mode: RegexMode) -> Option<Vec<u8>> {
    plain_literal(p, ic, mode)
}

#[test]
fn fixed_mode_takes_any_ascii_verbatim() {
    // Under -F every byte is literal, even regex metacharacters.
    assert_eq!(lit("abc", false, RegexMode::Fixed), Some(b"abc".to_vec()));
    assert_eq!(lit("a.*b", false, RegexMode::Fixed), Some(b"a.*b".to_vec()));
    assert_eq!(lit("a+b", false, RegexMode::Fixed), Some(b"a+b".to_vec()));
}

#[test]
fn regex_modes_accept_metacharacter_free_literals() {
    for mode in [RegexMode::Basic, RegexMode::Extended, RegexMode::Perl] {
        assert_eq!(lit("ing", false, mode), Some(b"ing".to_vec()));
        assert_eq!(lit("Hello123", false, mode), Some(b"Hello123".to_vec()));
    }
}

#[test]
fn regex_modes_reject_anything_with_a_metacharacter() {
    for mode in [RegexMode::Basic, RegexMode::Extended, RegexMode::Perl] {
        for p in [
            "a.b", "a*", "[ab]", "^a", "a$", "a\\b", "a+", "a?", "(a)", "a|b", "a{2}",
        ] {
            assert_eq!(lit(p, false, mode), None, "pattern {p:?} in {mode:?}");
        }
    }
}

#[test]
fn rejects_empty_case_insensitive_and_non_ascii() {
    assert_eq!(lit("", false, RegexMode::Fixed), None);
    assert_eq!(lit("abc", true, RegexMode::Fixed), None); // -i
    assert_eq!(lit("abc", true, RegexMode::Basic), None);
    assert_eq!(lit("café", false, RegexMode::Fixed), None); // non-ASCII
    assert_eq!(lit("naïve", false, RegexMode::Basic), None);
}

#[test]
fn every_metacharacter_alone_is_rejected_but_as_fixed_text() {
    for c in [".", "*", "[", "]", "^", "$", "\\", "+", "?", "{", "}", "(", ")", "|"] {
        assert_eq!(lit(c, false, RegexMode::Basic), None, "{c}");
        assert_eq!(lit(c, false, RegexMode::Fixed), Some(c.as_bytes().to_vec()), "{c}");
    }
    for c in ["-", ",", "/", " ", "_", "\n", "~", "\u{7f}"] {
        assert_eq!(lit(c, false, RegexMode::Perl), Some(c.as_bytes().to_vec()), "{c:?}");
    }
}
