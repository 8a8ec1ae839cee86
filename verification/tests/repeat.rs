use grep_match::repeat::{strip_leading_interval_repeat, strip_leading_repeat_operator};

#[test]
fn single_character_operators_are_split_off() {
    assert_eq!(strip_leading_repeat_operator("?a"), Some(("?", "a")));
    assert_eq!(strip_leading_repeat_operator("*a"), Some(("*", "a")));
    assert_eq!(strip_leading_repeat_operator("+a"), Some(("+", "a")));
    assert_eq!(strip_leading_repeat_operator("*"), Some(("*", "")));
    // Only one operator goes.
    assert_eq!(strip_leading_repeat_operator("**é"), Some(("*", "*é")));
}

#[test]
fn intervals_are_split_off() {
    assert_eq!(strip_leading_repeat_operator("{2}a"), Some(("{...}", "a")));
    assert_eq!(strip_leading_repeat_operator("{2,}"), Some(("{...}", "")));
    assert_eq!(strip_leading_repeat_operator("{,3}é}"), Some(("{...}", "é}")));
    assert_eq!(strip_leading_interval_repeat("{1,2,3}x"), Some("x"));
}

#[test]
fn what_is_no_interval_stays() {
    for p in ["", "a*", "{}", "{,}a", "{a}", "{2", "{2a}", "{é}", "}2", "é*"] {
        assert_eq!(strip_leading_repeat_operator(p), None, "{p}");
    }
    assert_eq!(strip_leading_interval_repeat("{"), None);
    assert_eq!(strip_leading_interval_repeat("{-1}"), None);
    assert_eq!(strip_leading_interval_repeat(""), None);
    assert_eq!(strip_leading_interval_repeat("é"), None);
}
