use wildcard::i18n::{
    decimal_string, format_count, format_count_with, freplace, gettext_f, ngettext_f, replace_str,
};

#[test]
fn test_gettext_f() {
    let out = gettext_f("{one} param", &[("one", "one")]);
    assert_eq!(out, "one param");

    let out = gettext_f("middle {one} param", &[("one", "one")]);
    assert_eq!(out, "middle one param");

    let out = gettext_f("end {one}", &[("one", "one")]);
    assert_eq!(out, "end one");

    let out = gettext_f("multiple {one} and {two}", &[("one", "1"), ("two", "two")]);
    assert_eq!(out, "multiple 1 and two");

    let out = gettext_f("multiple {two} and {one}", &[("one", "1"), ("two", "two")]);
    assert_eq!(out, "multiple two and 1");

    let out = gettext_f("multiple {one} and {one}", &[("one", "1"), ("two", "two")]);
    assert_eq!(out, "multiple 1 and 1");

    let out = ngettext_f(
        "singular {one} and {two}",
        "plural {one} and {two}",
        1,
        &[("one", "1"), ("two", "two")],
    );
    assert_eq!(out, "singular 1 and two");
    let out = ngettext_f(
        "singular {one} and {two}",
        "plural {one} and {two}",
        2,
        &[("one", "1"), ("two", "two")],
    );
    assert_eq!(out, "plural 1 and two");
}

#[test]
fn substitution_of_distinct_names_in_either_order() {
    let args = [("a", "1"), ("b", "2")];
    assert_eq!(freplace("{a} and {b}".to_string(), &args), "1 and 2");
    assert_eq!(freplace("{b} and {a}".to_string(), &args), "2 and 1");
    let swapped = [("b", "2"), ("a", "1")];
    assert_eq!(freplace("{a} and {b}".to_string(), &swapped), "1 and 2");
}

#[test]
fn substitution_applied_twice_changes_nothing_more() {
    let args = [("a", "1"), ("b", "2")];
    let once = freplace("{a} and {b} and {a}".to_string(), &args);
    let twice = freplace(once.clone(), &args);
    assert_eq!(once, "1 and 2 and 1");
    assert_eq!(twice, once);
}

#[test]
fn substitution_leaves_unknown_and_unclosed_names() {
    let args = [("a", "1")];
    assert_eq!(freplace("{b} {a {a}".to_string(), &args), "{b} {a 1");
    assert_eq!(freplace(String::new(), &args), "");
    assert_eq!(freplace("{a}".to_string(), &[]), "{a}");
}

#[test]
fn replacement_is_left_to_right_and_non_overlapping() {
    assert_eq!(replace_str("aaaa", "aa", "b"), "bb");
    assert_eq!(replace_str("aaa", "aa", "b"), "ba");
    assert_eq!(replace_str("xyz", "xyzw", "b"), "xyz");
    assert_eq!(replace_str("ééx", "é", "e"), "eex");
    assert_eq!(replace_str("abc", "b", ""), "ac");
}

#[test]
fn decimal_forms() {
    assert_eq!(decimal_string(0), "0");
    assert_eq!(decimal_string(7), "7");
    assert_eq!(decimal_string(10), "10");
    assert_eq!(decimal_string(1203), "1203");
    assert_eq!(decimal_string(usize::MAX), usize::MAX.to_string());
}

#[test]
fn count_template_is_filled() {
    assert_eq!(format_count_with("{matches} matches", 21), "21 matches");
    assert_eq!(format_count_with("{matches}/{matches}", 3), "3/3");
    assert_eq!(format_count_with("none", 3), "none");
}

#[test]
fn count_message_plural_forms() {
    assert_eq!(format_count(1), "1 match");
    assert_eq!(format_count(2), "2 matches");
    assert_eq!(format_count(5), "5 matches");
    assert_eq!(format_count(21), "21 matches");
}
