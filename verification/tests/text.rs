use jenkins_plugin_graph::natural::{
    check_numeral, compare_digits, decimal_chars, digits_of_codes, digits_of_numeral, parse_decimal,
};
use jenkins_plugin_graph::order::Order;
use jenkins_plugin_graph::store::expand_home;
use jenkins_plugin_graph::text::{
    chars_of, compare_text, cut_after, cut_before, find_in, has_prefix, join_text, matches_at,
    replace_text, slice_of, split_text, string_of,
};

fn c(text: &str) -> Vec<char> {
    chars_of(text)
}

fn s(parts: &[Vec<char>]) -> Vec<String> {
    parts.iter().map(string_of).collect()
}

#[test]
fn characters_and_back() {
    assert_eq!(c("a\u{e9}z"), vec!['a', '\u{e9}', 'z']);
    assert_eq!(string_of(&vec!['a', '\u{1F600}']), "a\u{1F600}");
    assert_eq!(string_of(&slice_of(&c("abcdef"), 2, 4)), "cd");
}

#[test]
fn find_gives_the_first_place_or_the_length() {
    assert_eq!(find_in(&c("a.v.v"), &c(".v"), 0), 1);
    assert_eq!(find_in(&c("a.v.v"), &c(".v"), 2), 3);
    assert_eq!(find_in(&c("a.v.v"), &c(".v"), 4), 5);
    assert_eq!(find_in(&c("abc"), &c("x"), 0), 3);
    assert_eq!(find_in(&c("abc"), &c("abcd"), 0), 3);
    assert_eq!(find_in(&c(""), &c("x"), 0), 0);
    assert!(matches_at(&c("abc"), &c("bc"), 1));
    assert!(!matches_at(&c("abc"), &c("bc"), 2));
    assert!(has_prefix(&c("Plugin-Dependencies: x"), &c("Plugin-Dependencies:")));
    assert!(!has_prefix(&c("Plugin"), &c("Plugin-Dependencies:")));
}

#[test]
fn cut_at_the_first_occurrence() {
    assert_eq!(string_of(&cut_before(&c("1.0-2-3"), &c("-"))), "1.0");
    assert_eq!(string_of(&cut_after(&c("1.0-2-3"), &c("-")).unwrap()), "2-3");
    assert_eq!(string_of(&cut_before(&c("1.0"), &c("-"))), "1.0");
    assert!(cut_after(&c("1.0"), &c("-")).is_none());
    assert_eq!(string_of(&cut_after(&c("1.0-"), &c("-")).unwrap()), "");
}

#[test]
fn split_and_join() {
    assert_eq!(s(&split_text(&c("a,b,,c"), &c(","))), vec!["a", "b", "", "c"]);
    assert_eq!(s(&split_text(&c(""), &c(","))), vec![""]);
    assert_eq!(s(&split_text(&c(","), &c(","))), vec!["", ""]);
    assert_eq!(s(&split_text(&c("aXXXb"), &c("XX"))), vec!["a", "Xb"]);
    let parts = split_text(&c("1.20.3"), &c("."));
    assert_eq!(string_of(&join_text(&parts, &c("."))), "1.20.3");
    assert_eq!(string_of(&join_text(&parts, &c("--"))), "1--20--3");
    assert_eq!(string_of(&join_text(&Vec::new(), &c("."))), "");
}

#[test]
fn replace_every_occurrence() {
    assert_eq!(string_of(&replace_text(&c("a\r\nb\r"), &c("\r"), &c(""))), "a\nb");
    assert_eq!(string_of(&replace_text(&c("aaa"), &c("aa"), &c("b"))), "ba");
    assert_eq!(string_of(&replace_text(&c("abc"), &c("x"), &c("y"))), "abc");
}

#[test]
fn home_is_put_into_the_cache_directory() {
    assert_eq!(
        expand_home("$HOME/.cache/jenkins-plugin-graph", "/home/me"),
        "/home/me/.cache/jenkins-plugin-graph"
    );
    assert_eq!(expand_home("/var/cache", "/home/me"), "/var/cache");
    assert_eq!(expand_home("$HOME/$HOME", "/h"), "/h//h");
}

#[test]
fn texts_compare_by_their_characters() {
    assert_eq!(compare_text(&c("abc"), &c("abd")), Order::Less);
    assert_eq!(compare_text(&c("ab"), &c("abc")), Order::Less);
    assert_eq!(compare_text(&c("b"), &c("abc")), Order::Greater);
    assert_eq!(compare_text(&c("B"), &c("a")), Order::Less);
    assert_eq!(compare_text(&c(""), &c("")), Order::Equal);
    assert_eq!(compare_text(&c("z"), &c("\u{e9}")), Order::Less);
}

#[test]
fn decimal_numerals() {
    assert!(check_numeral(&c("0123")));
    assert!(!check_numeral(&c("")));
    assert!(!check_numeral(&c("12a")));
    assert!(!check_numeral(&c("-1")));
    assert_eq!(parse_decimal(&c("0042")), Some(42));
    assert_eq!(parse_decimal(&c("0")), Some(0));
    assert_eq!(parse_decimal(&c("")), None);
    assert_eq!(parse_decimal(&c("4 2")), None);
    assert_eq!(parse_decimal(&c("340282366920938463463374607431768211456")), None);
    assert_eq!(string_of(&decimal_chars(0)), "0");
    assert_eq!(string_of(&decimal_chars(9070)), "9070");
    assert_eq!(digits_of_numeral(&c("9070")), vec![0, 7, 0, 9]);
}

#[test]
fn digits_of_a_code_value() {
    // 'a' is 97: 1 + 8 * (4 + 8 * 1).
    assert_eq!(digits_of_codes(&c("a")), vec![1, 4, 1]);
    // 97 + 8 * 98 = 881: 1 + 8 * (6 + 8 * (5 + 8 * 1)).
    assert_eq!(digits_of_codes(&c("ab")), vec![1, 6, 5, 1]);
    assert_eq!(digits_of_codes(&c("")), Vec::<u8>::new());
    assert_eq!(digits_of_codes(&c("\u{0}")), vec![0]);
}

#[test]
fn digit_vectors_compare_as_numbers() {
    assert_eq!(compare_digits(&vec![9, 9], &vec![0, 0, 1], 10), Order::Less);
    assert_eq!(compare_digits(&vec![1, 0, 0], &vec![1], 10), Order::Equal);
    assert_eq!(compare_digits(&vec![], &vec![0], 8), Order::Equal);
    assert_eq!(compare_digits(&vec![7, 1], &vec![0, 1], 8), Order::Greater);
}
