use std::cmp::Ordering;
use workpool::compare::cmp;
use workpool::regex::{parse_pattern, regex_match, Token};

#[test]
fn compare_words_cases() {
    assert_eq!(cmp("abc", "a"), Ordering::Greater);
    assert_eq!(cmp("abc", "aabc"), Ordering::Greater);
    assert_eq!(cmp("def", "abc"), Ordering::Greater);
    assert_eq!(cmp("aaa", "bbb"), Ordering::Less);
    assert_eq!(cmp("abc", "abc"), Ordering::Equal);
    assert_eq!(cmp("a", "abc"), Ordering::Less);
    assert_eq!(cmp("", ""), Ordering::Equal);
    assert_eq!(cmp("", "x"), Ordering::Less);
    assert_eq!(cmp("x", ""), Ordering::Greater);
}

#[test]
fn regex_matcher_cases() {
    let tests = vec![
        ("abc", "abc", true),
        ("abc", "abcd", true),
        ("abc", "zabc", true),
        ("^abc", "abcd", true),
        ("^abc", "zabc", false),
        ("abc$", "zabc", true),
        ("abc$", "abcd", false),
        ("a.c", "abc", true),
        ("a.c", "adc", true),
        ("a.c", "ac", false),
        ("a*", "", true),
        ("a*", "aaa", true),
        ("a*b", "aaaab", true),
        ("a*b", "b", true),
        ("a+b", "ab", true),
        ("a+b", "aaaab", true),
        ("a+b", "b", false),
        ("a?b", "ab", true),
        ("a?b", "b", true),
        ("a?b", "aab", true),
        (".*", "anything", true),
        ("^h.*o$", "hello", true),
        ("^h.*o$", "hi there yo", true),
    ];

    for (pattern, text, expected) in tests {
        assert_eq!(
            regex_match(pattern, text),
            expected,
            "pattern {:?} against {:?}",
            pattern,
            text
        );
    }
}

#[test]
fn parse_pattern_wraps_postfix_operators() {
    let tokens = parse_pattern("ab*");
    assert_eq!(tokens.len(), 2);
    assert!(matches!(tokens[0], Token::Literal('a')));
    assert!(matches!(&tokens[1], Token::Star(inner) if matches!(**inner, Token::Literal('b'))));
}

#[test]
fn parse_pattern_leading_operator_is_a_literal() {
    let tokens = parse_pattern("*a");
    assert_eq!(tokens.len(), 2);
    assert!(matches!(tokens[0], Token::Literal('*')));
    assert!(matches!(tokens[1], Token::Literal('a')));
}
