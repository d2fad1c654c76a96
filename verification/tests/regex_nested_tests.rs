use cfg_cyk::regex::parser::{parse_regex, RegexParseError};
use cfg_cyk::regex::regex::Regex;

fn compiled(pattern: &str) -> Regex {
    Regex::new(pattern).expect("pattern should parse")
}

#[test]
fn nested_matches_single_char() {
    assert_eq!(compiled("1").test("1"), true);
}

#[test]
fn nested_does_not_match_single_char() {
    assert_eq!(compiled("1").test("0"), false);
}

#[test]
fn nested_matches_multiple_chars() {
    assert_eq!(compiled("123").test("123"), true);
}

#[test]
fn matches_range_of_chars2() {
    assert_eq!(compiled("1{2,4}").test("11"), true);
}

#[test]
fn matches_range_of_chars3() {
    assert_eq!(compiled("1{2,4}").test("111"), true);
}

#[test]
fn matches_range_of_chars5() {
    assert_eq!(compiled("1{2,4}").test("11111"), true);
}

#[test]
fn matches_slice() {
    assert_eq!(compiled("1{2,2}").test("3113"), true);
}

#[test]
fn too_few_repetitions() {
    assert_eq!(compiled("1{2,4}").test("1"), false);
}

#[test]
fn any_amount_accepts_zero() {
    assert_eq!(compiled("a*b").test("b"), true);
    assert_eq!(compiled("a*b").test("aaab"), true);
}

#[test]
fn at_least_one_needs_one() {
    assert_eq!(compiled("a+b").test("b"), false);
    assert_eq!(compiled("a+b").test("ab"), true);
}

#[test]
fn optional_takes_zero_or_one() {
    assert_eq!(compiled("a?b").test("b"), true);
    assert_eq!(compiled("a?b").test("ab"), true);
}

#[test]
fn character_class_selects_any_member() {
    let re = compiled("[ab]+c");
    assert_eq!(re.test("bac"), true);
    assert_eq!(re.test("c"), false);
    assert_eq!(re.test("ddc"), false);
}

#[test]
fn parse_error_unterminated_class() {
    assert!(matches!(
        parse_regex("[ab"),
        Err(RegexParseError::UnterminatedClass { .. })
    ));
}

#[test]
fn parse_error_unterminated_repetition() {
    assert!(matches!(
        parse_regex("a{2"),
        Err(RegexParseError::BadRepetition { .. })
    ));
}

#[test]
fn parse_error_empty_repetition_count() {
    assert!(matches!(
        parse_regex("a{,2}"),
        Err(RegexParseError::BadRepetition { .. })
    ));
}

#[test]
fn parse_accepts_full_syntax() {
    assert!(parse_regex("a[bc]*d{1,3}e?f+").is_ok());
}
