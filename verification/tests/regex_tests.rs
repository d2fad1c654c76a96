use cfg_cyk::regex::Regex;

#[test]
fn matches_single_char() {
    let regex = Regex::new("1");
    assert_eq!(regex.test("1"), true);
}

#[test]
fn does_not_match_single_char() {
    let regex = Regex::new("1");
    assert_eq!(regex.test("0"), false);
}

#[test]
fn matches_multiple_chars() {
    let regex = Regex::new("12");
    assert_eq!(regex.test("12"), true);
}

#[test]
fn matches_multiple_chars2() {
    let regex = Regex::new("123");
    assert_eq!(regex.test("123"), true);
}

#[test]
fn matches_inside_longer_string() {
    let regex = Regex::new("12");
    assert_eq!(regex.test("0123"), true);
}

#[test]
fn empty_string_never_matches() {
    let regex = Regex::new("1");
    assert_eq!(regex.test(""), false);
}

#[test]
fn short_prefix_does_not_match() {
    let regex = Regex::new("123");
    assert_eq!(regex.test("12"), false);
}
