use cfg_cyk::cfg::{GrammarParseError, CFG};

fn toks(s: &str) -> Vec<String> {
    s.chars().map(|c| c.to_string()).collect()
}

fn grammar(text: &str) -> CFG {
    CFG::new(text).expect("grammar should parse")
}

#[test]
fn identifies_true() {
    let cfg = grammar("S -> a");
    assert_eq!(cfg.test(&toks("a")), true);
}

#[test]
fn identifies_false() {
    let cfg = grammar("S -> a");
    assert_eq!(cfg.test(&toks("b")), false);
}

#[test]
fn identifies_true_with_epsilon() {
    let cfg = grammar("S -> a | #");
    assert_eq!(cfg.test(&toks("a")), true);
}

#[test]
fn empty_input_is_false() {
    let cfg = grammar("S -> a | #");
    assert_eq!(cfg.test(&toks("")), false);
}

#[test]
fn identifies_true_with_multiple_rules() {
    let cfg = grammar("S -> a \nS -> b");
    assert_eq!(cfg.test(&toks("b")), true);
}

#[test]
fn applies_multiple_rules() {
    let cfg = grammar("S -> A B \nA -> a \nB -> b");
    assert_eq!(cfg.test(&toks("ab")), true);
}

#[test]
fn applies_multiple_rules_in_order() {
    let cfg = grammar("S -> A B \nA -> a \nB -> b");
    assert_eq!(cfg.test(&toks("ba")), false);
}

#[test]
fn applies_multiple_rules_in_order_with_epsilon() {
    let cfg = grammar("S -> A B \nA -> a | # \nB -> b");
    assert_eq!(cfg.test(&toks("b")), true);
}

#[test]
fn epsilon_variant_keeps_full_form() {
    let cfg = grammar("S -> A B \nA -> a | # \nB -> b");
    assert_eq!(cfg.test(&toks("ab")), true);
}

#[test]
fn zeroes_then_ones() {
    let cfg = grammar("S -> 0 S 1 | #");
    assert!(cfg.test(&toks("01")));
    assert!(cfg.test(&toks("0011")));
    assert!(cfg.test(&toks("000111")));
    assert!(!cfg.test(&toks("0000111")));
}

#[test]
fn test_zeroes_then_ones() {
    let cfg = grammar("S -> 0 S 1 | #");
    assert!(cfg.test(&toks("01")));
    assert!(cfg.test(&toks("0011")));
    assert!(cfg.test(&toks("000111")));
    assert!(!cfg.test(&toks("0000111")));
}

#[test]
fn random_binary() {
    let cfg = grammar("S -> 0 S | 1 S | #");
    assert!(!cfg.test(&toks("012")));
    assert!(cfg.test(&toks("000111")));
    assert!(cfg.test(&toks("10100101001")));
    assert!(cfg.test(&toks("101001010011")));
}

#[test]
fn test_random_binary() {
    let cfg = grammar("S -> 0 S | 1 S | #");
    assert!(!cfg.test(&toks("012")));
    assert!(cfg.test(&toks("000111")));
    assert!(cfg.test(&toks("10100101001")));
    assert!(cfg.test(&toks("101001010011")));
}

#[test]
fn any_zeroes_then_ones() {
    let cfg = grammar("S -> Z O\nZ -> 0 Z | #\nO -> 1 O | #");
    assert!(cfg.test(&toks("01")));
    assert!(cfg.test(&toks("00111111")));
    assert!(cfg.test(&toks("000000111")));
    assert!(!cfg.test(&toks("00001110")));
}

#[test]
fn test_any_zeroes_then_ones() {
    let cfg = grammar("S -> Z O\nZ -> 0 Z | #\nO -> 1 O | #");
    assert!(cfg.test(&toks("01")));
    assert!(cfg.test(&toks("00111111")));
    assert!(cfg.test(&toks("000000111")));
    assert!(!cfg.test(&toks("00001110")));
}

#[test]
fn balanced_longer_counterexample() {
    let cfg = grammar("S -> 0 S 1 | #");
    assert!(!cfg.test(&toks("10")));
    assert!(!cfg.test(&toks("0101")));
}

#[test]
fn recognition_is_idempotent() {
    let cfg = grammar("S -> 0 S 1 | #");
    let input = toks("0011");
    let first = cfg.test(&input);
    let second = cfg.test(&input);
    assert_eq!(first, second);
    assert!(first);
    let bad = toks("0111");
    assert_eq!(cfg.test(&bad), cfg.test(&bad));
}

#[test]
fn empty_input_is_false_everywhere() {
    let empty: Vec<String> = Vec::new();
    assert!(!grammar("S -> a").test(&empty));
    assert!(!grammar("S -> a | #").test(&empty));
    assert!(!grammar("S -> Z O\nZ -> 0 Z | #\nO -> 1 O | #").test(&empty));
}

#[test]
fn parse_error_empty_text() {
    assert!(CFG::new("").is_err());
}

#[test]
fn parse_error_missing_arrow() {
    assert_eq!(
        CFG::new("S - a").err(),
        Some(GrammarParseError::MissingArrow { line: 1 })
    );
}

#[test]
fn parse_error_empty_alternative() {
    assert_eq!(
        CFG::new("S -> a | | b").err(),
        Some(GrammarParseError::EmptySymbol { line: 1 })
    );
}

#[test]
fn parse_error_epsilon_beside_symbols() {
    assert_eq!(
        CFG::new("S -> a #").err(),
        Some(GrammarParseError::MisplacedEpsilon { line: 1 })
    );
}

#[test]
fn parse_error_epsilon_as_lhs() {
    assert_eq!(
        CFG::new("# -> a").err(),
        Some(GrammarParseError::MisplacedEpsilon { line: 1 })
    );
}

#[test]
fn parse_error_reports_late_line() {
    assert_eq!(
        CFG::new("S -> a\nT b").err(),
        Some(GrammarParseError::MissingArrow { line: 2 })
    );
}

#[test]
fn samples_count_and_membership() {
    let cfg = grammar("S -> a b | b a");
    let samples = cfg.generate_sample_langauge(8);
    assert_eq!(samples.len(), 8);
    for s in samples.iter() {
        assert!(cfg.test(&toks(s)));
    }
}

#[test]
fn samples_of_singleton_language() {
    let cfg = grammar("S -> a b");
    let samples = cfg.generate_sample_langauge(3);
    assert_eq!(samples, vec!["ab".to_string(), "ab".to_string(), "ab".to_string()]);
}

#[test]
fn samples_feed_back_into_recognizer() {
    let cfg = grammar("S -> 0 S 1 | 0 1");
    for s in cfg.generate_sample_langauge(5).iter() {
        assert!(cfg.test(&toks(s)));
    }
}

#[test]
fn unit_chain_is_eliminated() {
    let cfg = grammar("S -> A\nA -> B\nB -> a");
    assert!(cfg.test(&toks("a")));
    assert!(!cfg.test(&toks("b")));
}

#[test]
fn unit_cycle_terminates() {
    let cfg = grammar("S -> A\nA -> B\nB -> A | a");
    assert!(cfg.test(&toks("a")));
    assert!(!cfg.test(&toks("aa")));
}

#[test]
fn start_symbol_on_rhs_is_isolated() {
    let cfg = grammar("S -> a S | b");
    assert!(cfg.test(&toks("b")));
    assert!(cfg.test(&toks("ab")));
    assert!(cfg.test(&toks("aab")));
    assert!(!cfg.test(&toks("a")));
}

#[test]
fn long_productions_are_split() {
    let cfg = grammar("S -> a b c d");
    assert!(cfg.test(&toks("abcd")));
    assert!(!cfg.test(&toks("abc")));
    assert!(!cfg.test(&toks("abcde")));
}

#[test]
fn unreachable_production_changes_nothing() {
    let cfg = grammar("S -> a\nT -> b");
    assert!(cfg.test(&toks("a")));
    assert!(!cfg.test(&toks("b")));
}

#[test]
fn sample_helper_reports_completion() {
    let cfg = grammar("S -> a b");
    // an all-terminal sentential form comes back concatenated, finished
    let (s, done) = cfg.generate_sample_string(toks("ab"), 100);
    assert_eq!(s, "ab");
    assert!(done);
}

#[test]
fn sample_helper_derives_a_word() {
    let cfg = grammar("S -> a b");
    let seed: Vec<String> = vec!["S".to_string()];
    let (s, done) = cfg.generate_sample_string(seed, 100);
    assert!(done);
    assert_eq!(s, "ab");
}

#[test]
fn sample_helper_reports_cutoff() {
    let cfg = grammar("S -> a S | a");
    let seed: Vec<String> = vec!["S".to_string()];
    // with no steps allowed, the derivation cannot finish
    let (s, done) = cfg.generate_sample_string(seed, 0);
    assert!(!done);
    assert_eq!(s, "S");
}
