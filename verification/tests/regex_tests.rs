use strict_input::simple_regex::SimpleRegex;

fn chars(s: &str) -> Vec<char> {
    s.chars().collect()
}

#[test]
fn lowercase_run_stops_at_digits() {
    let re = SimpleRegex::new("[a-z]+");
    assert_eq!(re.longest_match(&chars("abc123"), 0), 3);
}

#[test]
fn alternation_only_zero_branch_survives() {
    let re = SimpleRegex::new("0|[1-9][0-9]*");
    assert_eq!(re.longest_match(&chars("042"), 0), 1);
}

#[test]
fn alternation_number_branch() {
    let re = SimpleRegex::new("0|[1-9][0-9]*");
    assert_eq!(re.longest_match(&chars("420"), 0), 3);
    assert_eq!(re.longest_match(&chars("7"), 0), 1);
    assert_eq!(re.longest_match(&chars("x"), 0), 0);
}

#[test]
fn small_class_rejects_other_symbols() {
    let re = SimpleRegex::new("[a-c]");
    assert_eq!(re.longest_match(&chars("d"), 0), 0);
    assert_eq!(re.longest_match(&chars("A"), 0), 0);
    assert_eq!(re.longest_match(&chars("z"), 0), 0);
    assert_eq!(re.longest_match(&chars("0"), 0), 0);
    assert_eq!(re.longest_match(&chars(" "), 0), 0);
    assert_eq!(re.longest_match(&chars("a"), 0), 1);
    assert_eq!(re.longest_match(&chars("b"), 0), 1);
    assert_eq!(re.longest_match(&chars("c"), 0), 1);
}

#[test]
fn literal_sequence() {
    let re = SimpleRegex::new("abc");
    assert_eq!(re.longest_match(&chars("abc"), 0), 3);
    assert_eq!(re.longest_match(&chars("abd"), 0), 0);
    assert_eq!(re.longest_match(&chars("ab"), 0), 0);
}

#[test]
fn optional_unit() {
    let re = SimpleRegex::new("a?b");
    assert_eq!(re.longest_match(&chars("ab"), 0), 2);
    assert_eq!(re.longest_match(&chars("b"), 0), 1);
    assert_eq!(re.longest_match(&chars("aab"), 0), 0);
}

#[test]
fn star_unit() {
    let re = SimpleRegex::new("a*");
    assert_eq!(re.longest_match(&chars("aaab"), 0), 3);
    assert_eq!(re.longest_match(&chars("b"), 0), 0);
}

#[test]
fn plus_unit() {
    let re = SimpleRegex::new("a+");
    assert_eq!(re.longest_match(&chars("aaab"), 0), 3);
    assert_eq!(re.longest_match(&chars("b"), 0), 0);
}

#[test]
fn class_with_quantifier() {
    let re = SimpleRegex::new("[0-9a-f]+");
    assert_eq!(re.longest_match(&chars("7fjk"), 0), 2);
}

#[test]
fn escape_makes_literal() {
    let re = SimpleRegex::new("\\?a");
    assert_eq!(re.longest_match(&chars("?a"), 0), 2);
    assert_eq!(re.longest_match(&chars("xa"), 0), 0);
}

#[test]
fn parentheses_are_inert() {
    let re = SimpleRegex::new("(ab)");
    assert_eq!(re.longest_match(&chars("ab"), 0), 2);
}

#[test]
fn match_from_offset() {
    let re = SimpleRegex::new("[a-z]+");
    assert_eq!(re.longest_match(&chars("ab12cd"), 4), 6);
    assert_eq!(re.longest_match(&chars("ab12cd"), 2), 2);
}

#[test]
fn match_at_end_offset() {
    let re = SimpleRegex::new("[a-z]+");
    assert_eq!(re.longest_match(&chars("ab"), 2), 2);
}

#[test]
fn longest_across_branches() {
    let re = SimpleRegex::new("a|ab");
    assert_eq!(re.longest_match(&chars("ab"), 0), 2);
    let re2 = SimpleRegex::new("ab|a");
    assert_eq!(re2.longest_match(&chars("ab"), 0), 2);
}

#[test]
fn multi_range_class() {
    let re = SimpleRegex::new("[a-cx-z]+");
    assert_eq!(re.longest_match(&chars("aybzq"), 0), 4);
}

#[test]
fn pattern_validity() {
    assert!(SimpleRegex::pattern_is_ok("[a-z]+"));
    assert!(SimpleRegex::pattern_is_ok("0|[1-9][0-9]*"));
    assert!(SimpleRegex::pattern_is_ok("(a)\\?b"));
    assert!(SimpleRegex::pattern_is_ok(""));
    assert!(!SimpleRegex::pattern_is_ok("\\"));
    assert!(!SimpleRegex::pattern_is_ok("[a-z"));
    assert!(!SimpleRegex::pattern_is_ok("a-z"));
    assert!(!SimpleRegex::pattern_is_ok("*a"));
    assert!(!SimpleRegex::pattern_is_ok("[a-]"));
    assert!(!SimpleRegex::pattern_is_ok("[-a]"));
}

#[test]
fn class_with_plain_members() {
    let re = SimpleRegex::new("[abc,]+");
    assert_eq!(re.longest_match(&chars("a,b!"), 0), 3);
}
