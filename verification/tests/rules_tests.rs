use text_to_groff::rules::{compile, CompileError, RulePair};
use text_to_groff::template::placeholder_count;

fn pair(pattern: &str, template: &str) -> RulePair {
    RulePair { pattern: pattern.to_string(), template: template.to_string() }
}

#[test]
fn compile_invalid_pattern_fails() {
    // An unbalanced group is not a valid regular expression: compilation
    // fails with the offending pattern and nothing is ever rewritten.
    let rules = vec![pair("^ok$", "fine"), pair("(", "broken")];
    match compile(&rules) {
        Err(CompileError::InvalidPattern(p)) => assert_eq!(p, "("),
        Ok(_) => panic!("an unbalanced group must not compile"),
    }
}

#[test]
fn compile_reports_first_invalid_pattern() {
    let rules = vec![pair("(", "a"), pair("[", "b")];
    match compile(&rules) {
        Err(CompileError::InvalidPattern(p)) => assert_eq!(p, "("),
        Ok(_) => panic!("invalid patterns must not compile"),
    }
}

#[test]
fn compile_empty_rule_set() {
    let rs = compile(&vec![]).expect("empty rule set compiles");
    assert_eq!(rs.len(), 0);
}

#[test]
fn compile_keeps_order_and_counts() {
    let rules = vec![pair("^a$", "x{}y{}z"), pair("^b$", ""), pair("^c$", "plain")];
    let rs = compile(&rules).expect("rules should compile");
    assert_eq!(rs.len(), 3);
    assert_eq!(rs.pattern(0).as_str(), "^a$");
    assert_eq!(rs.template(0).as_str(), "x{}y{}z");
    assert_eq!(rs.placeholder_count(0), 2);
    assert_eq!(rs.template(1).as_str(), "");
    assert_eq!(rs.placeholder_count(1), 0);
    assert_eq!(rs.pattern(2).as_str(), "^c$");
    assert_eq!(rs.placeholder_count(2), 0);
}

#[test]
fn match_unit_picks_lowest_index() {
    let rules = vec![pair("never", "n"), pair("o", "general"), pair("^foo$", "exact")];
    let rs = compile(&rules).expect("rules should compile");
    assert_eq!(rs.match_unit("foo"), Some(1));
    assert_eq!(rs.match_unit("never mind"), Some(0));
    assert_eq!(rs.match_unit("xyz"), None);
}

#[test]
fn placeholder_count_counts_non_overlapping_markers() {
    assert_eq!(placeholder_count(""), 0);
    assert_eq!(placeholder_count("{}"), 1);
    assert_eq!(placeholder_count("a{}b{}c"), 2);
    assert_eq!(placeholder_count("{}{}{}"), 3);
    assert_eq!(placeholder_count("{{}}"), 1);
    assert_eq!(placeholder_count("{ }"), 0);
    assert_eq!(placeholder_count("{"), 0);
    assert_eq!(placeholder_count("}{"), 0);
}

#[test]
fn split_segments_around_markers() {
    let segs = text_to_groff::template::split_template("A{}B{}C");
    assert_eq!(segs, vec!["A".to_string(), "B".to_string(), "C".to_string()]);
    let segs = text_to_groff::template::split_template("{}");
    assert_eq!(segs, vec![String::new(), String::new()]);
    let segs = text_to_groff::template::split_template("plain");
    assert_eq!(segs, vec!["plain".to_string()]);
}
