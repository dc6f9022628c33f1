use text_to_groff::config::{merge_sources, parse_rule_pair};
use text_to_groff::engine::rewrite;
use text_to_groff::rules::{compile, RulePair};

fn p(pattern: &str, template: &str) -> RulePair {
    RulePair { pattern: pattern.to_string(), template: template.to_string() }
}

fn as_pairs(merged: &[RulePair]) -> Vec<(String, String)> {
    merged.iter().map(|r| (r.pattern.clone(), r.template.clone())).collect()
}

#[test]
fn merge_later_source_wins_at_first_position() {
    // Two sources define "^foo$": the later template wins, and the rule
    // keeps the position of its first definition.
    let sources = vec![
        vec![p("^foo$", "one"), p("^bar$", "b")],
        vec![p("^foo$", "two")],
    ];
    let merged = merge_sources(&sources);
    assert_eq!(
        as_pairs(&merged),
        vec![
            ("^foo$".to_string(), "two".to_string()),
            ("^bar$".to_string(), "b".to_string()),
        ]
    );
}

#[test]
fn merge_within_one_source_last_value_wins() {
    let sources = vec![vec![p("^k$", "a"), p("^other$", "o"), p("^k$", "b")]];
    let merged = merge_sources(&sources);
    assert_eq!(
        as_pairs(&merged),
        vec![
            ("^k$".to_string(), "b".to_string()),
            ("^other$".to_string(), "o".to_string()),
        ]
    );
}

#[test]
fn merge_no_sources_is_empty() {
    let merged = merge_sources(&vec![]);
    assert!(merged.is_empty());
}

#[test]
fn merge_precedence_is_observable_through_the_engine() {
    let sources = vec![vec![p("^foo$", "old")], vec![p("^foo$", "new")]];
    let merged = merge_sources(&sources);
    let rs = compile(&merged).expect("rules should compile");
    let out = rewrite(&rs, &vec!["foo".to_string()]);
    assert_eq!(out, vec!["new".to_string()]);
}

#[test]
fn parse_bracketed_pair() {
    let r = parse_rule_pair("[^foo$,.PP]").expect("well-formed pair");
    assert_eq!(r.pattern, "^foo$");
    assert_eq!(r.template, ".PP");
}

#[test]
fn parse_pair_without_brackets() {
    let r = parse_rule_pair("a,b").expect("comma is enough");
    assert_eq!(r.pattern, "a");
    assert_eq!(r.template, "b");
}

#[test]
fn parse_pair_drops_anything_after_second_comma() {
    let r = parse_rule_pair("[a,b,c]").expect("first two fields count");
    assert_eq!(r.pattern, "a");
    assert_eq!(r.template, "b");
}

#[test]
fn parse_pair_trims_bracket_runs() {
    let r = parse_rule_pair("[[x,y]]").expect("bracket runs are trimmed");
    assert_eq!(r.pattern, "x");
    assert_eq!(r.template, "y");
}

#[test]
fn parse_pair_without_comma_is_rejected() {
    assert!(parse_rule_pair("[nopair]").is_none());
    assert!(parse_rule_pair("").is_none());
}

#[test]
fn parse_pair_empty_fields() {
    let r = parse_rule_pair("[,]").expect("empty fields are fields");
    assert_eq!(r.pattern, "");
    assert_eq!(r.template, "");
}
