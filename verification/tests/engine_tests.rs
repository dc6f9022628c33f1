use text_to_groff::engine::rewrite;
use text_to_groff::rules::{compile, RulePair};

fn rp(pattern: &str, template: &str) -> RulePair {
    RulePair { pattern: pattern.to_string(), template: template.to_string() }
}

fn units(us: &[&str]) -> Vec<String> {
    us.iter().map(|u| u.to_string()).collect()
}

fn run(rules: Vec<RulePair>, input: &[&str]) -> Vec<String> {
    let rs = compile(&rules).expect("rules should compile");
    rewrite(&rs, &units(input))
}

#[test]
fn interleave_fills_placeholders_from_trigger_on() {
    // k = 2: the triggering unit fills the first slot, one follow-up unit
    // the second; the cursor then stands on the unit after the consumed ones.
    let out = run(vec![rp("^X$", "A{}B{}C")], &["X", "1", "2", "next"]);
    assert_eq!(out, vec!["AXB1C".to_string(), "2".to_string(), "next".to_string()]);
}

#[test]
fn interleave_single_placeholder_consumes_only_trigger() {
    let out = run(vec![rp("^X$", "<{}>")], &["X", "Y", "next"]);
    assert_eq!(out, vec!["<X>".to_string(), "Y".to_string(), "next".to_string()]);
}

#[test]
fn boundary_under_supply_omits_missing_slots() {
    // k = 2 firing on the last unit: the one available unit is interleaved,
    // the missing slot is simply absent, and the remaining segments follow.
    let out = run(vec![rp("^X$", "<{}-{}>")], &["X"]);
    assert_eq!(out, vec!["<X->".to_string()]);
}

#[test]
fn boundary_partial_supply() {
    let out = run(vec![rp("^X$", "a{}b{}c{}d")], &["X", "1"]);
    assert_eq!(out, vec!["aXb1cd".to_string()]);
}

#[test]
fn suppression_empty_template_emits_nothing() {
    let out = run(vec![rp("^del$", "")], &["del", "keep", "del"]);
    assert_eq!(out, vec!["keep".to_string()]);
}

#[test]
fn zero_placeholders_consume_no_follow_up() {
    let out = run(vec![rp("^head$", ".PP")], &["head", "body"]);
    assert_eq!(out, vec![".PP".to_string(), "body".to_string()]);
}

#[test]
fn passthrough_with_empty_rule_set() {
    let out = run(vec![], &["a", "b", "", "c"]);
    assert_eq!(out, units(&["a", "b", "", "c"]));
}

#[test]
fn no_match_passes_through() {
    let out = run(vec![rp("^zzz$", "never")], &["one", "two"]);
    assert_eq!(out, units(&["one", "two"]));
}

#[test]
fn first_match_wins_over_later_more_specific_rule() {
    // Both patterns match the unit "foo"; the rule with the lowest index
    // wins, regardless of pattern generality.
    let out = run(vec![rp("o", "FIRST"), rp("^foo$", "SECOND")], &["foo"]);
    assert_eq!(out, vec!["FIRST".to_string()]);
}

#[test]
fn first_match_wins_in_declared_order() {
    let out = run(vec![rp("^foo$", "SPECIFIC"), rp("o", "GENERAL")], &["foo", "o"]);
    assert_eq!(out, vec!["SPECIFIC".to_string(), "GENERAL".to_string()]);
}

#[test]
fn match_is_anywhere_in_unit() {
    let out = run(vec![rp("mid", "hit")], &["a mid b", "none"]);
    assert_eq!(out, vec!["hit".to_string(), "none".to_string()]);
}

#[test]
fn consumed_units_are_not_rematched() {
    // The follow-up unit "X" is consumed as a placeholder value and must
    // not itself trigger the rule.
    let out = run(vec![rp("^X$", "({})({})")], &["X", "X", "X"]);
    assert_eq!(out, vec!["(X)(X)".to_string(), "(X)()".to_string()]);
}

#[test]
fn token_stream_rewrite() {
    // The engine is mode-agnostic: a token stream is just another unit
    // sequence.
    let text = "bf hello plain";
    let toks: Vec<String> = text.split(' ').map(|t| t.to_string()).collect();
    let rules = vec![rp("^bf$", "\\fB{}\\fR")];
    let rs = compile(&rules).expect("rules should compile");
    let out = rewrite(&rs, &toks);
    assert_eq!(out, vec!["\\fBbf\\fR".to_string(), "hello".to_string(), "plain".to_string()]);
}
