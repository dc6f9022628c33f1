//! Rule sets: an ordered list of regular-expression rules, each with a
//! replacement template and its precomputed placeholder count.

use vstd::prelude::*;

use crate::template::count_marker;

verus! {

/// Holds whether the regular-expression engine accepts and compiles
/// `pattern`; this depends on the pattern alone.
pub uninterp spec fn regex_valid(pattern: Seq<char>) -> bool;

/// Holds whether the regular expression `pattern` matches somewhere inside
/// `text`.
pub uninterp spec fn regex_matches(pattern: Seq<char>, text: Seq<char>) -> bool;

/// The pattern a compiled regular expression was built from.
pub uninterp spec fn regex_pattern(re: regex::Regex) -> Seq<char>;

#[verifier::external_type_specification]
#[verifier::external_body]
pub struct ExRegex(regex::Regex);

#[verifier::external_type_specification]
#[verifier::external_body]
pub struct ExRegexError(regex::Error);

/// Relies on `regex::Regex::new`: whether compiling succeeds depends on the
/// pattern alone, and the compiled value behaves as the pattern it was
/// built from prescribes.
pub assume_specification[ regex::Regex::new ](re: &str) -> (r: Result<regex::Regex, regex::Error>)
    ensures
        r is Ok <==> regex_valid(re@),
        r is Ok ==> regex_pattern(r->Ok_0) == re@,
;

/// Relies on `regex::Regex::is_match`: reports whether the regular
/// expression matches anywhere inside the haystack; the outcome depends on
/// the pattern and the haystack alone.
pub assume_specification[ regex::Regex::is_match ](re: &regex::Regex, haystack: &str) -> (r: bool)
    ensures
        r == regex_matches(regex_pattern(*re), haystack@),
;

/// The mathematical content of one rule: its pattern and its template.
pub ghost struct RuleView {
    pub pattern: Seq<char>,
    pub template: Seq<char>,
}

/// One configured rule before compilation: a pattern and a template.
#[derive(Debug, Clone)]
pub struct RulePair {
    pub pattern: String,
    pub template: String,
}

impl View for RulePair {
    type V = RuleView;

    open spec fn view(&self) -> RuleView {
        RuleView { pattern: self.pattern@, template: self.template@ }
    }
}

/// The view of an ordered list of rule pairs.
pub open spec fn pairs_view(ps: Seq<RulePair>) -> Seq<RuleView> {
    ps.map_values(|p: RulePair| p@)
}

/// Every pattern in `rules` is a valid regular expression.
pub open spec fn all_valid(rules: Seq<RuleView>) -> bool {
    forall|i: int| 0 <= i < rules.len() ==> #[trigger] regex_valid(rules[i].pattern)
}

/// The index of the first rule whose pattern matches `unit`, if any.
pub open spec fn first_match(rules: Seq<RuleView>, unit: Seq<char>) -> Option<int>
    decreases rules.len(),
{
    if rules.len() == 0 {
        None
    } else if regex_matches(rules[0].pattern, unit) {
        Some(0int)
    } else {
        match first_match(rules.skip(1), unit) {
            None => None,
            Some(i) => Some(i + 1),
        }
    }
}

/// The first matching rule is a matching rule of lowest index: no rule
/// before it matches, and when no rule matches there is no match at all.
pub proof fn lemma_first_match(rules: Seq<RuleView>, unit: Seq<char>)
    ensures
        match first_match(rules, unit) {
            Some(i) => 0 <= i < rules.len() && regex_matches(rules[i].pattern, unit)
                && forall|j: int| 0 <= j < i ==> !regex_matches(#[trigger] rules[j].pattern, unit),
            None => forall|j: int|
                0 <= j < rules.len() ==> !regex_matches(#[trigger] rules[j].pattern, unit),
        },
    decreases rules.len(),
{
    if rules.len() == 0 {
    } else if regex_matches(rules[0].pattern, unit) {
    } else {
        lemma_first_match(rules.skip(1), unit);
        assert(forall|j: int|
            1 <= j < rules.len() ==> rules.skip(1)[j - 1] == #[trigger] rules[j]);
    }
}

/// A matching rule before which no rule matches is the first match.
pub proof fn lemma_first_match_at(rules: Seq<RuleView>, unit: Seq<char>, j: int)
    requires
        0 <= j < rules.len(),
        regex_matches(rules[j].pattern, unit),
        forall|i: int| 0 <= i < j ==> !regex_matches(#[trigger] rules[i].pattern, unit),
    ensures
        first_match(rules, unit) == Some(j),
    decreases rules.len(),
{
    if j == 0 {
    } else {
        assert(!regex_matches(rules[0].pattern, unit));
        assert(forall|i: int|
            0 <= i < rules.len() - 1 ==> rules.skip(1)[i] == #[trigger] rules[i + 1]);
        lemma_first_match_at(rules.skip(1), unit, j - 1);
    }
}

/// When no rule matches, there is no first match.
pub proof fn lemma_first_match_none(rules: Seq<RuleView>, unit: Seq<char>)
    requires
        forall|i: int| 0 <= i < rules.len() ==> !regex_matches(#[trigger] rules[i].pattern, unit),
    ensures
        first_match(rules, unit) is None,
    decreases rules.len(),
{
    if rules.len() == 0 {
    } else {
        assert(forall|i: int|
            0 <= i < rules.len() - 1 ==> rules.skip(1)[i] == #[trigger] rules[i + 1]);
        lemma_first_match_none(rules.skip(1), unit);
    }
}

/// The error compilation of a rule set can end in: some configured pattern
/// is not a valid regular expression. It carries that pattern.
#[derive(Debug, Clone)]
pub enum CompileError {
    InvalidPattern(String),
}

/// An ordered rule set, compiled and ready for matching. Field `i` of each
/// vector belongs to rule `i`; `counts[i]` caches the placeholder count of
/// `templates[i]`.
pub struct RuleSet {
    regexes: Vec<regex::Regex>,
    patterns: Vec<String>,
    templates: Vec<String>,
    counts: Vec<usize>,
}

impl RuleSet {
    /// The compiled vectors line up, each compiled expression was built
    /// from its rule's pattern, and each cached count is the placeholder
    /// count of its rule's template.
    pub closed spec fn wf(&self) -> bool {
        &&& self.regexes@.len() == self.patterns@.len()
        &&& self.templates@.len() == self.patterns@.len()
        &&& self.counts@.len() == self.patterns@.len()
        &&& forall|i: int|
            0 <= i < self.patterns@.len() ==> regex_pattern(#[trigger] self.regexes@[i])
                == self.patterns@[i]@
        &&& forall|i: int|
            0 <= i < self.patterns@.len() ==> #[trigger] self.counts@[i]
                == count_marker(self.templates@[i]@)
        &&& forall|i: int|
            0 <= i < self.patterns@.len() ==> regex_valid(#[trigger] self.patterns@[i]@)
    }

    /// The rules of the set, in order.
    pub closed spec fn view(&self) -> Seq<RuleView> {
        Seq::new(
            self.patterns@.len(),
            |i: int| RuleView { pattern: self.patterns@[i]@, template: self.templates@[i]@ },
        )
    }

    /// The number of rules in the set.
    pub fn len(&self) -> (n: usize)
        ensures
            n == self@.len(),
    {
        self.patterns.len()
    }

    /// The pattern of rule `i`.
    pub fn pattern(&self, i: usize) -> (p: &String)
        requires
            i < self@.len(),
        ensures
            p@ == self@[i as int].pattern,
    {
        &self.patterns[i]
    }

    /// The template of rule `i`.
    pub fn template(&self, i: usize) -> (t: &String)
        requires
            self.wf(),
            i < self@.len(),
        ensures
            t@ == self@[i as int].template,
    {
        &self.templates[i]
    }

    /// The placeholder count of rule `i`'s template.
    pub fn placeholder_count(&self, i: usize) -> (c: usize)
        requires
            self.wf(),
            i < self@.len(),
        ensures
            c == count_marker(self@[i as int].template),
    {
        self.counts[i]
    }

    /// Finds the first rule, in configuration order, whose pattern matches
    /// anywhere inside `unit`. When two or more rules match, the one with
    /// the lowest index wins.
    pub fn match_unit(&self, unit: &str) -> (r: Option<usize>)
        requires
            self.wf(),
        ensures
            match r {
                Some(j) => first_match(self@, unit@) == Some(j as int),
                None => first_match(self@, unit@) is None,
            },
            match r {
                Some(j) => j < self@.len() && regex_matches(self@[j as int].pattern, unit@)
                    && forall|i: int|
                    0 <= i < j ==> !regex_matches(#[trigger] self@[i].pattern, unit@),
                None => forall|i: int|
                    0 <= i < self@.len() ==> !regex_matches(#[trigger] self@[i].pattern, unit@),
            },
    {
        proof {
            lemma_first_match(self@, unit@);
        }
        let n = self.regexes.len();
        let mut j: usize = 0;
        while j < n
            invariant
                self.wf(),
                n == self@.len(),
                j <= n,
                forall|i: int| 0 <= i < j ==> !regex_matches(#[trigger] self@[i].pattern, unit@),
            decreases n - j,
        {
            if self.regexes[j].is_match(unit) {
                proof {
                    assert(regex_matches(self@[j as int].pattern, unit@));
                    lemma_first_match_at(self@, unit@, j as int);
                }
                return Some(j);
            }
            j = j + 1;
        }
        proof {
            lemma_first_match_none(self@, unit@);
        }
        None
    }
}

/// Compiles an ordered list of rules into a rule set. Fails, with the first
/// offending pattern, exactly when some pattern is not a valid regular
/// expression; no partially compiled set is ever returned.
pub fn compile(rules: &Vec<RulePair>) -> (r: Result<RuleSet, CompileError>)
    ensures
        match r {
            Ok(rs) => rs.wf() && rs@ == pairs_view(rules@) && all_valid(pairs_view(rules@)),
            Err(CompileError::InvalidPattern(p)) => !all_valid(pairs_view(rules@)) && exists|j: int|
                0 <= j < rules@.len() && !regex_valid(#[trigger] rules@[j]@.pattern) && p@
                    == rules@[j]@.pattern && forall|i: int|
                    0 <= i < j ==> regex_valid(#[trigger] rules@[i]@.pattern),
        },
{
    let n = rules.len();
    let mut regexes: Vec<regex::Regex> = Vec::new();
    let mut patterns: Vec<String> = Vec::new();
    let mut templates: Vec<String> = Vec::new();
    let mut counts: Vec<usize> = Vec::new();
    let mut idx: usize = 0;
    while idx < n
        invariant
            n == rules@.len(),
            idx <= n,
            regexes@.len() == idx,
            patterns@.len() == idx,
            templates@.len() == idx,
            counts@.len() == idx,
            forall|i: int|
                0 <= i < idx ==> regex_pattern(#[trigger] regexes@[i]) == rules@[i]@.pattern,
            forall|i: int| 0 <= i < idx ==> #[trigger] patterns@[i]@ == rules@[i]@.pattern,
            forall|i: int| 0 <= i < idx ==> #[trigger] templates@[i]@ == rules@[i]@.template,
            forall|i: int|
                0 <= i < idx ==> #[trigger] counts@[i] == count_marker(rules@[i]@.template),
            forall|i: int| 0 <= i < idx ==> regex_valid(#[trigger] rules@[i]@.pattern),
        decreases n - idx,
    {
        match regex::Regex::new(rules[idx].pattern.as_str()) {
            Err(_) => {
                let p = rules[idx].pattern.clone();
                proof {
                    assert(pairs_view(rules@)[idx as int] == rules@[idx as int]@);
                    assert(!regex_valid(pairs_view(rules@)[idx as int].pattern));
                    assert(forall|i: int|
                        0 <= i < idx ==> regex_valid(#[trigger] rules@[i]@.pattern));
                }
                return Err(CompileError::InvalidPattern(p));
            },
            Ok(re) => {
                let c = crate::template::placeholder_count(rules[idx].template.as_str());
                regexes.push(re);
                patterns.push(rules[idx].pattern.clone());
                templates.push(rules[idx].template.clone());
                counts.push(c);
            },
        }
        idx = idx + 1;
    }
    let rs = RuleSet { regexes, patterns, templates, counts };
    proof {
        assert(rs@ =~= pairs_view(rules@));
    }
    Ok(rs)
}

} // verus!
