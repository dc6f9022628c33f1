//! Merging rule configuration sources.
//!
//! Zero or more ordered (pattern, template) sources are merged into one
//! ordered mapping: later sources override earlier ones for a duplicate
//! pattern, and every pattern keeps the position of its first definition.

use vstd::prelude::*;

use crate::rules::{RulePair, RuleView, pairs_view};

verus! {

/// First index in `acc` holding a rule with pattern `pat`, if any.
pub open spec fn find_pattern(acc: Seq<RuleView>, pat: Seq<char>) -> Option<int>
    decreases acc.len(),
{
    if acc.len() == 0 {
        None
    } else if acc[0].pattern == pat {
        Some(0int)
    } else {
        match find_pattern(acc.skip(1), pat) {
            None => None,
            Some(i) => Some(i + 1),
        }
    }
}

/// The found index is the least index holding `pat`; a miss means no index
/// holds it.
pub proof fn lemma_find_pattern(acc: Seq<RuleView>, pat: Seq<char>)
    ensures
        match find_pattern(acc, pat) {
            Some(i) => 0 <= i < acc.len() && acc[i].pattern == pat && forall|j: int|
                0 <= j < i ==> (#[trigger] acc[j]).pattern != pat,
            None => forall|j: int| 0 <= j < acc.len() ==> (#[trigger] acc[j]).pattern != pat,
        },
    decreases acc.len(),
{
    if acc.len() == 0 {
    } else if acc[0].pattern == pat {
    } else {
        lemma_find_pattern(acc.skip(1), pat);
        assert(forall|j: int| 1 <= j < acc.len() ==> acc.skip(1)[j - 1] == #[trigger] acc[j]);
    }
}

/// An index that holds `pat`, before which no index holds it, is the found
/// index.
pub proof fn lemma_find_pattern_at(acc: Seq<RuleView>, pat: Seq<char>, i: int)
    requires
        0 <= i < acc.len(),
        acc[i].pattern == pat,
        forall|j: int| 0 <= j < i ==> (#[trigger] acc[j]).pattern != pat,
    ensures
        find_pattern(acc, pat) == Some(i),
    decreases acc.len(),
{
    if i == 0 {
    } else {
        assert(forall|j: int|
            0 <= j < acc.len() - 1 ==> acc.skip(1)[j] == #[trigger] acc[j + 1]);
        lemma_find_pattern_at(acc.skip(1), pat, i - 1);
    }
}

/// When no index holds `pat`, nothing is found.
pub proof fn lemma_find_pattern_none(acc: Seq<RuleView>, pat: Seq<char>)
    requires
        forall|j: int| 0 <= j < acc.len() ==> (#[trigger] acc[j]).pattern != pat,
    ensures
        find_pattern(acc, pat) is None,
    decreases acc.len(),
{
    if acc.len() == 0 {
    } else {
        assert(forall|j: int|
            0 <= j < acc.len() - 1 ==> acc.skip(1)[j] == #[trigger] acc[j + 1]);
        lemma_find_pattern_none(acc.skip(1), pat);
    }
}

/// One merge step: a pair either overwrites the template of the rule that
/// already holds its pattern, or is appended as a new rule.
pub open spec fn merge_step(acc: Seq<RuleView>, p: RuleView) -> Seq<RuleView> {
    match find_pattern(acc, p.pattern) {
        Some(i) => acc.update(i, p),
        None => acc.push(p),
    }
}

/// Pairs merged into `acc`, left to right.
pub open spec fn merge_pairs(acc: Seq<RuleView>, rest: Seq<RuleView>) -> Seq<RuleView>
    decreases rest.len(),
{
    if rest.len() == 0 {
        acc
    } else {
        merge_pairs(merge_step(acc, rest[0]), rest.skip(1))
    }
}

/// Merging one more pair at the end is one more merge step.
pub proof fn lemma_merge_pairs_snoc(acc: Seq<RuleView>, rest: Seq<RuleView>, p: RuleView)
    ensures
        merge_pairs(acc, rest.push(p)) == merge_step(merge_pairs(acc, rest), p),
    decreases rest.len(),
{
    if rest.len() == 0 {
        assert(rest.push(p)[0] == p);
        assert(rest.push(p).skip(1) =~= Seq::<RuleView>::empty());
        assert(merge_pairs(merge_step(acc, p), Seq::<RuleView>::empty()) == merge_step(acc, p));
        assert(merge_pairs(acc, rest) == acc);
    } else {
        assert(rest.push(p)[0] == rest[0]);
        assert(rest.push(p).skip(1) =~= rest.skip(1).push(p));
        lemma_merge_pairs_snoc(merge_step(acc, rest[0]), rest.skip(1), p);
    }
}

/// All configuration sources flattened into one ordered list of pairs.
pub open spec fn flatten_sources(ss: Seq<Seq<RuleView>>) -> Seq<RuleView>
    decreases ss.len(),
{
    if ss.len() == 0 {
        Seq::<RuleView>::empty()
    } else {
        ss[0] + flatten_sources(ss.skip(1))
    }
}

/// Flattening one more source at the end appends its pairs.
pub proof fn lemma_flatten_snoc(ss: Seq<Seq<RuleView>>, src: Seq<RuleView>)
    ensures
        flatten_sources(ss.push(src)) == flatten_sources(ss) + src,
    decreases ss.len(),
{
    if ss.len() == 0 {
        assert(ss.push(src)[0] == src);
        assert(ss.push(src).skip(1) =~= Seq::<Seq<RuleView>>::empty());
        assert(flatten_sources(Seq::<Seq<RuleView>>::empty()) == Seq::<RuleView>::empty());
        assert(flatten_sources(ss.push(src)) =~= flatten_sources(ss) + src);
    } else {
        assert(ss.push(src)[0] == ss[0]);
        assert(ss.push(src).skip(1) =~= ss.skip(1).push(src));
        lemma_flatten_snoc(ss.skip(1), src);
        assert(ss[0] + (flatten_sources(ss.skip(1)) + src) =~= (ss[0] + flatten_sources(
            ss.skip(1),
        )) + src);
    }
}

/// The view of a list of configuration sources.
pub open spec fn sources_view(ss: Seq<Vec<RulePair>>) -> Seq<Seq<RuleView>> {
    ss.map_values(|v: Vec<RulePair>| pairs_view(v@))
}

/// The merged configuration of the given sources.
pub open spec fn merge_spec(ss: Seq<Seq<RuleView>>) -> Seq<RuleView> {
    merge_pairs(Seq::<RuleView>::empty(), flatten_sources(ss))
}

/// Whether some pair in `ps` has pattern `pat`.
pub open spec fn has_pattern(ps: Seq<RuleView>, pat: Seq<char>) -> bool {
    exists|i: int| 0 <= i < ps.len() && (#[trigger] ps[i]).pattern == pat
}

/// The template of the last pair in `ps` whose pattern is `pat`.
pub open spec fn last_template(ps: Seq<RuleView>, pat: Seq<char>) -> Seq<char>
    decreases ps.len(),
{
    if ps.len() == 0 {
        Seq::<char>::empty()
    } else if has_pattern(ps.skip(1), pat) {
        last_template(ps.skip(1), pat)
    } else if ps[0].pattern == pat {
        ps[0].template
    } else {
        Seq::<char>::empty()
    }
}

/// No two pairs of `ps` share a pattern.
pub open spec fn distinct_patterns(ps: Seq<RuleView>) -> bool {
    forall|i: int, j: int|
        0 <= i < j < ps.len() ==> (#[trigger] ps[i]).pattern != (#[trigger] ps[j]).pattern
}

/// Merging pairs none of which defines `pat` neither adds, moves, nor
/// changes the entry for `pat`.
pub proof fn lemma_merge_absent(acc: Seq<RuleView>, rest: Seq<RuleView>, pat: Seq<char>)
    requires
        !has_pattern(rest, pat),
    ensures
        ({
            let merged = merge_pairs(acc, rest);
            match (find_pattern(acc, pat), find_pattern(merged, pat)) {
                (Some(i), Some(k)) => merged[k].template == acc[i].template,
                (None, None) => true,
                _ => false,
            }
        }),
    decreases rest.len(),
{
    if rest.len() == 0 {
    } else {
        let p = rest[0];
        let acc2 = merge_step(acc, p);
        assert(p.pattern != pat);
        lemma_find_pattern(acc, p.pattern);
        lemma_find_pattern(acc, pat);
        match find_pattern(acc, pat) {
            Some(i) => {
                assert(acc2[i].pattern == pat);
                assert(forall|j: int| 0 <= j < i ==> (#[trigger] acc2[j]).pattern != pat);
                lemma_find_pattern_at(acc2, pat, i);
                assert(acc2[i].template == acc[i].template);
            },
            None => {
                assert(forall|j: int| 0 <= j < acc2.len() ==> (#[trigger] acc2[j]).pattern != pat);
                lemma_find_pattern_none(acc2, pat);
            },
        }
        assert(forall|k: int|
            0 <= k < rest.len() - 1 ==> rest.skip(1)[k] == #[trigger] rest[k + 1]);
        lemma_merge_absent(acc2, rest.skip(1), pat);
    }
}

/// Law (merge precedence): when the merged pairs define `pat` at all, the
/// merged configuration holds an entry for it, and its template is the
/// last definition's.
pub proof fn lemma_merge_last_wins(acc: Seq<RuleView>, rest: Seq<RuleView>, pat: Seq<char>)
    requires
        has_pattern(rest, pat),
    ensures
        ({
            let merged = merge_pairs(acc, rest);
            match find_pattern(merged, pat) {
                Some(k) => merged[k].template == last_template(rest, pat),
                None => false,
            }
        }),
    decreases rest.len(),
{
    let p = rest[0];
    let acc2 = merge_step(acc, p);
    assert(forall|k: int| 0 <= k < rest.len() - 1 ==> rest.skip(1)[k] == #[trigger] rest[k + 1]);
    if has_pattern(rest.skip(1), pat) {
        lemma_merge_last_wins(acc2, rest.skip(1), pat);
    } else {
        let w = choose|i: int| 0 <= i < rest.len() && (#[trigger] rest[i]).pattern == pat;
        if w > 0 {
            assert(rest.skip(1)[w - 1] == rest[w]);
            assert(has_pattern(rest.skip(1), pat));
        }
        assert(rest[0].pattern == pat);
        assert(last_template(rest, pat) == p.template);
        lemma_find_pattern(acc, p.pattern);
        match find_pattern(acc, p.pattern) {
            Some(k) => {
                assert(acc2[k].pattern == pat);
                assert(forall|j: int| 0 <= j < k ==> (#[trigger] acc2[j]).pattern != pat);
                lemma_find_pattern_at(acc2, pat, k);
                assert(acc2[k].template == p.template);
            },
            None => {
                let k = acc.len() as int;
                assert(acc2[k].pattern == pat);
                assert(forall|j: int| 0 <= j < k ==> (#[trigger] acc2[j]).pattern != pat);
                lemma_find_pattern_at(acc2, pat, k);
            },
        }
        lemma_merge_absent(acc2, rest.skip(1), pat);
    }
}

/// Law (merge precedence): merging more pairs moves no existing rule; a
/// pattern keeps the position of its first definition.
pub proof fn lemma_merge_keeps_positions(acc: Seq<RuleView>, rest: Seq<RuleView>)
    ensures
        merge_pairs(acc, rest).len() >= acc.len(),
        forall|i: int|
            0 <= i < acc.len() ==> (#[trigger] merge_pairs(acc, rest)[i]).pattern
                == acc[i].pattern,
    decreases rest.len(),
{
    if rest.len() == 0 {
    } else {
        let p = rest[0];
        let acc2 = merge_step(acc, p);
        lemma_find_pattern(acc, p.pattern);
        assert(acc2.len() >= acc.len());
        assert(forall|i: int|
            0 <= i < acc.len() ==> (#[trigger] acc2[i]).pattern == acc[i].pattern);
        lemma_merge_keeps_positions(acc2, rest.skip(1));
    }
}

/// Law: no two rules of a merged configuration share a pattern, provided
/// none of the already-merged rules do.
pub proof fn lemma_merge_distinct(acc: Seq<RuleView>, rest: Seq<RuleView>)
    requires
        distinct_patterns(acc),
    ensures
        distinct_patterns(merge_pairs(acc, rest)),
    decreases rest.len(),
{
    if rest.len() == 0 {
    } else {
        let p = rest[0];
        let acc2 = merge_step(acc, p);
        lemma_find_pattern(acc, p.pattern);
        assert(distinct_patterns(acc2));
        lemma_merge_distinct(acc2, rest.skip(1));
    }
}

/// Law (merge precedence), stated of whole configurations: a pattern that
/// any source defines has exactly one merged rule, holding the template of
/// its last definition across all sources.
pub proof fn lemma_merge_spec_last_wins(ss: Seq<Seq<RuleView>>, pat: Seq<char>)
    requires
        has_pattern(flatten_sources(ss), pat),
    ensures
        ({
            let merged = merge_spec(ss);
            match find_pattern(merged, pat) {
                Some(k) => merged[k].template == last_template(flatten_sources(ss), pat),
                None => false,
            }
        }),
        distinct_patterns(merge_spec(ss)),
{
    lemma_merge_last_wins(Seq::<RuleView>::empty(), flatten_sources(ss), pat);
    lemma_merge_distinct(Seq::<RuleView>::empty(), flatten_sources(ss));
}

/// Finds the first rule in `acc` whose pattern equals `pat`.
fn find_index(acc: &Vec<RulePair>, pat: &String) -> (r: Option<usize>)
    ensures
        match r {
            Some(i) => i < acc@.len() && find_pattern(pairs_view(acc@), pat@) == Some(i as int),
            None => find_pattern(pairs_view(acc@), pat@) is None,
        },
{
    let ghost av = pairs_view(acc@);
    let n = acc.len();
    let mut t: usize = 0;
    while t < n
        invariant
            av == pairs_view(acc@),
            n == acc@.len(),
            t <= n,
            forall|j: int| 0 <= j < t ==> (#[trigger] av[j]).pattern != pat@,
        decreases n - t,
    {
        if acc[t].pattern == *pat {
            proof {
                assert(av[t as int].pattern == pat@);
                lemma_find_pattern_at(av, pat@, t as int);
            }
            return Some(t);
        }
        t = t + 1;
    }
    proof {
        lemma_find_pattern_none(av, pat@);
    }
    None
}

/// Merges the configuration sources, in order, into one ordered rule list:
/// a pattern defined again overrides the earlier template but keeps the
/// position of its first definition; a new pattern is appended.
pub fn merge_sources(sources: &Vec<Vec<RulePair>>) -> (merged: Vec<RulePair>)
    ensures
        pairs_view(merged@) == merge_spec(sources_view(sources@)),
{
    let ghost sv = sources_view(sources@);
    let mut acc: Vec<RulePair> = Vec::new();
    let ghost mut done = Seq::<RuleView>::empty();
    let mut s: usize = 0;
    proof {
        assert(sv.take(0) =~= Seq::<Seq<RuleView>>::empty());
        assert(pairs_view(acc@) =~= merge_pairs(Seq::<RuleView>::empty(), done));
    }
    while s < sources.len()
        invariant
            sv == sources_view(sources@),
            s <= sources@.len(),
            done == flatten_sources(sv.take(s as int)),
            pairs_view(acc@) == merge_pairs(Seq::<RuleView>::empty(), done),
        decreases sources@.len() - s,
    {
        let src = &sources[s];
        let ghost srcv = pairs_view(src@);
        let mut c: usize = 0;
        proof {
            assert(srcv.take(0) =~= Seq::<RuleView>::empty());
            assert(done + srcv.take(0) =~= done);
        }
        while c < src.len()
            invariant
                sv == sources_view(sources@),
                s < sources@.len(),
                srcv == pairs_view(sources@[s as int]@),
                src == &sources@[s as int],
                c <= srcv.len(),
                done == flatten_sources(sv.take(s as int)) + srcv.take(c as int),
                pairs_view(acc@) == merge_pairs(Seq::<RuleView>::empty(), done),
            decreases srcv.len() - c,
        {
            let p = &src[c];
            let ghost pv = p@;
            let ghost acc0 = pairs_view(acc@);
            let np = RulePair { pattern: p.pattern.clone(), template: p.template.clone() };
            proof {
                assert(np@ == pv);
            }
            match find_index(&acc, &p.pattern) {
                Some(i) => {
                    acc.remove(i);
                    acc.insert(i, np);
                    proof {
                        assert(pairs_view(acc@) =~= acc0.update(i as int, pv));
                        assert(pairs_view(acc@) == merge_step(acc0, pv));
                    }
                },
                None => {
                    acc.push(np);
                    proof {
                        assert(pairs_view(acc@) =~= acc0.push(pv));
                        assert(pairs_view(acc@) == merge_step(acc0, pv));
                    }
                },
            }
            proof {
                lemma_merge_pairs_snoc(Seq::<RuleView>::empty(), done, pv);
                done = done.push(pv);
                assert(srcv.take(c + 1) =~= srcv.take(c as int).push(srcv[c as int]));
                assert(done =~= flatten_sources(sv.take(s as int)) + srcv.take(c + 1));
            }
            c = c + 1;
        }
        proof {
            assert(srcv.take(c as int) =~= srcv);
            assert(sv.take(s as int).push(sv[s as int]) =~= sv.take(s + 1));
            lemma_flatten_snoc(sv.take(s as int), sv[s as int]);
        }
        s = s + 1;
    }
    proof {
        assert(sv.take(s as int) =~= sv);
    }
    acc
}

/// `s` with its leading run of `c` removed.
pub open spec fn drop_leading(s: Seq<char>, c: char) -> Seq<char>
    decreases s.len(),
{
    if s.len() > 0 && s[0] == c {
        drop_leading(s.skip(1), c)
    } else {
        s
    }
}

/// `s` with its trailing run of `c` removed.
pub open spec fn drop_trailing(s: Seq<char>, c: char) -> Seq<char>
    decreases s.len(),
{
    if s.len() > 0 && s[s.len() - 1] == c {
        drop_trailing(s.take(s.len() - 1), c)
    } else {
        s
    }
}

/// The least index at or after `from` holding character `c`.
pub open spec fn find_char(s: Seq<char>, c: char, from: int) -> Option<int>
    decreases s.len() - from,
{
    if from < 0 || from >= s.len() {
        None
    } else if s[from] == c {
        Some(from)
    } else {
        find_char(s, c, from + 1)
    }
}

/// How a bracketed rule argument `[pattern,template]` reads: the leading
/// `[` run and trailing `]` run are trimmed, the pattern is everything up
/// to the first comma, the template everything between the first and the
/// second comma (or to the end when there is only one); anything after a
/// second comma is dropped. Without a comma there is no pair.
pub open spec fn parse_pair_spec(s: Seq<char>) -> Option<RuleView> {
    let t = drop_trailing(drop_leading(s, '['), ']');
    match find_char(t, ',', 0) {
        None => None,
        Some(i) => {
            let e = match find_char(t, ',', i + 1) {
                None => t.len() as int,
                Some(j) => j,
            };
            Some(RuleView { pattern: t.subrange(0, i), template: t.subrange(i + 1, e) })
        },
    }
}

/// Parses one bracketed rule argument of the form `[pattern,template]`.
pub fn parse_rule_pair(s: &str) -> (r: Option<RulePair>)
    ensures
        match r {
            Some(p) => parse_pair_spec(s@) == Some(p@),
            None => parse_pair_spec(s@) is None,
        },
{
    let n = s.unicode_len();
    let mut a: usize = 0;
    proof {
        assert(s@.skip(0) =~= s@);
    }
    while a < n && s.get_char(a) == '['
        invariant
            n == s@.len(),
            a <= n,
            drop_leading(s@, '[') == drop_leading(s@.skip(a as int), '['),
        decreases n - a,
    {
        proof {
            assert(s@.skip(a as int)[0] == s@[a as int]);
            assert(s@.skip(a as int).skip(1) =~= s@.skip(a + 1));
        }
        a = a + 1;
    }
    proof {
        assert(drop_leading(s@, '[') == s@.skip(a as int));
        assert(s@.skip(a as int) =~= s@.subrange(a as int, n as int));
    }
    let mut b: usize = n;
    while b > a && s.get_char(b - 1) == ']'
        invariant
            n == s@.len(),
            a <= b <= n,
            drop_trailing(s@.skip(a as int), ']') == drop_trailing(
                s@.subrange(a as int, b as int),
                ']',
            ),
        decreases b,
    {
        proof {
            let u = s@.subrange(a as int, b as int);
            assert(u[u.len() - 1] == s@[b - 1]);
            assert(u.take(u.len() - 1) =~= s@.subrange(a as int, b - 1));
        }
        b = b - 1;
    }
    let ghost t = s@.subrange(a as int, b as int);
    proof {
        assert(drop_trailing(s@.skip(a as int), ']') == t);
        assert(t.len() == b - a);
    }
    let mut i: usize = a;
    while i < b && s.get_char(i) != ','
        invariant
            n == s@.len(),
            a <= i <= b <= n,
            t == s@.subrange(a as int, b as int),
            find_char(t, ',', 0) == find_char(t, ',', i - a as int),
        decreases b - i,
    {
        proof {
            assert(t[i - a as int] == s@[i as int]);
        }
        i = i + 1;
    }
    if i == b {
        proof {
            assert(find_char(t, ',', i - a as int) is None);
        }
        return None;
    }
    proof {
        assert(t[i - a as int] == s@[i as int]);
        assert(find_char(t, ',', 0) == Some(i - a as int));
    }
    let mut j: usize = i + 1;
    while j < b && s.get_char(j) != ','
        invariant
            n == s@.len(),
            a <= i < b <= n,
            i < j <= b,
            t == s@.subrange(a as int, b as int),
            find_char(t, ',', i - a + 1) == find_char(t, ',', j - a as int),
        decreases b - j,
    {
        proof {
            assert(t[j - a as int] == s@[j as int]);
        }
        j = j + 1;
    }
    proof {
        if j < b {
            assert(t[j - a as int] == s@[j as int]);
            assert(find_char(t, ',', j - a as int) == Some(j - a as int));
        } else {
            assert(find_char(t, ',', j - a as int) is None);
        }
    }
    let pattern = s.substring_char(a, i).to_owned();
    let template = s.substring_char(i + 1, j).to_owned();
    proof {
        assert(t.subrange(0, i - a as int) =~= s@.subrange(a as int, i as int));
        assert(t.subrange(i - a + 1, j - a as int) =~= s@.subrange(i + 1, j as int));
    }
    Some(RulePair { pattern, template })
}

} // verus!
