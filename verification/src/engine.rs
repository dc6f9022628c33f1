//! The interpolating rewriter: walks the input units with a forward-only
//! cursor, matches each unit against the rule set, and fills the matching
//! template's placeholders from the following units.

use vstd::prelude::*;

use crate::rules::{RuleSet, RuleView, first_match};
use crate::template::{count_marker, split_marker, interleave_concat};

verus! {

/// View of a list of strings as a sequence of character sequences.
pub open spec fn units_view(us: Seq<String>) -> Seq<Seq<char>> {
    us.map_values(|s: String| s@)
}

/// The output of the engine on `units` from cursor position `i` on.
///
/// An unmatched unit passes through unchanged. A match with no placeholders
/// emits the template verbatim, or nothing at all when the template is
/// empty. A match with `k > 0` placeholders takes the triggering unit and
/// the next `k - 1` units (fewer when the stream ends first), interleaves
/// them with the template's segments into one line, and moves the cursor
/// past every unit taken.
pub open spec fn rewrite_from(rules: Seq<RuleView>, units: Seq<Seq<char>>, i: int) -> Seq<
    Seq<char>,
>
    decreases units.len() - i,
{
    if i < 0 || i >= units.len() {
        Seq::<Seq<char>>::empty()
    } else {
        match first_match(rules, units[i]) {
            None => seq![units[i]] + rewrite_from(rules, units, i + 1),
            Some(j) => {
                let t = rules[j].template;
                let k = count_marker(t) as int;
                if k == 0 {
                    if t.len() == 0 {
                        rewrite_from(rules, units, i + 1)
                    } else {
                        seq![t] + rewrite_from(rules, units, i + 1)
                    }
                } else {
                    let m = if i + k <= units.len() {
                        k
                    } else {
                        units.len() - i
                    };
                    seq![interleave_concat(split_marker(t), units.subrange(i, i + m))]
                        + rewrite_from(rules, units, i + m)
                }
            },
        }
    }
}

/// The whole output of the engine: every input unit processed in order.
pub open spec fn rewrite_spec(rules: Seq<RuleView>, units: Seq<Seq<char>>) -> Seq<Seq<char>> {
    rewrite_from(rules, units, 0)
}

/// Law: with an empty rule set every unit from the cursor on passes
/// through unchanged, in order.
pub proof fn lemma_passthrough(units: Seq<Seq<char>>, i: int)
    requires
        0 <= i <= units.len(),
    ensures
        rewrite_from(Seq::<RuleView>::empty(), units, i) == units.subrange(
            i,
            units.len() as int,
        ),
    decreases units.len() - i,
{
    if i == units.len() {
        assert(units.subrange(i, units.len() as int) =~= Seq::<Seq<char>>::empty());
    } else {
        lemma_passthrough(units, i + 1);
        assert(seq![units[i]] + units.subrange(i + 1, units.len() as int) =~= units.subrange(
            i,
            units.len() as int,
        ));
    }
}

/// Law: a matching rule whose template is the empty string (and which
/// therefore has no placeholders) emits nothing for the triggering unit;
/// processing goes straight on behind it.
pub proof fn lemma_suppression(rules: Seq<RuleView>, units: Seq<Seq<char>>, i: int, j: int)
    requires
        0 <= i < units.len(),
        first_match(rules, units[i]) == Some(j),
        rules[j].template.len() == 0,
    ensures
        rewrite_from(rules, units, i) == rewrite_from(rules, units, i + 1),
{
    assert(count_marker(rules[j].template) == 0);
}

/// Law: a matching rule whose template holds no placeholder marker
/// consumes no follow-up units: the triggering unit alone is replaced, by
/// the template verbatim.
pub proof fn lemma_no_placeholders_consume_nothing(
    rules: Seq<RuleView>,
    units: Seq<Seq<char>>,
    i: int,
    j: int,
)
    requires
        0 <= i < units.len(),
        first_match(rules, units[i]) == Some(j),
        count_marker(rules[j].template) == 0,
        rules[j].template.len() > 0,
    ensures
        rewrite_from(rules, units, i) == seq![rules[j].template] + rewrite_from(
            rules,
            units,
            i + 1,
        ),
{
}

/// Law: when a rule with `k` placeholders fires and fewer than `k` units
/// remain, the engine consumes everything left, emits the one interleaved
/// line built from what was available, and ends; missing slots are simply
/// absent, never padded.
pub proof fn lemma_under_supply(rules: Seq<RuleView>, units: Seq<Seq<char>>, i: int, j: int)
    requires
        0 <= i < units.len(),
        first_match(rules, units[i]) == Some(j),
        count_marker(rules[j].template) > 0,
        units.len() - i < count_marker(rules[j].template),
    ensures
        rewrite_from(rules, units, i) == seq![
            interleave_concat(
                split_marker(rules[j].template),
                units.subrange(i, units.len() as int),
            ),
        ],
{
    let line = interleave_concat(
        split_marker(rules[j].template),
        units.subrange(i, units.len() as int),
    );
    assert(rewrite_from(rules, units, units.len() as int) == Seq::<Seq<char>>::empty());
    assert(seq![line] + Seq::<Seq<char>>::empty() =~= seq![line]);
}

/// Rewrites the input units against a compiled rule set and returns the
/// output lines.
pub fn rewrite(rs: &RuleSet, units: &Vec<String>) -> (out: Vec<String>)
    requires
        rs.wf(),
    ensures
        units_view(out@) == rewrite_spec(rs@, units_view(units@)),
{
    let ghost rv = rs@;
    let ghost uv = units_view(units@);
    let mut out: Vec<String> = Vec::new();
    let mut i: usize = 0;
    let n = units.len();
    proof {
        assert(units_view(out@) + rewrite_from(rv, uv, 0) =~= rewrite_from(rv, uv, 0));
    }
    while i < n
        invariant
            rs.wf(),
            rv == rs@,
            uv == units_view(units@),
            n == units@.len(),
            i <= n,
            units_view(out@) + rewrite_from(rv, uv, i as int) == rewrite_from(rv, uv, 0),
        decreases n - i,
    {
        let ghost out0 = units_view(out@);
        match rs.match_unit(units[i].as_str()) {
            None => {
                out.push(units[i].clone());
                proof {
                    assert(units_view(out@) =~= out0 + seq![uv[i as int]]);
                    assert(units_view(out@) + rewrite_from(rv, uv, i + 1) =~= out0
                        + rewrite_from(rv, uv, i as int));
                }
                i = i + 1;
            },
            Some(j) => {
                let k = rs.placeholder_count(j);
                if k == 0 {
                    let empty_template = rs.template(j).as_str().unicode_len() == 0;
                    if empty_template {
                        proof {
                            assert(rewrite_from(rv, uv, i as int) == rewrite_from(rv, uv, i + 1));
                        }
                    } else {
                        out.push(rs.template(j).clone());
                        proof {
                            assert(units_view(out@) =~= out0 + seq![rv[j as int].template]);
                            assert(units_view(out@) + rewrite_from(rv, uv, i + 1) =~= out0
                                + rewrite_from(rv, uv, i as int));
                        }
                    }
                    i = i + 1;
                } else {
                    let avail = n - i;
                    let m = if k <= avail {
                        k
                    } else {
                        avail
                    };
                    let mut vals: Vec<String> = Vec::new();
                    let mut c: usize = 0;
                    while c < m
                        invariant
                            uv == units_view(units@),
                            n == units@.len(),
                            i + m <= n,
                            c <= m,
                            vals@.len() == c,
                            vals@.map_values(|s: String| s@) == uv.subrange(
                                i as int,
                                i + c as int,
                            ),
                        decreases m - c,
                    {
                        vals.push(units[i + c].clone());
                        proof {
                            assert(vals@.map_values(|s: String| s@) =~= uv.subrange(
                                i as int,
                                i + c + 1,
                            ));
                        }
                        c = c + 1;
                    }
                    let segs = crate::template::split_template(rs.template(j).as_str());
                    let line = crate::template::interleave_join(&segs, &vals);
                    out.push(line);
                    proof {
                        assert(line@ == interleave_concat(
                            split_marker(rv[j as int].template),
                            uv.subrange(i as int, i + m as int),
                        ));
                        assert(units_view(out@) =~= out0 + seq![line@]);
                        assert(units_view(out@) + rewrite_from(rv, uv, i + m as int) =~= out0
                            + rewrite_from(rv, uv, i as int));
                    }
                    i = i + m;
                }
            },
        }
    }
    proof {
        assert(units_view(out@) =~= rewrite_from(rv, uv, 0));
    }
    out
}

} // verus!
