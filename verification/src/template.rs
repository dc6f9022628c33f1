//! Placeholder templates: counting `{}` markers, splitting a template into
//! its literal segments, and interleaving segments with input units.

use vstd::prelude::*;

verus! {

/// Number of non-overlapping occurrences of the placeholder marker `{}`
/// in a template, scanning left to right.
pub open spec fn count_marker(t: Seq<char>) -> nat
    decreases t.len(),
{
    if t.len() < 2 {
        0
    } else if t[0] == '{' && t[1] == '}' {
        1 + count_marker(t.skip(2))
    } else {
        count_marker(t.skip(1))
    }
}

/// The literal segments of a template, split on every non-overlapping `{}`
/// marker, scanning left to right. Always at least one segment.
pub open spec fn split_marker(t: Seq<char>) -> Seq<Seq<char>>
    decreases t.len(),
{
    if t.len() < 2 {
        seq![t]
    } else if t[0] == '{' && t[1] == '}' {
        seq![Seq::<char>::empty()] + split_marker(t.skip(2))
    } else {
        let rest = split_marker(t.skip(1));
        seq![seq![t[0]] + rest[0]] + rest.skip(1)
    }
}

/// Splitting a template yields exactly one segment more than it has
/// placeholder markers.
pub proof fn lemma_split_marker_len(t: Seq<char>)
    ensures
        split_marker(t).len() == count_marker(t) + 1,
    decreases t.len(),
{
    if t.len() < 2 {
    } else if t[0] == '{' && t[1] == '}' {
        lemma_split_marker_len(t.skip(2));
    } else {
        lemma_split_marker_len(t.skip(1));
    }
}

/// A template holds at most one marker per two characters.
pub proof fn lemma_count_marker_bound(t: Seq<char>)
    ensures
        2 * count_marker(t) <= t.len(),
    decreases t.len(),
{
    if t.len() < 2 {
    } else if t[0] == '{' && t[1] == '}' {
        lemma_count_marker_bound(t.skip(2));
    } else {
        lemma_count_marker_bound(t.skip(1));
    }
}

/// Counts the non-overlapping `{}` markers in a template.
pub fn placeholder_count(t: &str) -> (c: usize)
    ensures
        c == count_marker(t@),
    decreases t@.len(),
{
    let n = t.unicode_len();
    if n < 2 {
        0
    } else if t.get_char(0) == '{' && t.get_char(1) == '}' {
        let sub = t.substring_char(2, n);
        proof {
            assert(sub@ =~= t@.skip(2));
        }
        let c2 = placeholder_count(sub);
        proof {
            lemma_count_marker_bound(t@.skip(2));
        }
        1 + c2
    } else {
        let sub = t.substring_char(1, n);
        proof {
            assert(sub@ =~= t@.skip(1));
        }
        placeholder_count(sub)
    }
}

/// Splits a template into its literal segments around each `{}` marker.
pub fn split_template(t: &str) -> (segs: Vec<String>)
    ensures
        segs@.map_values(|s: String| s@) == split_marker(t@),
        segs@.len() == count_marker(t@) + 1,
    decreases t@.len(),
{
    proof {
        lemma_split_marker_len(t@);
    }
    let n = t.unicode_len();
    if n < 2 {
        let mut v: Vec<String> = Vec::new();
        v.push(t.to_owned());
        proof {
            assert(v@.map_values(|s: String| s@) =~~= split_marker(t@));
        }
        v
    } else if t.get_char(0) == '{' && t.get_char(1) == '}' {
        let sub = t.substring_char(2, n);
        proof {
            assert(sub@ =~= t@.skip(2));
        }
        let mut rest = split_template(sub);
        rest.insert(0, String::new());
        proof {
            assert(rest@.map_values(|s: String| s@) =~~= split_marker(t@));
        }
        rest
    } else {
        let sub = t.substring_char(1, n);
        proof {
            assert(sub@ =~= t@.skip(1));
        }
        let mut rest = split_template(sub);
        let tail = rest.remove(0);
        let mut head = t.substring_char(0, 1).to_owned();
        head.append(tail.as_str());
        rest.insert(0, head);
        proof {
            assert(head@ =~= seq![t@[0]] + split_marker(t@.skip(1))[0]);
            assert(rest@.map_values(|s: String| s@) =~~= split_marker(t@));
        }
        rest
    }
}

/// Alternating concatenation of two sequences of strings: one element of
/// `a`, one of `b`, and so on; when one side runs out the rest of the other
/// follows unbroken.
pub open spec fn interleave_concat(a: Seq<Seq<char>>, b: Seq<Seq<char>>) -> Seq<char>
    decreases a.len() + b.len(),
{
    if a.len() == 0 && b.len() == 0 {
        Seq::<char>::empty()
    } else if a.len() == 0 {
        b[0] + interleave_concat(a, b.skip(1))
    } else if b.len() == 0 {
        a[0] + interleave_concat(a.skip(1), b)
    } else {
        a[0] + b[0] + interleave_concat(a.skip(1), b.skip(1))
    }
}

/// The part of `a` from position `i` on; empty once `i` runs past the end.
pub open spec fn tail_from(a: Seq<Seq<char>>, i: int) -> Seq<Seq<char>> {
    if 0 <= i <= a.len() {
        a.skip(i)
    } else {
        Seq::<Seq<char>>::empty()
    }
}

/// Joins segments and values alternately into one output line: the first
/// segment, the first value, the second segment, and so on.
pub fn interleave_join(segs: &Vec<String>, vals: &Vec<String>) -> (out: String)
    ensures
        out@ == interleave_concat(
            segs@.map_values(|s: String| s@),
            vals@.map_values(|s: String| s@),
        ),
{
    let ghost av = segs@.map_values(|s: String| s@);
    let ghost bv = vals@.map_values(|s: String| s@);
    let mut out = String::new();
    let mut i: usize = 0;
    proof {
        assert(tail_from(av, 0) =~= av);
        assert(tail_from(bv, 0) =~= bv);
        assert(out@ + interleave_concat(av, bv) =~= interleave_concat(av, bv));
    }
    while i < segs.len() || i < vals.len()
        invariant
            av == segs@.map_values(|s: String| s@),
            bv == vals@.map_values(|s: String| s@),
            out@ + interleave_concat(tail_from(av, i as int), tail_from(bv, i as int))
                == interleave_concat(av, bv),
        decreases segs.len() + vals.len() - i,
    {
        let ghost out0 = out@;
        let ghost ai = if i < segs.len() {
            av[i as int]
        } else {
            Seq::<char>::empty()
        };
        let ghost bi = if i < vals.len() {
            bv[i as int]
        } else {
            Seq::<char>::empty()
        };
        if i < segs.len() {
            out.append(segs[i].as_str());
        }
        if i < vals.len() {
            out.append(vals[i].as_str());
        }
        proof {
            assert(out@ =~= out0 + ai + bi);
            if i < segs.len() {
                assert(tail_from(av, i as int) == av.skip(i as int));
                assert(av.skip(i as int)[0] == av[i as int]);
                assert(av.skip(i as int).skip(1) =~= tail_from(av, i + 1));
            } else {
                assert(tail_from(av, i as int) =~= Seq::<Seq<char>>::empty());
                assert(tail_from(av, i + 1) =~= Seq::<Seq<char>>::empty());
            }
            if i < vals.len() {
                assert(tail_from(bv, i as int) == bv.skip(i as int));
                assert(bv.skip(i as int)[0] == bv[i as int]);
                assert(bv.skip(i as int).skip(1) =~= tail_from(bv, i + 1));
            } else {
                assert(tail_from(bv, i as int) =~= Seq::<Seq<char>>::empty());
                assert(tail_from(bv, i + 1) =~= Seq::<Seq<char>>::empty());
            }
            assert(interleave_concat(tail_from(av, i as int), tail_from(bv, i as int)) =~= ai + bi
                + interleave_concat(tail_from(av, i + 1), tail_from(bv, i + 1)));
            assert(out@ + interleave_concat(tail_from(av, i + 1), tail_from(bv, i + 1)) =~= out0
                + interleave_concat(tail_from(av, i as int), tail_from(bv, i as int)));
        }
        i = i + 1;
    }
    proof {
        assert(tail_from(av, i as int).len() == 0);
        assert(tail_from(bv, i as int).len() == 0);
        assert(out@ =~= interleave_concat(av, bv));
    }
    out
}

} // verus!
