//! Folding a flat list of module paths into package roots with counts.
use crate::graph::{has_path, typed_list, DependencyType};
use crate::text::{is_descendant_path, is_dotted_descendant, lex_lt, str_lt};
use vstd::prelude::*;

verus! {

/// Whether some entry of `s` has path `x`.
pub open spec fn lists_path(s: Seq<(Seq<char>, DependencyType)>, x: Seq<char>) -> bool {
    exists|k: int| 0 <= k < s.len() && (#[trigger] s[k]).0 == x
}

/// `s` with every entry whose path already occurred dropped.
pub open spec fn first_occurrences(s: Seq<(Seq<char>, DependencyType)>) -> Seq<
    (Seq<char>, DependencyType),
>
    decreases s.len(),
{
    if s.len() == 0 {
        Seq::empty()
    } else {
        let p = first_occurrences(s.drop_last());
        if lists_path(p, s.last().0) {
            p
        } else {
            p.push(s.last())
        }
    }
}

/// No two entries share a path.
pub open spec fn distinct_paths(s: Seq<(Seq<char>, DependencyType)>) -> bool {
    forall|a: int, b: int| 0 <= a < b < s.len() ==> s[a].0 != s[b].0
}

/// Neither path lies below the other, nor are they equal.
pub open spec fn unrelated(a: Seq<char>, b: Seq<char>) -> bool {
    a != b && !is_dotted_descendant(a, b) && !is_dotted_descendant(b, a)
}

/// `x` is the path of an entry before position `j` of `rv` that lies below `p`.
pub open spec fn removed_at(rv: Seq<(Seq<char>, DependencyType, usize)>, p: Seq<char>, j: int, x: Seq<char>) -> bool {
    exists|k: int| 0 <= k < j && rv[k].0 == x && is_dotted_descendant(rv[k].0, p)
}

/// A collapsed entry as plain values.
pub open spec fn entry_view(e: (String, DependencyType, usize)) -> (Seq<char>, DependencyType, usize) {
    (e.0@, e.1, e.2)
}

/// The sum of the fold counts.
pub open spec fn total(r: Seq<(Seq<char>, DependencyType, usize)>) -> int
    decreases r.len(),
{
    if r.len() == 0 {
        0
    } else {
        total(r.drop_last()) + r.last().2
    }
}

/// `out` is the hierarchical collapse of `input`: its paths are distinct
/// input paths in strictly increasing order, none below another, each with
/// the type its path first came with; every distinct input path is one of
/// them or lies below one; each count is the number of distinct input paths
/// at or below its entry, and the counts add up to the number of distinct
/// paths.
pub open spec fn collapsed(
    input: Seq<(Seq<char>, DependencyType)>,
    out: Seq<(Seq<char>, DependencyType, usize)>,
) -> bool {
    let d = first_occurrences(input);
    &&& forall|a: int, b: int| 0 <= a < b < out.len() ==> lex_lt(out[a].0, out[b].0)
    &&& forall|a: int, b: int| 0 <= a < b < out.len() ==> unrelated(out[a].0, out[b].0)
    &&& forall|k: int| 0 <= k < out.len() ==> d.contains((out[k].0, out[k].1))
    &&& forall|k: int| 0 <= k < out.len() ==> out[k].2 >= 1
    &&& forall|x: int|
        0 <= x < d.len() ==> exists|k: int|
            0 <= k < out.len() && (out[k].0 == (#[trigger] d[x]).0 || is_dotted_descendant(
                d[x].0,
                out[k].0,
            ))
    &&& total(out) == d.len()
    &&& forall|k: int| 0 <= k < out.len() ==> (#[trigger] out[k]).2 == count_under(d, out[k].0)
}

pub proof fn lemma_first_occurrences_distinct(s: Seq<(Seq<char>, DependencyType)>)
    ensures
        distinct_paths(first_occurrences(s)),
        forall|x: (Seq<char>, DependencyType)| #[trigger]
            first_occurrences(s).contains(x) ==> s.contains(x),
        first_occurrences(s).len() <= s.len(),
    decreases s.len(),
{
    if s.len() > 0 {
        let p = first_occurrences(s.drop_last());
        lemma_first_occurrences_distinct(s.drop_last());
        assert forall|x: (Seq<char>, DependencyType)| #[trigger]
            first_occurrences(s).contains(x) implies s.contains(x) by {
            if p.contains(x) {
                let i = choose|i: int| 0 <= i < s.drop_last().len() && s.drop_last()[i] == x;
                assert(s[i] == x);
            } else {
                assert(s[s.len() - 1] == x);
            }
        }
        if !lists_path(p, s.last().0) {
            let q = p.push(s.last());
            assert forall|a: int, b: int| 0 <= a < b < q.len() implies q[a].0 != q[b].0 by {
                if b == q.len() - 1 {
                    assert(q[a] == p[a]);
                } else {
                    assert(q[a] == p[a] && q[b] == p[b]);
                }
            }
        }
    }
}

/// Lying below is transitive.
pub proof fn lemma_descendant_transitive(x: Seq<char>, r: Seq<char>, p: Seq<char>)
    requires
        is_dotted_descendant(x, r),
        is_dotted_descendant(r, p),
    ensures
        is_dotted_descendant(x, p),
{
    assert(x.subrange(0, r.len() as int).subrange(0, p.len() as int) =~= x.subrange(
        0,
        p.len() as int,
    ));
    assert(x[p.len() as int] == x.subrange(0, r.len() as int)[p.len() as int]);
}

/// Two paths that both lie at or above `x` are equal or one lies below the other.
pub proof fn lemma_ancestors_related(x: Seq<char>, a: Seq<char>, b: Seq<char>)
    requires
        a == x || is_dotted_descendant(x, a),
        b == x || is_dotted_descendant(x, b),
    ensures
        !unrelated(a, b),
{
    if a.len() < b.len() {
        if b != x {
            assert(b.subrange(0, a.len() as int) =~= x.subrange(0, a.len() as int));
            assert(b[a.len() as int] == x[a.len() as int]);
        } else {
        }
    } else if b.len() < a.len() {
        if a != x {
            assert(a.subrange(0, b.len() as int) =~= x.subrange(0, b.len() as int));
            assert(a[b.len() as int] == x[b.len() as int]);
        }
    } else {
        if a != x && b != x {
            assert(a =~= x.subrange(0, a.len() as int));
            assert(b =~= x.subrange(0, b.len() as int));
        }
    }
}

/// Drops every entry whose path already occurred, keeping the first.
fn dedup_paths(modules: &Vec<(String, DependencyType)>) -> (r: Vec<(String, DependencyType)>)
    ensures
        typed_list(r@) == first_occurrences(typed_list(modules@)),
{
    let mut r: Vec<(String, DependencyType)> = Vec::new();
    let mut i: usize = 0;
    while i < modules.len()
        invariant
            i <= modules@.len(),
            typed_list(r@) == first_occurrences(typed_list(modules@).take(i as int)),
        decreases modules@.len() - i,
    {
        let ghost s = typed_list(modules@).take(i + 1);
        assert(s.drop_last() =~= typed_list(modules@).take(i as int));
        let seen = has_path(&r, 0, &modules[i].0);
        assert(seen == lists_path(typed_list(r@), s.last().0)) by {
            if seen {
                let k = choose|k: int| 0 <= k < r@.len() && (#[trigger] r@[k]).0@ == modules@[i as int].0@;
                assert(typed_list(r@)[k].0 == s.last().0);
            }
            if lists_path(typed_list(r@), s.last().0) {
                let k = choose|k: int| 0 <= k < typed_list(r@).len() && (#[trigger] typed_list(r@)[k]).0 == s.last().0;
                assert(r@[k].0@ == modules@[i as int].0@);
            }
        }
        if !seen {
            let ghost old_r = r@;
            r.push((modules[i].0.clone(), modules[i].1));
            assert(typed_list(r@) =~= typed_list(old_r).push(s.last()));
        }
        i = i + 1;
    }
    assert(typed_list(modules@).take(i as int) =~= typed_list(modules@));
    r
}

/// Orders entries with distinct paths by path.
fn sort_by_path(v: Vec<(String, DependencyType)>) -> (r: Vec<(String, DependencyType)>)
    requires
        distinct_paths(typed_list(v@)),
    ensures
        r@.len() == v@.len(),
        forall|a: int, b: int| 0 <= a < b < r@.len() ==> lex_lt(r@[a].0@, r@[b].0@),
        forall|x: (Seq<char>, DependencyType)|
            typed_list(r@).contains(x) <==> typed_list(v@).contains(x),
{
    let mut r: Vec<(String, DependencyType)> = Vec::new();
    let mut i: usize = 0;
    while i < v.len()
        invariant
            i <= v@.len(),
            distinct_paths(typed_list(v@)),
            r@.len() == i,
            forall|a: int, b: int| 0 <= a < b < r@.len() ==> lex_lt(r@[a].0@, r@[b].0@),
            forall|x: (Seq<char>, DependencyType)|
                typed_list(r@).contains(x) <==> typed_list(v@).take(i as int).contains(x),
        decreases v@.len() - i,
    {
        let mut pos: usize = 0;
        while pos < r.len() && !str_lt(&v[i].0, &r[pos].0)
            invariant
                i < v@.len(),
                pos <= r@.len(),
                forall|a: int| 0 <= a < pos ==> !lex_lt(v@[i as int].0@, r@[a].0@),
            decreases r@.len() - pos,
        {
            pos = pos + 1;
        }
        let ghost old_r = r@;
        let ghost x = v@[i as int];
        assert(forall|y: (Seq<char>, DependencyType)|
            typed_list(old_r).contains(y) <==> typed_list(v@).take(i as int).contains(y));
        assert forall|a: int| 0 <= a < old_r.len() implies old_r[a].0@ != x.0@ by {
            let y = (old_r[a].0@, old_r[a].1);
            assert(typed_list(old_r).contains(y)) by {
                assert(typed_list(old_r)[a] == y);
            }
            let j = choose|j: int| 0 <= j < i && typed_list(v@).take(i as int)[j] == y;
            assert(typed_list(v@)[j] == y);
            assert(typed_list(v@)[i as int].0 == x.0@);
        }
        r.insert(pos, (v[i].0.clone(), v[i].1));
        proof {
            assert forall|a: int, b: int| 0 <= a < b < r@.len() implies lex_lt(r@[a].0@, r@[b].0@) by {
                if a < pos && b == pos {
                    crate::text::lemma_lex_total(old_r[a].0@, x.0@);
                } else if a == pos && b > pos {
                    if b - 1 == pos as int {
                    } else {
                        crate::text::lemma_lex_transitive(x.0@, old_r[pos as int].0@, old_r[b - 1].0@);
                    }
                } else if a < pos && b > pos {
                    assert(r@[a] == old_r[a] && r@[b] == old_r[b - 1]);
                } else if b < pos {
                    assert(r@[a] == old_r[a] && r@[b] == old_r[b]);
                } else {
                    assert(r@[a] == old_r[a - 1] && r@[b] == old_r[b - 1]);
                }
            }
            let xv = (x.0@, x.1);
            assert(typed_list(v@).take(i + 1) =~= typed_list(v@).take(i as int).push(xv));
            assert forall|y: (Seq<char>, DependencyType)|
                typed_list(r@).contains(y) <==> typed_list(v@).take(i + 1).contains(y) by {
                let t = typed_list(v@).take(i as int);
                if typed_list(r@).contains(y) {
                    let k = choose|k: int| 0 <= k < r@.len() && typed_list(r@)[k] == y;
                    if k < pos {
                        assert(typed_list(old_r)[k] == y);
                        assert(typed_list(old_r).contains(y));
                    } else if k > pos {
                        assert(typed_list(old_r)[k - 1] == y);
                        assert(typed_list(old_r).contains(y));
                    } else {
                        assert(t.push(xv)[i as int] == y);
                    }
                    if k != pos {
                        let j = choose|j: int| 0 <= j < t.len() && t[j] == y;
                        assert(t.push(xv)[j] == y);
                    }
                }
                if t.push(xv).contains(y) {
                    let j = choose|j: int| 0 <= j < t.len() + 1 && t.push(xv)[j] == y;
                    if j == t.len() {
                        assert(typed_list(r@)[pos as int] == y);
                    } else {
                        assert(t[j] == y);
                        assert(t.contains(y));
                        assert(typed_list(old_r).contains(y));
                        let k = choose|k: int| 0 <= k < old_r.len() && typed_list(old_r)[k] == y;
                        if k < pos {
                            assert(typed_list(r@)[k] == y);
                        } else {
                            assert(typed_list(r@)[k + 1] == y);
                        }
                    }
                }
            }
        }
        i = i + 1;
    }
    assert(typed_list(v@).take(i as int) =~= typed_list(v@));
    r
}

} // verus!

verus! {

/// A collapsed list as plain values.
pub open spec fn entries_view(v: Seq<(String, DependencyType, usize)>) -> Seq<
    (Seq<char>, DependencyType, usize),
> {
    v.map_values(|e: (String, DependencyType, usize)| entry_view(e))
}

proof fn lemma_total_take(r: Seq<(Seq<char>, DependencyType, usize)>, j: int)
    requires
        0 <= j < r.len(),
    ensures
        total(r.take(j + 1)) == total(r.take(j)) + r[j].2,
{
    assert(r.take(j + 1).drop_last() =~= r.take(j));
}

proof fn lemma_total_nonneg(r: Seq<(Seq<char>, DependencyType, usize)>)
    ensures
        total(r) >= 0,
    decreases r.len(),
{
    if r.len() > 0 {
        lemma_total_nonneg(r.drop_last());
    }
}

proof fn lemma_total_prefix(r: Seq<(Seq<char>, DependencyType, usize)>, j: int)
    requires
        0 <= j <= r.len(),
    ensures
        total(r.take(j)) <= total(r),
        forall|k: int| 0 <= k < r.len() ==> r[k].2 <= total(r),
    decreases r.len(),
{
    if r.len() > 0 {
        let d = r.drop_last();
        if j == r.len() {
            assert(r.take(j) =~= r);
            lemma_total_prefix(d, d.len() as int);
        } else {
            assert(r.take(j) =~= d.take(j));
            lemma_total_prefix(d, j);
        }
        assert forall|k: int| 0 <= k < r.len() implies r[k].2 <= total(r) by {
            if k < d.len() {
                assert(d[k] == r[k]);
            }
        }
    }
}

proof fn lemma_total_bump(r: Seq<(Seq<char>, DependencyType, usize)>, k: int, e: (
    Seq<char>,
    DependencyType,
    usize,
))
    requires
        0 <= k < r.len(),
        e.2 == r[k].2 + 1,
    ensures
        total(r.update(k, e)) == total(r) + 1,
    decreases r.len(),
{
    let u = r.update(k, e);
    if k == r.len() - 1 {
        assert(u.drop_last() =~= r.drop_last());
    } else {
        lemma_total_bump(r.drop_last(), k, e);
        assert(u.drop_last() =~= r.drop_last().update(k, e));
    }
}

/// Folds a list of (path, type) pairs into package roots: repeated paths
/// count once and keep their first type; a path below another listed path
/// is absorbed by it, and each remaining entry counts the distinct paths it
/// stands for, itself included. The result is ordered by path.
#[verifier::rlimit(80)]
pub fn filter_hierarchical(modules: Vec<(String, DependencyType)>) -> (r: Vec<
    (String, DependencyType, usize),
>)
    ensures
        collapsed(typed_list(modules@), entries_view(r@)),
        forall|a: int, b: int|
            0 <= a < r@.len() && 0 <= b < r@.len() && a != b ==> !is_dotted_descendant(r@[a].0@, r@[b].0@),
        forall|a: int, b: int| 0 <= a < r@.len() && 0 <= b < r@.len() && a != b ==> r@[a].0@ != r@[b].0@,
{
    let ghost dd = first_occurrences(typed_list(modules@));
    let d = dedup_paths(&modules);
    proof {
        lemma_first_occurrences_distinct(typed_list(modules@));
    }
    let s = sort_by_path(d);
    let ghost sv = typed_list(s@);
    proof {
        assert forall|a: int, b: int| 0 <= a < b < sv.len() implies sv[a].0 != sv[b].0 by {
            crate::text::lemma_lex_irreflexive(sv[a].0);
        }
    }
    let mut result: Vec<(String, DependencyType, usize)> = Vec::new();
    let mut i: usize = 0;
    let slen = s.len();
    while i < slen
        invariant
            slen == s@.len(),
            sv == typed_list(s@),
            forall|a: int, b: int| 0 <= a < b < sv.len() ==> sv[a].0 != sv[b].0,
            i <= s@.len(),
            forall|a: int, b: int| 0 <= a < b < s@.len() ==> lex_lt(s@[a].0@, s@[b].0@),
            forall|x: (Seq<char>, DependencyType)| sv.contains(x) <==> dd.contains(x),
            s@.len() == dd.len(),
            forall|a: int, b: int|
                0 <= a < b < entries_view(result@).len() ==> lex_lt(
                    entries_view(result@)[a].0,
                    entries_view(result@)[b].0,
                ),
            forall|a: int, b: int|
                0 <= a < b < entries_view(result@).len() ==> unrelated(
                    entries_view(result@)[a].0,
                    entries_view(result@)[b].0,
                ),
            forall|k: int|
                0 <= k < entries_view(result@).len() ==> exists|j: int|
                    0 <= j < i && sv[j] == (
                        (#[trigger] entries_view(result@)[k]).0,
                        entries_view(result@)[k].1,
                    ),
            forall|k: int| 0 <= k < result@.len() ==> (#[trigger] result@[k]).2 >= 1,
            forall|j: int|
                0 <= j < i ==> exists|k: int|
                    0 <= k < result@.len() && (result@[k].0@ == (#[trigger] sv[j]).0
                        || is_dotted_descendant(sv[j].0, result@[k].0@)),
            total(entries_view(result@)) == i,
            forall|k: int|
                0 <= k < entries_view(result@).len() ==> (#[trigger] entries_view(result@)[k]).2
                    == count_under(sv.take(i as int), entries_view(result@)[k].0),
        decreases s@.len() - i,
    {
        let ghost rv = entries_view(result@);
        let ghost si = sv.take(i as int);
        assert(sv.take(i + 1) =~= si.push(sv[i as int]));
        assert(sv.take(i + 1).drop_last() =~= si);
        proof {
            lemma_total_prefix(rv, 0);
        }
        let p = &s[i].0;
        let ghost pv = p@;
        assert(sv[i as int].0 == pv);
        // Is some entry an ancestor of `p`?
        let mut idx: usize = 0;
        let mut found = false;
        while !found && idx < result.len()
            invariant
                idx <= result@.len(),
                p@ == pv,
                found ==> idx < result@.len() && is_dotted_descendant(pv, result@[idx as int].0@),
                forall|k: int| 0 <= k < idx ==> !is_dotted_descendant(pv, result@[k].0@),
            decreases result@.len() - idx + (if found { 0int } else { 1int }),
        {
            if is_descendant_path(p, &result[idx].0) {
                found = true;
            } else {
                idx = idx + 1;
            }
        }
        if found {
            assert(result@[idx as int].2 == rv[idx as int].2);
            let e = (result[idx].0.clone(), result[idx].1, result[idx].2 + 1);
            let ghost ev = entry_view(e);
            let ghost before = result@;
            result.set(idx, e);
            proof {
                assert(entries_view(result@) =~= rv.update(idx as int, ev));
                lemma_total_bump(rv, idx as int, ev);
                let nv = entries_view(result@);
                assert forall|a: int, b: int| 0 <= a < b < nv.len() implies lex_lt(nv[a].0, nv[b].0)
                    && unrelated(nv[a].0, nv[b].0) by {
                    assert(nv[a].0 == rv[a].0 && nv[b].0 == rv[b].0);
                }
                assert forall|k: int| 0 <= k < result@.len() implies (#[trigger] result@[k]).2 >= 1 by {
                    assert(result@[k].2 == nv[k].2);
                    assert(before[k].2 >= 1);
                    assert(rv[k].2 == before[k].2);
                }
                assert forall|jj: int|
                    0 <= jj < i + 1 implies exists|k: int|
                        0 <= k < result@.len() && (result@[k].0@ == (#[trigger] sv[jj]).0
                            || is_dotted_descendant(sv[jj].0, result@[k].0@)) by {
                    if jj == i {
                        assert(result@[idx as int].0@ == rv[idx as int].0);
                    } else {
                        let k = choose|k: int|
                            0 <= k < before.len() && (before[k].0@ == sv[jj].0
                                || is_dotted_descendant(sv[jj].0, before[k].0@));
                        assert(result@[k].0@ == nv[k].0);
                        assert(nv[k].0 == rv[k].0);
                        assert(rv[k] == entry_view(before[k]));
                    }
                }
                assert forall|k: int|
                    0 <= k < entries_view(result@).len() implies exists|j: int|
                        0 <= j < i + 1 && sv[j] == (
                            (#[trigger] entries_view(result@)[k]).0,
                            entries_view(result@)[k].1,
                        ) by {
                    assert(entries_view(result@)[k].0 == rv[k].0 && entries_view(result@)[k].1 == rv[k].1);
                    let j = choose|j: int| 0 <= j < i && sv[j] == (rv[k].0, rv[k].1);
                }
                assert forall|k: int| 0 <= k < nv.len() implies (#[trigger] nv[k]).2 == count_under(sv.take(i + 1), nv[k].0) by {
                    assert(nv[k].0 == rv[k].0);
                    if k == idx {
                        assert(under(pv, rv[k].0));
                    } else {
                        assert(nv[k] == rv[k]);
                        let j = choose|j: int| 0 <= j < i && sv[j] == (rv[k].0, rv[k].1);
                        assert(sv[j].0 != sv[i as int].0);
                        if is_dotted_descendant(pv, rv[k].0) {
                            lemma_ancestors_related(pv, rv[k].0, rv[idx as int].0);
                            if k < idx {
                                assert(unrelated(rv[k].0, rv[idx as int].0));
                            } else {
                                assert(unrelated(rv[idx as int].0, rv[k].0));
                            }
                        }
                        assert(!under(pv, rv[k].0));
                    }
                }
            }
        } else {
            let mut kept: Vec<(String, DependencyType, usize)> = Vec::new();
            let mut child_count: usize = 1;
            let ghost idxs: Seq<int> = Seq::empty();
            let ghost rem: Seq<Seq<char>> = Seq::empty();
            let mut j: usize = 0;
            assert(sum_under(rem, si) == 0);
            while j < result.len()
                invariant
                    rv == entries_view(result@),
                    si == sv.take(i as int),
                    child_count == 1 + sum_under(rem, si),
                    rem.no_duplicates(),
                    forall|q: int| 0 <= q < rem.len() ==> removed_at(rv, pv, j as int, #[trigger] rem[q]),
                    forall|k: int| 0 <= k < j && is_dotted_descendant(rv[k].0, pv) ==> rem.contains(#[trigger] rv[k].0),
                    forall|a: int, b: int| 0 <= a < b < rv.len() ==> unrelated(rv[a].0, rv[b].0),
                    forall|k: int| 0 <= k < rv.len() ==> (#[trigger] rv[k]).2 == count_under(si, rv[k].0),
                    p@ == pv,
                    j <= result@.len(),
                    total(rv) == i,
                    i < slen,
                    forall|k: int| 0 <= k < rv.len() ==> rv[k].2 <= total(rv),
                    child_count + total(entries_view(kept@)) == total(rv.take(j as int)) + 1,
                    child_count >= 1,
                    idxs.len() == kept@.len(),
                    forall|m: int| 0 <= m < idxs.len() ==> 0 <= #[trigger] idxs[m] < j,
                    forall|m: int, n: int| 0 <= m < n < idxs.len() ==> idxs[m] < idxs[n],
                    forall|m: int|
                        0 <= m < idxs.len() ==> #[trigger] entries_view(kept@)[m] == rv[idxs[m]],
                    forall|m: int|
                        0 <= m < idxs.len() ==> !is_dotted_descendant(
                            #[trigger] entries_view(kept@)[m].0,
                            pv,
                        ),
                    forall|k: int|
                        0 <= k < j ==> is_dotted_descendant(#[trigger] rv[k].0, pv) || exists|m: int|
                            0 <= m < idxs.len() && idxs[m] == k,
                decreases result@.len() - j,
            {
                proof {
                    lemma_total_prefix(rv, j as int);
                    lemma_total_take(rv, j as int);
                    lemma_total_prefix(rv, j + 1);
                }
                proof {
                    lemma_total_nonneg(entries_view(kept@));
                }
                assert(rv[j as int] == entry_view(result@[j as int]));
                if is_descendant_path(&result[j].0, p) {
                    child_count = child_count + result[j].2;
                    proof {
                        let x = rv[j as int].0;
                        let old_rem = rem;
                        assert(!old_rem.contains(x)) by {
                            if old_rem.contains(x) {
                                let q = choose|q: int| 0 <= q < old_rem.len() && old_rem[q] == x;
                                assert(removed_at(rv, pv, j as int, old_rem[q]));
                                let k = choose|k: int| 0 <= k < j && rv[k].0 == old_rem[q] && is_dotted_descendant(rv[k].0, pv);
                                assert(unrelated(rv[k].0, rv[j as int].0));
                            }
                        }
                        rem = rem.push(x);
                        assert(rem.drop_last() =~= old_rem);
                        assert(rem.no_duplicates()) by {
                            assert forall|a: int, b: int| 0 <= a < rem.len() && 0 <= b < rem.len() && a != b implies rem[a] != rem[b] by {
                                if a < old_rem.len() && b < old_rem.len() {
                                    assert(rem[a] == old_rem[a] && rem[b] == old_rem[b]);
                                } else if a < old_rem.len() {
                                    assert(old_rem.contains(rem[a]));
                                } else {
                                    assert(old_rem.contains(rem[b]));
                                }
                            }
                        }
                        assert forall|q: int| 0 <= q < rem.len() implies removed_at(rv, pv, j + 1, #[trigger] rem[q]) by {
                            if q < old_rem.len() {
                                assert(rem[q] == old_rem[q]);
                                assert(removed_at(rv, pv, j as int, old_rem[q]));
                            } else {
                                assert(rv[j as int].0 == rem[q]);
                            }
                        }
                        assert forall|k: int| 0 <= k < j + 1 && is_dotted_descendant(rv[k].0, pv) implies rem.contains(#[trigger] rv[k].0) by {
                            if k < j {
                                let q = choose|q: int| 0 <= q < old_rem.len() && old_rem[q] == rv[k].0;
                                assert(rem[q] == rv[k].0);
                            } else {
                                assert(rem[rem.len() - 1] == rv[k].0);
                            }
                        }
                    }
                } else {
                    let ghost old_kept = entries_view(kept@);
                    kept.push((result[j].0.clone(), result[j].1, result[j].2));
                    proof {
                        assert(entries_view(kept@) =~= old_kept.push(rv[j as int]));
                        assert(entries_view(kept@).drop_last() =~= old_kept);
                        let old_idxs = idxs;
                        idxs = idxs.push(j as int);
                        assert forall|k: int|
                            0 <= k < j + 1 implies is_dotted_descendant(#[trigger] rv[k].0, pv) || exists|m: int|
                                0 <= m < idxs.len() && idxs[m] == k by {
                            if k == j {
                                assert(idxs[idxs.len() - 1] == k);
                            } else if !is_dotted_descendant(rv[k].0, pv) {
                                let m = choose|m: int| 0 <= m < old_idxs.len() && old_idxs[m] == k;
                                assert(idxs[m] == k);
                            }
                        }
                        assert forall|m: int| 0 <= m < idxs.len() implies #[trigger] entries_view(kept@)[m] == rv[idxs[m]] by {
                            if m < old_idxs.len() {
                                assert(entries_view(kept@)[m] == old_kept[m]);
                            }
                        }
                        assert forall|q: int| 0 <= q < rem.len() implies removed_at(rv, pv, j + 1, #[trigger] rem[q]) by {
                            assert(removed_at(rv, pv, j as int, rem[q]));
                        }
                    }
                }
                j = j + 1;
            }
            let ghost kv = entries_view(kept@);
            proof {
                assert(rv.take(j as int) =~= rv);
            }
            kept.push((s[i].0.clone(), s[i].1, child_count));
            proof {
                let nv = entries_view(kept@);
                assert(nv =~= kv.push((pv, sv[i as int].1, child_count)));
                assert(nv.drop_last() =~= kv);
                // every kept entry came before `p` in the sorted list
                assert forall|m: int| 0 <= m < kv.len() implies lex_lt(kv[m].0, pv) && unrelated(kv[m].0, pv) by {
                    let k = idxs[m];
                    let jj = choose|jj: int| 0 <= jj < i && sv[jj] == (rv[k].0, rv[k].1);
                    assert(lex_lt(s@[jj].0@, s@[i as int].0@));
                    assert(sv[jj].0 != sv[i as int].0);
                    assert(!is_dotted_descendant(pv, rv[k].0));
                }
                assert forall|a: int, b: int| 0 <= a < b < nv.len() implies lex_lt(nv[a].0, nv[b].0) && unrelated(nv[a].0, nv[b].0) by {
                    if b < kv.len() {
                        assert(idxs[a] < idxs[b]);
                    }
                }
                assert forall|k: int|
                    0 <= k < nv.len() implies exists|jj: int|
                        0 <= jj < i + 1 && sv[jj] == ((#[trigger] nv[k]).0, nv[k].1) by {
                    if k < kv.len() {
                        let q = idxs[k];
                        assert(rv[q] == entries_view(result@)[q]);
                        let jj = choose|jj: int| 0 <= jj < i && sv[jj] == (rv[q].0, rv[q].1);
                    } else {
                        assert(sv[i as int] == (nv[k].0, nv[k].1));
                    }
                }
                assert forall|jj: int|
                    0 <= jj < i + 1 implies exists|k: int|
                        0 <= k < kept@.len() && (kept@[k].0@ == (#[trigger] sv[jj]).0
                            || is_dotted_descendant(sv[jj].0, kept@[k].0@)) by {
                    let last = kept@.len() - 1;
                    assert(kept@[last].0@ == pv);
                    if jj < i {
                        let k = choose|k: int|
                            0 <= k < result@.len() && (result@[k].0@ == sv[jj].0
                                || is_dotted_descendant(sv[jj].0, result@[k].0@));
                        assert(rv[k].0 == result@[k].0@);
                        if is_dotted_descendant(rv[k].0, pv) {
                            if rv[k].0 != sv[jj].0 {
                                lemma_descendant_transitive(sv[jj].0, rv[k].0, pv);
                            }
                        } else {
                            let m = choose|m: int| 0 <= m < idxs.len() && idxs[m] == k;
                            assert(kv[m] == rv[k]);
                            assert(entries_view(kept@)[m] == kv[m]);
                            assert(kept@[m].0@ == rv[k].0);
                        }
                    }
                }
                assert forall|k: int| 0 <= k < kept@.len() implies (#[trigger] kept@[k]).2 >= 1 by {
                    if k < kv.len() {
                        assert(entries_view(kept@)[k] == kv[k]);
                        assert(kv[k] == rv[idxs[k]]);
                        assert(rv[idxs[k]].2 == result@[idxs[k]].2);
                        assert(result@[idxs[k]].2 >= 1);
                    }
                }
                // the new entry counts what it absorbed, the kept ones are unchanged
                assert forall|jx: int| 0 <= jx < si.len() implies cnt_above(rem, (#[trigger] si[jx]).0) == if under(si[jx].0, pv) {
                    1nat
                } else {
                    0
                } by {
                    let x = si[jx].0;
                    assert(si[jx] == sv[jx]);
                    if under(x, pv) {
                        let k = choose|k: int|
                            0 <= k < result@.len() && (result@[k].0@ == sv[jx].0
                                || is_dotted_descendant(sv[jx].0, result@[k].0@));
                        assert(rv[k].0 == result@[k].0@);
                        lemma_ancestors_related(x, rv[k].0, pv);
                        let jj = choose|jj: int| 0 <= jj < i && sv[jj] == (rv[k].0, rv[k].1);
                        assert(sv[jj].0 != sv[i as int].0);
                        assert(!is_dotted_descendant(pv, result@[k].0@));
                        assert(is_dotted_descendant(rv[k].0, pv));
                        assert(rem.contains(rv[k].0));
                        assert forall|q: int| 0 <= q < rem.len() && under(x, #[trigger] rem[q]) implies rem[q] == rv[k].0 by {
                            assert(removed_at(rv, pv, j as int, rem[q]));
                            let k2 = choose|k2: int| 0 <= k2 < j && rv[k2].0 == rem[q] && is_dotted_descendant(rv[k2].0, pv);
                            lemma_ancestors_related(x, rv[k2].0, rv[k].0);
                            if k2 < k {
                                assert(unrelated(rv[k2].0, rv[k].0));
                            } else if k < k2 {
                                assert(unrelated(rv[k].0, rv[k2].0));
                            }
                        }
                        lemma_cnt_one(rem, x, rv[k].0);
                    } else {
                        assert forall|q: int| 0 <= q < rem.len() implies !under(x, #[trigger] rem[q]) by {
                            assert(removed_at(rv, pv, j as int, rem[q]));
                            let k2 = choose|k2: int| 0 <= k2 < j && rv[k2].0 == rem[q] && is_dotted_descendant(rv[k2].0, pv);
                            if is_dotted_descendant(x, rem[q]) {
                                lemma_descendant_transitive(x, rem[q], pv);
                            }
                        }
                        lemma_cnt_zero(rem, x);
                    }
                }
                lemma_sum_is_count(rem, si, pv);
                assert forall|k: int| 0 <= k < nv.len() implies (#[trigger] nv[k]).2 == count_under(sv.take(i + 1), nv[k].0) by {
                    if k < kv.len() {
                        let q = idxs[k];
                        assert(nv[k] == kv[k]);
                        assert(kv[k] == rv[q]);
                        let jj = choose|jj: int| 0 <= jj < i && sv[jj] == (rv[q].0, rv[q].1);
                        assert(sv[jj].0 != sv[i as int].0);
                        assert(!is_dotted_descendant(pv, result@[q].0@));
                        assert(rv[q].0 == result@[q].0@);
                        assert(!under(pv, rv[q].0));
                    } else {
                        assert(nv[k].0 == pv);
                        assert(under(pv, pv));
                    }
                }
            }
            result = kept;
        }
        i = i + 1;
    }
    proof {
        let ov = entries_view(result@);
        assert forall|k: int| 0 <= k < ov.len() implies dd.contains((ov[k].0, ov[k].1)) by {
            let j = choose|j: int| 0 <= j < i && sv[j] == (ov[k].0, ov[k].1);
            assert(sv.contains(sv[j]));
        }
        assert forall|x: int| 0 <= x < dd.len() implies exists|k: int|
            0 <= k < ov.len() && (ov[k].0 == (#[trigger] dd[x]).0 || is_dotted_descendant(dd[x].0, ov[k].0)) by {
            assert(dd.contains(dd[x]));
            assert(sv.contains(dd[x]));
            let j = choose|j: int| 0 <= j < sv.len() && sv[j] == dd[x];
            let k = choose|k: int|
                0 <= k < result@.len() && (result@[k].0@ == sv[j].0
                    || is_dotted_descendant(sv[j].0, result@[k].0@));
            assert(ov[k].0 == result@[k].0@);
        }
        assert forall|k: int| 0 <= k < ov.len() implies ov[k].2 >= 1 by {
            assert(ov[k].2 == result@[k].2);
        }
        assert(sv.take(i as int) =~= sv);
        lemma_first_occurrences_distinct(typed_list(modules@));
        assert(sv.no_duplicates()) by {
            assert forall|a: int, b: int| 0 <= a < sv.len() && 0 <= b < sv.len() && a != b implies sv[a] != sv[b] by {
                if a < b {
                    assert(sv[a].0 != sv[b].0);
                } else {
                    assert(sv[b].0 != sv[a].0);
                }
            }
        }
        assert(dd.no_duplicates()) by {
            assert forall|a: int, b: int| 0 <= a < dd.len() && 0 <= b < dd.len() && a != b implies dd[a] != dd[b] by {
                if a < b {
                    assert(dd[a].0 != dd[b].0);
                } else {
                    assert(dd[b].0 != dd[a].0);
                }
            }
        }
        assert forall|k: int| 0 <= k < ov.len() implies (#[trigger] ov[k]).2 == count_under(dd, ov[k].0) by {
            lemma_count_under_same_entries(sv, dd, ov[k].0);
        }
        law_collapse_roots(typed_list(modules@), ov);
        assert forall|a: int, b: int|
            0 <= a < result@.len() && 0 <= b < result@.len() && a != b implies result@[a].0@ != result@[b].0@
                && !is_dotted_descendant(result@[a].0@, result@[b].0@) by {
            assert(ov[a].0 == result@[a].0@ && ov[b].0 == result@[b].0@);
            if a < b {
                assert(unrelated(ov[a].0, ov[b].0));
            } else {
                assert(unrelated(ov[b].0, ov[a].0));
            }
        }
        assert forall|a: int, b: int| 0 <= a < result@.len() && 0 <= b < result@.len() && a != b implies result@[a].0@ != result@[b].0@ by {
            assert(ov[a].0 == result@[a].0@ && ov[b].0 == result@[b].0@);
            if a < b {
                assert(unrelated(ov[a].0, ov[b].0));
            } else {
                assert(unrelated(ov[b].0, ov[a].0));
            }
        }
    }
    result
}

/// The collapse leaves no two paths of which one lies below the other, and
/// its fold counts add up to the number of distinct input paths.
pub proof fn law_collapse_roots(
    input: Seq<(Seq<char>, DependencyType)>,
    out: Seq<(Seq<char>, DependencyType, usize)>,
)
    requires
        collapsed(input, out),
    ensures
        forall|a: int, b: int|
            0 <= a < out.len() && 0 <= b < out.len() && a != b ==> !is_dotted_descendant(
                out[a].0,
                out[b].0,
            ),
        total(out) == first_occurrences(input).len(),
{
    assert forall|a: int, b: int|
        0 <= a < out.len() && 0 <= b < out.len() && a != b implies !is_dotted_descendant(
        out[a].0,
        out[b].0,
    ) by {
        if a < b {
            assert(unrelated(out[a].0, out[b].0));
        } else {
            assert(unrelated(out[b].0, out[a].0));
        }
    }
}

} // verus!

verus! {

/// Sum of the counts of the entries lying strictly below `q`.
pub open spec fn prefix_total(ms: Seq<(Seq<char>, DependencyType, usize)>, q: Seq<char>) -> int
    decreases ms.len(),
{
    if ms.len() == 0 {
        0
    } else {
        prefix_total(ms.drop_last(), q) + if is_dotted_descendant(ms.last().0, q) {
            ms.last().2 as int
        } else {
            0
        }
    }
}

proof fn lemma_prefix_total_bounded(ms: Seq<(Seq<char>, DependencyType, usize)>, q: Seq<char>)
    ensures
        0 <= prefix_total(ms, q) <= total(ms),
    decreases ms.len(),
{
    if ms.len() > 0 {
        lemma_prefix_total_bounded(ms.drop_last(), q);
    }
}

/// For every path that lies strictly above some entry, the summed counts of
/// the entries below it, each such path once, in order of first appearance.
pub fn calculate_prefix_counts(modules: &[(String, DependencyType, usize)]) -> (r: Vec<
    (String, usize),
>)
    requires
        total(entries_view(modules@)) <= usize::MAX,
    ensures
        forall|a: int, b: int| 0 <= a < b < r@.len() ==> r@[a].0@ != r@[b].0@,
        forall|a: int|
            0 <= a < r@.len() ==> r@[a].1 == prefix_total(entries_view(modules@), (#[trigger] r@[a]).0@),
        forall|a: int|
            0 <= a < r@.len() ==> exists|m: int|
                0 <= m < modules@.len() && is_dotted_descendant(
                    modules@[m].0@,
                    (#[trigger] r@[a]).0@,
                ),
        forall|m: int, q: Seq<char>|
            0 <= m < modules@.len() && is_dotted_descendant(modules@[m].0@, q) ==> exists|a: int|
                0 <= a < r@.len() && (#[trigger] r@[a]).0@ == q,
{
    let ghost ms = entries_view(modules@);
    let mut r: Vec<(String, usize)> = Vec::new();
    let mut i: usize = 0;
    while i < modules.len()
        invariant
            ms == entries_view(modules@),
            total(ms) <= usize::MAX,
            i <= ms.len(),
            forall|a: int, b: int| 0 <= a < b < r@.len() ==> r@[a].0@ != r@[b].0@,
            forall|a: int|
                0 <= a < r@.len() ==> r@[a].1 == prefix_total(ms.take(i as int), (#[trigger] r@[a]).0@),
            forall|a: int|
                0 <= a < r@.len() ==> exists|m: int|
                    0 <= m < i && is_dotted_descendant(ms[m].0, (#[trigger] r@[a]).0@),
            forall|m: int, q: Seq<char>|
                0 <= m < i && is_dotted_descendant(ms[m].0, q) ==> exists|a: int|
                    0 <= a < r@.len() && (#[trigger] r@[a]).0@ == q,
        decreases ms.len() - i,
    {
        let path = &modules[i].0;
        let count = modules[i].2;
        let ghost pv = path@;
        let ghost t0 = ms.take(i as int);
        let ghost t1 = ms.take(i + 1);
        assert(t1.drop_last() =~= t0);
        assert(t1.last() == ms[i as int]);
        assert(ms[i as int] == (pv, modules@[i as int].1, count));
        let cs = crate::text::to_chars(path.as_str());
        let mut j: usize = 0;
        while j < cs.len()
            invariant
                ms == entries_view(modules@),
                total(ms) <= usize::MAX,
                i < ms.len(),
                t0 == ms.take(i as int),
                t1 == ms.take(i + 1),
                t1.drop_last() == t0,
                t1.last() == (pv, modules@[i as int].1, count),
                cs@ == pv,
                path@ == pv,
                j <= cs@.len(),
                forall|a: int, b: int| 0 <= a < b < r@.len() ==> r@[a].0@ != r@[b].0@,
                forall|a: int|
                    0 <= a < r@.len() ==> r@[a].1 == prefix_total(t0, (#[trigger] r@[a]).0@) + if is_dotted_descendant(pv, r@[a].0@) && r@[a].0@.len() < j {
                        count as int
                    } else {
                        0
                    },
                forall|a: int|
                    0 <= a < r@.len() ==> exists|m: int|
                        0 <= m < i + 1 && is_dotted_descendant(ms[m].0, (#[trigger] r@[a]).0@),
                forall|m: int, q: Seq<char>|
                    0 <= m < i && is_dotted_descendant(ms[m].0, q) ==> exists|a: int|
                        0 <= a < r@.len() && (#[trigger] r@[a]).0@ == q,
                forall|q: Seq<char>|
                    is_dotted_descendant(pv, q) && q.len() < j ==> exists|a: int|
                        0 <= a < r@.len() && (#[trigger] r@[a]).0@ == q,
            decreases cs@.len() - j,
        {
            if cs[j] == '.' {
                let q = String::from_str(path.as_str().substring_char(0, j));
                let ghost qv = q@;
                assert(qv == pv.subrange(0, j as int));
                assert(is_dotted_descendant(pv, qv));
                proof {
                    lemma_prefix_total_bounded(t1, qv);
                    lemma_prefix_total_bounded(t0, qv);
                    lemma_total_prefix(ms, i + 1);
                }
                // find the entry for `q`
                let mut a: usize = 0;
                while a < r.len() && r[a].0 != q
                    invariant
                        a <= r@.len(),
                        q@ == qv,
                        forall|b: int| 0 <= b < a ==> r@[b].0@ != qv,
                    decreases r@.len() - a,
                {
                    a = a + 1;
                }
                let ghost old_r = r@;
                if a < r.len() {
                    assert(r@[a as int].0@ == qv);
                    assert(r@[a as int].1 == prefix_total(t0, qv));
                    assert(prefix_total(t1, qv) == prefix_total(t0, qv) + count);
                    let e = (r[a].0.clone(), r[a].1 + count);
                    r.set(a, e);
                } else {
                    assert(prefix_total(t1, qv) == prefix_total(t0, qv) + count);
                    proof {
                        if prefix_total(t0, qv) != 0 {
                            lemma_prefix_total_witness(t0, qv);
                            let m = choose|m: int| 0 <= m < t0.len() && is_dotted_descendant(t0[m].0, qv);
                            assert(t0[m] == ms[m]);
                        }
                    }
                    r.push((q, count));
                }
                proof {
                    assert forall|b: int| 0 <= b < r@.len() implies r@[b].1 == prefix_total(t0, (#[trigger] r@[b]).0@) + if is_dotted_descendant(pv, r@[b].0@) && r@[b].0@.len() < j + 1 {
                        count as int
                    } else {
                        0
                    } by {
                        if b < old_r.len() && b != a {
                            assert(r@[b] == old_r[b]);
                            if is_dotted_descendant(pv, r@[b].0@) && r@[b].0@.len() == j {
                                assert(r@[b].0@ =~= qv);
                            }
                        }
                    }
                    assert forall|b: int| 0 <= b < r@.len() implies exists|m: int|
                        0 <= m < i + 1 && is_dotted_descendant(ms[m].0, (#[trigger] r@[b]).0@) by {
                        if b < old_r.len() && b != a {
                            assert(r@[b] == old_r[b]);
                        } else {
                            assert(is_dotted_descendant(ms[i as int].0, r@[b].0@));
                        }
                    }
                    assert forall|m: int, q2: Seq<char>|
                        0 <= m < i && is_dotted_descendant(ms[m].0, q2) implies exists|b: int|
                        0 <= b < r@.len() && (#[trigger] r@[b]).0@ == q2 by {
                        let b = choose|b: int| 0 <= b < old_r.len() && (#[trigger] old_r[b]).0@ == q2;
                        assert(r@[b].0@ == old_r[b].0@);
                    }
                    assert forall|q2: Seq<char>|
                        is_dotted_descendant(pv, q2) && q2.len() < j + 1 implies exists|b: int|
                        0 <= b < r@.len() && (#[trigger] r@[b]).0@ == q2 by {
                        if q2.len() == j {
                            assert(q2 =~= qv);
                            assert(r@[a as int].0@ == qv);
                        } else {
                            let b = choose|b: int| 0 <= b < old_r.len() && (#[trigger] old_r[b]).0@ == q2;
                            assert(r@[b].0@ == old_r[b].0@);
                        }
                    }
                    assert forall|x: int, y: int| 0 <= x < y < r@.len() implies r@[x].0@ != r@[y].0@ by {
                        if y < old_r.len() {
                            assert(r@[x].0@ == old_r[x].0@ && r@[y].0@ == old_r[y].0@);
                        } else {
                            assert(r@[x].0@ == old_r[x].0@);
                        }
                    }
                }
            } else {
                proof {
                    assert forall|b: int| 0 <= b < r@.len() implies r@[b].1 == prefix_total(t0, (#[trigger] r@[b]).0@) + if is_dotted_descendant(pv, r@[b].0@) && r@[b].0@.len() < j + 1 {
                        count as int
                    } else {
                        0
                    } by {
                        if is_dotted_descendant(pv, r@[b].0@) && r@[b].0@.len() == j {
                            assert(pv[j as int] == '.');
                        }
                    }
                    assert forall|q2: Seq<char>|
                        is_dotted_descendant(pv, q2) && q2.len() < j + 1 implies exists|b: int|
                        0 <= b < r@.len() && (#[trigger] r@[b]).0@ == q2 by {
                        if q2.len() == j {
                            assert(pv[j as int] == '.');
                        }
                    }
                }
            }
            j = j + 1;
        }
        proof {
            assert forall|b: int| 0 <= b < r@.len() implies r@[b].1 == prefix_total(t1, (#[trigger] r@[b]).0@) by {
                if is_dotted_descendant(pv, r@[b].0@) {
                    assert(r@[b].0@.len() < j);
                }
            }
            assert forall|m: int, q: Seq<char>|
                0 <= m < i + 1 && is_dotted_descendant(ms[m].0, q) implies exists|a: int|
                0 <= a < r@.len() && (#[trigger] r@[a]).0@ == q by {
                if m == i {
                    assert(q.len() < j);
                }
            }
        }
        i = i + 1;
    }
    assert(ms.take(i as int) =~= ms);
    assert forall|m: int, q: Seq<char>|
        0 <= m < modules@.len() && is_dotted_descendant(modules@[m].0@, q) implies exists|a: int|
            0 <= a < r@.len() && (#[trigger] r@[a]).0@ == q by {
        assert(ms[m].0 == modules@[m].0@);
    }
    assert forall|a: int|
        0 <= a < r@.len() implies exists|m: int|
            0 <= m < modules@.len() && is_dotted_descendant(
                modules@[m].0@,
                (#[trigger] r@[a]).0@,
            ) by {
        let m = choose|m: int| 0 <= m < i && is_dotted_descendant(ms[m].0, r@[a].0@);
        assert(ms[m].0 == modules@[m].0@);
    }
    r
}

proof fn lemma_prefix_total_witness(ms: Seq<(Seq<char>, DependencyType, usize)>, q: Seq<char>)
    requires
        prefix_total(ms, q) != 0,
    ensures
        exists|m: int| 0 <= m < ms.len() && is_dotted_descendant(ms[m].0, q),
    decreases ms.len(),
{
    if ms.len() > 0 {
        if !is_dotted_descendant(ms.last().0, q) {
            lemma_prefix_total_witness(ms.drop_last(), q);
            let m = choose|m: int| 0 <= m < ms.drop_last().len() && is_dotted_descendant(ms.drop_last()[m].0, q);
            assert(ms[m] == ms.drop_last()[m]);
        } else {
            assert(is_dotted_descendant(ms[ms.len() - 1].0, q));
        }
    }
}

} // verus!

verus! {

/// One line of a grouped listing: indentation, a dot unless at the root, the
/// segment, and the count where there is one above 1.
pub open spec fn segment_line(level: nat, segment: Seq<char>, count: Option<usize>, is_root: bool) -> Seq<char> {
    crate::text::indent_of(level + 1) + (if is_root {
        Seq::empty()
    } else {
        "."@
    }) + segment + (match count {
        Some(c) => if c > 1 {
            " ("@ + crate::text::decimal(c as nat) + ")"@
        } else {
            Seq::empty()
        },
        None => Seq::empty(),
    }) + "\n"@
}

/// Formats one segment of a grouped listing.
pub fn format_segment(indent_level: usize, segment: &str, count: Option<usize>, is_root: bool) -> (r:
    String)
    requires
        indent_level < usize::MAX,
    ensures
        r@ == segment_line(indent_level as nat, segment@, count, is_root),
{
    let mut out = String::new();
    crate::text::push_indent(&mut out, indent_level + 1);
    if !is_root {
        out.append(".");
    }
    out.append(segment);
    match count {
        Some(c) => {
            if c > 1 {
                out.append(" (");
                crate::text::push_decimal(&mut out, c);
                out.append(")");
            }
        },
        None => {},
    }
    out.append("\n");
    assert(out@ =~= segment_line(indent_level as nat, segment@, count, is_root));
    out
}

/// How many leading segments two split paths share.
pub fn find_common_prefix_length(current: &[String], new: &[String]) -> (r: usize)
    ensures
        r <= current@.len(),
        r <= new@.len(),
        forall|i: int| 0 <= i < r ==> current@[i]@ == new@[i]@,
        r < current@.len() && r < new@.len() ==> current@[r as int]@ != new@[r as int]@,
{
    let mut i: usize = 0;
    while i < current.len() && i < new.len() && current[i] == new[i]
        invariant
            i <= current@.len(),
            i <= new@.len(),
            forall|j: int| 0 <= j < i ==> current@[j]@ == new@[j]@,
        decreases current@.len() - i,
    {
        i = i + 1;
    }
    i
}

/// The value recorded for `key`, if any.
fn lookup_count(counts: &Vec<(String, usize)>, key: &String) -> (r: Option<usize>)
    ensures
        r matches Some(c) ==> exists|a: int| 0 <= a < counts@.len() && counts@[a].0@ == key@ && counts@[a].1 == c,
        r is None ==> forall|a: int| 0 <= a < counts@.len() ==> counts@[a].0@ != key@,
{
    let mut a: usize = 0;
    while a < counts.len()
        invariant
            a <= counts@.len(),
            forall|b: int| 0 <= b < a ==> counts@[b].0@ != key@,
        decreases counts@.len() - a,
    {
        if counts[a].0 == *key {
            return Some(counts[a].1);
        }
        a = a + 1;
    }
    None
}

/// The number of leading entries `a` and `b` share.
pub open spec fn shared_prefix(a: Seq<Seq<char>>, b: Seq<Seq<char>>) -> nat
    decreases a.len(),
{
    if a.len() == 0 || b.len() == 0 || a[0] != b[0] {
        0
    } else {
        1 + shared_prefix(a.drop_first(), b.drop_first())
    }
}

pub proof fn lemma_shared_prefix(a: Seq<Seq<char>>, b: Seq<Seq<char>>, r: nat)
    requires
        r <= a.len(),
        r <= b.len(),
        forall|i: int| 0 <= i < r ==> a[i] == b[i],
        r < a.len() && r < b.len() ==> a[r as int] != b[r as int],
    ensures
        shared_prefix(a, b) == r,
    decreases r,
{
    if r > 0 {
        lemma_shared_prefix(a.drop_first(), b.drop_first(), (r - 1) as nat);
    }
}

/// The lookup path the listing builds for segment `i` when it starts at
/// segment `c`: the segments from `c` to `i` joined by dots, with a leading
/// dot unless it starts at the root.
pub open spec fn lookup_path(segs: Seq<Seq<char>>, c: nat, i: nat) -> Seq<char>
    decreases i,
{
    if i == 0 {
        segs[0]
    } else {
        (if i <= c {
            Seq::empty()
        } else {
            lookup_path(segs, c, (i - 1) as nat)
        }) + "."@ + segs[i as int]
    }
}

/// The count shown beside an intermediate segment with lookup path `q`.
pub open spec fn prefix_shown(ms: Seq<(Seq<char>, DependencyType, usize)>, q: Seq<char>) -> Option<usize> {
    if (exists|m: int| 0 <= m < ms.len() && is_dotted_descendant(ms[m].0, q)) && prefix_total(ms, q) > 1 {
        Some(prefix_total(ms, q) as usize)
    } else {
        None
    }
}

/// The lines module `k` contributes for its segments `c..i`.
pub open spec fn module_lines(ms: Seq<(Seq<char>, DependencyType, usize)>, k: int, c: nat, i: nat) -> Seq<char>
    decreases i,
{
    let segs = crate::text::segments_of(ms[k].0);
    if i <= c {
        Seq::empty()
    } else {
        let j = (i - 1) as nat;
        let count = if j == segs.len() - 1 {
            if ms[k].2 > 1 {
                Some(ms[k].2)
            } else {
                None
            }
        } else {
            prefix_shown(ms, lookup_path(segs, c, j))
        };
        module_lines(ms, k, c, j) + segment_line(j, segs[j as int], count, j == 0)
    }
}

/// The segments module `k` shares with the module before it.
pub open spec fn shared_with_previous(ms: Seq<(Seq<char>, DependencyType, usize)>, k: int) -> nat {
    shared_prefix(
        if k == 0 {
            Seq::empty()
        } else {
            crate::text::segments_of(ms[k - 1].0)
        },
        crate::text::segments_of(ms[k].0),
    )
}

/// The listing of the first `n` modules.
pub open spec fn grouped_listing(ms: Seq<(Seq<char>, DependencyType, usize)>, n: int) -> Seq<char>
    decreases n,
{
    if n <= 0 {
        Seq::empty()
    } else {
        grouped_listing(ms, n - 1) + module_lines(
            ms,
            n - 1,
            shared_with_previous(ms, n - 1),
            crate::text::segments_of(ms[n - 1].0).len(),
        )
    }
}

/// Lists collapsed modules as an indented tree: each module prints only the
/// segments it does not share with the module before it; an intermediate
/// segment shows how many modules lie below it where that is more than one,
/// the last segment shows the module's own fold count.
#[verifier::rlimit(60)]
pub fn format_grouped_modules(modules: &[(String, DependencyType, usize)]) -> (r: String)
    requires
        total(entries_view(modules@)) <= usize::MAX,
    ensures
        r@ == grouped_listing(entries_view(modules@), modules@.len() as int),
{
    let ghost ms = entries_view(modules@);
    let mut output = String::new();
    let mut current_prefix: Vec<String> = Vec::new();
    let prefix_counts = calculate_prefix_counts(modules);
    let mut k: usize = 0;
    proof {
        reveal_strlit(".");
    }
    while k < modules.len()
        invariant
            ms == entries_view(modules@),
            k <= ms.len(),
            output@ == grouped_listing(ms, k as int),
            current_prefix@.map_values(|s: String| s@) == if k == 0 {
                Seq::<Seq<char>>::empty()
            } else {
                crate::text::segments_of(ms[k - 1].0)
            },
            forall|a: int, b: int| 0 <= a < b < prefix_counts@.len() ==> prefix_counts@[a].0@ != prefix_counts@[b].0@,
            forall|a: int|
                0 <= a < prefix_counts@.len() ==> prefix_counts@[a].1 == prefix_total(ms, (#[trigger] prefix_counts@[a]).0@),
            forall|a: int|
                0 <= a < prefix_counts@.len() ==> exists|m: int|
                    0 <= m < modules@.len() && is_dotted_descendant(modules@[m].0@, (#[trigger] prefix_counts@[a]).0@),
            forall|m: int, q: Seq<char>|
                0 <= m < modules@.len() && is_dotted_descendant(modules@[m].0@, q) ==> exists|a: int|
                    0 <= a < prefix_counts@.len() && (#[trigger] prefix_counts@[a]).0@ == q,
        decreases ms.len() - k,
    {
        let path_text = &modules[k].0;
        let count = modules[k].2;
        let segments = crate::text::split_dots(path_text.as_str());
        let ghost segs = segments@.map_values(|s: String| s@);
        assert(ms[k as int] == (path_text@, modules@[k as int].1, count));
        let common_len = find_common_prefix_length(current_prefix.as_slice(), segments.as_slice());
        proof {
            lemma_shared_prefix(current_prefix@.map_values(|s: String| s@), segs, common_len as nat);
        }
        let ghost c = common_len as nat;
        assert(c == shared_with_previous(ms, k as int));
        let ghost head = output@;
        let mut current_path = String::new();
        let mut i: usize = common_len;
        while i < segments.len()
            invariant
                ms == entries_view(modules@),
                k < ms.len(),
                ms[k as int].2 == count,
                segs == segments@.map_values(|s: String| s@),
                segs == crate::text::segments_of(ms[k as int].0),
                segs.len() >= 1,
                common_len <= i <= segs.len(),
                c == common_len,
                output@ == head + module_lines(ms, k as int, c, i as nat),
                i > c ==> current_path@ == lookup_path(segs, c, (i - 1) as nat),
                forall|a: int, b: int| 0 <= a < b < prefix_counts@.len() ==> prefix_counts@[a].0@ != prefix_counts@[b].0@,
                forall|a: int|
                    0 <= a < prefix_counts@.len() ==> prefix_counts@[a].1 == prefix_total(ms, (#[trigger] prefix_counts@[a]).0@),
                forall|a: int|
                    0 <= a < prefix_counts@.len() ==> exists|m: int|
                        0 <= m < modules@.len() && is_dotted_descendant(modules@[m].0@, (#[trigger] prefix_counts@[a]).0@),
                forall|m: int, q: Seq<char>|
                    0 <= m < modules@.len() && is_dotted_descendant(modules@[m].0@, q) ==> exists|a: int|
                        0 <= a < prefix_counts@.len() && (#[trigger] prefix_counts@[a]).0@ == q,
            decreases segs.len() - i,
        {
            let segment = &segments[i];
            if i == 0 {
                current_path = segment.clone();
            } else {
                if i == common_len {
                    current_path = String::new();
                }
                current_path.append(".");
                current_path.append(segment.as_str());
            }
            let ghost q = current_path@;
            assert(q == lookup_path(segs, c, i as nat));
            let segment_count = if i == segments.len() - 1 {
                if count > 1 {
                    Some(count)
                } else {
                    None
                }
            } else {
                match lookup_count(&prefix_counts, &current_path) {
                    Some(v) => {
                        proof {
                            let a = choose|a: int| 0 <= a < prefix_counts@.len() && prefix_counts@[a].0@ == q && prefix_counts@[a].1 == v;
                            let m = choose|m: int| 0 <= m < modules@.len() && is_dotted_descendant(modules@[m].0@, prefix_counts@[a].0@);
                            assert(ms[m].0 == modules@[m].0@);
                        }
                        if v > 1 {
                            Some(v)
                        } else {
                            None
                        }
                    },
                    None => {
                        proof {
                            if exists|m: int| 0 <= m < ms.len() && is_dotted_descendant(ms[m].0, q) {
                                let m = choose|m: int| 0 <= m < ms.len() && is_dotted_descendant(ms[m].0, q);
                                assert(ms[m].0 == modules@[m].0@);
                                let a = choose|a: int| 0 <= a < prefix_counts@.len() && (#[trigger] prefix_counts@[a]).0@ == q;
                            }
                        }
                        None
                    },
                }
            };
            assert(segment_count == if i as nat == segs.len() - 1 {
                if ms[k as int].2 > 1 { Some(ms[k as int].2) } else { None }
            } else {
                prefix_shown(ms, lookup_path(segs, c, i as nat))
            });
            output.append(format_segment(i, segment.as_str(), segment_count, i == 0).as_str());
            assert(output@ =~= head + module_lines(ms, k as int, c, (i + 1) as nat));
            i = i + 1;
        }
        assert(output@ == grouped_listing(ms, k + 1));
        current_prefix = segments;
        k = k + 1;
    }
    output
}

} // verus!

verus! {

/// `x` is `r` or lies below it.
pub open spec fn under(x: Seq<char>, r: Seq<char>) -> bool {
    x == r || is_dotted_descendant(x, r)
}

/// How many entries of `xs` lie at or below `r`.
pub open spec fn count_under(xs: Seq<(Seq<char>, DependencyType)>, r: Seq<char>) -> nat
    decreases xs.len(),
{
    if xs.len() == 0 {
        0
    } else {
        count_under(xs.drop_last(), r) + if under(xs.last().0, r) {
            1nat
        } else {
            0
        }
    }
}

/// How many of the paths `rs` lie at or above `y`.
pub open spec fn cnt_above(rs: Seq<Seq<char>>, y: Seq<char>) -> nat
    decreases rs.len(),
{
    if rs.len() == 0 {
        0
    } else {
        cnt_above(rs.drop_last(), y) + if under(y, rs.last()) {
            1nat
        } else {
            0
        }
    }
}

/// The counts below each of `rs`, added up.
pub open spec fn sum_under(rs: Seq<Seq<char>>, xs: Seq<(Seq<char>, DependencyType)>) -> nat
    decreases rs.len(),
{
    if rs.len() == 0 {
        0
    } else {
        sum_under(rs.drop_last(), xs) + count_under(xs, rs.last())
    }
}

proof fn lemma_sum_under_push(rs: Seq<Seq<char>>, xs: Seq<(Seq<char>, DependencyType)>, x: (Seq<char>, DependencyType))
    ensures
        sum_under(rs, xs.push(x)) == sum_under(rs, xs) + cnt_above(rs, x.0),
    decreases rs.len(),
{
    assert(xs.push(x).drop_last() =~= xs);
    if rs.len() > 0 {
        lemma_sum_under_push(rs.drop_last(), xs, x);
    }
}

proof fn lemma_cnt_zero(rs: Seq<Seq<char>>, y: Seq<char>)
    requires
        forall|k: int| 0 <= k < rs.len() ==> !under(y, #[trigger] rs[k]),
    ensures
        cnt_above(rs, y) == 0,
    decreases rs.len(),
{
    if rs.len() > 0 {
        assert(!under(y, rs[rs.len() - 1]));
        lemma_cnt_zero(rs.drop_last(), y);
    }
}

proof fn lemma_cnt_one(rs: Seq<Seq<char>>, y: Seq<char>, t: Seq<char>)
    requires
        rs.no_duplicates(),
        rs.contains(t),
        under(y, t),
        forall|k: int| 0 <= k < rs.len() && under(y, #[trigger] rs[k]) ==> rs[k] == t,
    ensures
        cnt_above(rs, y) == 1,
    decreases rs.len(),
{
    let d = rs.drop_last();
    if rs.last() == t {
        assert forall|k: int| 0 <= k < d.len() implies !under(y, #[trigger] d[k]) by {
            assert(d[k] == rs[k]);
            if under(y, d[k]) {
                assert(rs[k] == t);
                assert(rs[k] == rs[rs.len() - 1]);
            }
        }
        lemma_cnt_zero(d, y);
    } else {
        let j = choose|j: int| 0 <= j < rs.len() && rs[j] == t;
        assert(j < d.len());
        assert(d[j] == t);
        assert(d.no_duplicates()) by {
            assert forall|a: int, b: int| 0 <= a < d.len() && 0 <= b < d.len() && a != b implies d[a] != d[b] by {
                assert(d[a] == rs[a] && d[b] == rs[b]);
            }
        }
        assert forall|k: int| 0 <= k < d.len() && under(y, #[trigger] d[k]) implies d[k] == t by {
            assert(d[k] == rs[k]);
        }
        lemma_cnt_one(d, y, t);
        assert(!under(y, rs[rs.len() - 1]));
    }
}

/// When each entry of `xs` lies under exactly one of `rs` if it lies under
/// `p` and under none otherwise, the counts below `rs` add up to the count
/// below `p`.
proof fn lemma_sum_is_count(rs: Seq<Seq<char>>, xs: Seq<(Seq<char>, DependencyType)>, p: Seq<char>)
    requires
        forall|j: int| 0 <= j < xs.len() ==> cnt_above(rs, (#[trigger] xs[j]).0) == if under(xs[j].0, p) {
            1nat
        } else {
            0
        },
    ensures
        sum_under(rs, xs) == count_under(xs, p),
    decreases xs.len(),
{
    if xs.len() == 0 {
        lemma_sum_under_empty(rs);
        assert(xs =~= Seq::<(Seq<char>, DependencyType)>::empty());
    } else {
        let d = xs.drop_last();
        assert forall|j: int| 0 <= j < d.len() implies cnt_above(rs, (#[trigger] d[j]).0) == if under(d[j].0, p) {
            1nat
        } else {
            0
        } by {
            assert(d[j] == xs[j]);
        }
        lemma_sum_is_count(rs, d, p);
        assert(d.push(xs.last()) =~= xs);
        lemma_sum_under_push(rs, d, xs.last());
        assert(cnt_above(rs, xs[xs.len() - 1].0) == if under(xs.last().0, p) { 1nat } else { 0 });
    }
}

proof fn lemma_sum_under_empty(rs: Seq<Seq<char>>)
    ensures
        sum_under(rs, Seq::empty()) == 0,
    decreases rs.len(),
{
    if rs.len() > 0 {
        lemma_sum_under_empty(rs.drop_last());
    }
}

} // verus!

verus! {

proof fn lemma_count_under_remove(s: Seq<(Seq<char>, DependencyType)>, j: int, r: Seq<char>)
    requires
        0 <= j < s.len(),
    ensures
        count_under(s, r) == count_under(s.remove(j), r) + if under(s[j].0, r) {
            1nat
        } else {
            0
        },
    decreases s.len(),
{
    if j == s.len() - 1 {
        assert(s.remove(j) =~= s.drop_last());
    } else {
        lemma_count_under_remove(s.drop_last(), j, r);
        assert(s.remove(j).drop_last() =~= s.drop_last().remove(j));
        assert(s.remove(j).last() == s.last());
    }
}

/// Two duplicate-free lists with the same entries count alike.
proof fn lemma_count_under_same_entries(a: Seq<(Seq<char>, DependencyType)>, b: Seq<(Seq<char>, DependencyType)>, r: Seq<char>)
    requires
        a.no_duplicates(),
        b.no_duplicates(),
        a.len() == b.len(),
        forall|x: (Seq<char>, DependencyType)| a.contains(x) <==> b.contains(x),
    ensures
        count_under(a, r) == count_under(b, r),
    decreases a.len(),
{
    if a.len() > 0 {
        let x = a.last();
        assert(a.contains(x)) by {
            assert(a[a.len() - 1] == x);
        }
        let j = choose|j: int| 0 <= j < b.len() && b[j] == x;
        let a2 = a.drop_last();
        let b2 = b.remove(j);
        assert(a2.no_duplicates()) by {
            assert forall|p: int, q: int| 0 <= p < a2.len() && 0 <= q < a2.len() && p != q implies a2[p] != a2[q] by {
                assert(a2[p] == a[p] && a2[q] == a[q]);
            }
        }
        assert(b2.no_duplicates()) by {
            assert forall|p: int, q: int| 0 <= p < b2.len() && 0 <= q < b2.len() && p != q implies b2[p] != b2[q] by {
                let p2 = if p < j { p } else { p + 1 };
                let q2 = if q < j { q } else { q + 1 };
                assert(b2[p] == b[p2] && b2[q] == b[q2]);
            }
        }
        assert forall|y: (Seq<char>, DependencyType)| a2.contains(y) <==> b2.contains(y) by {
            if a2.contains(y) {
                let p = choose|p: int| 0 <= p < a2.len() && a2[p] == y;
                assert(a[p] == y);
                assert(y != x) by {
                    assert(a[a.len() - 1] == x);
                }
                assert(a.contains(y));
                let q = choose|q: int| 0 <= q < b.len() && b[q] == y;
                assert(q != j);
                let q2 = if q < j { q } else { q - 1 };
                assert(b2[q2] == y);
            }
            if b2.contains(y) {
                let q = choose|q: int| 0 <= q < b2.len() && b2[q] == y;
                let q1 = if q < j { q } else { q + 1 };
                assert(b[q1] == y);
                assert(q1 != j);
                assert(y != x);
                assert(b.contains(y));
                let p = choose|p: int| 0 <= p < a.len() && a[p] == y;
                assert(p != a.len() - 1);
                assert(a2[p] == y);
            }
        }
        lemma_count_under_same_entries(a2, b2, r);
        lemma_count_under_remove(b, j, r);
    }
}

} // verus!
