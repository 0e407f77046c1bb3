//! The integer parts of the health report: cycle ranking, pressure levels,
//! percentile positions, and the text blocks built from them.
use crate::cycles::{cycle_text, Cycle};
use crate::graph::path_list;
use crate::text::push_decimal;
use vstd::prelude::*;

verus! {

/// A cycle with the members of `c` is in `v`.
pub open spec fn cycle_in(v: Seq<Cycle>, c: Cycle) -> bool {
    exists|q: int| 0 <= q < v.len() && path_list(v[q].modules@) == path_list(c.modules@)
}

/// The cycles ordered by member count, longest first (equal lengths keep
/// their order), at most five.
#[verifier::rlimit(80)]
pub fn top_cycles(cycles: &Vec<Cycle>) -> (r: Vec<Cycle>)
    ensures
        r@.len() == if cycles@.len() < 5 { cycles@.len() } else { 5 },
        forall|a: int, b: int| 0 <= a < b < r@.len() ==> r@[a].modules@.len() >= r@[b].modules@.len(),
        forall|k: int| 0 <= k < r@.len() ==> cycle_in(cycles@, #[trigger] r@[k]),
        forall|j: int| 0 <= j < cycles@.len() && r@.len() == 5 ==> cycle_in(r@, #[trigger] cycles@[j])
            || cycles@[j].modules@.len() <= r@[4].modules@.len(),
{
    // stable insertion by length, longest first
    let mut sorted: Vec<Cycle> = Vec::new();
    let mut i: usize = 0;
    while i < cycles.len()
        invariant
            i <= cycles@.len(),
            sorted@.len() == i,
            forall|a: int, b: int| 0 <= a < b < sorted@.len() ==> sorted@[a].modules@.len() >= sorted@[b].modules@.len(),
            forall|k: int| 0 <= k < sorted@.len() ==> cycle_in(cycles@.take(i as int), #[trigger] sorted@[k]),
            forall|j: int| 0 <= j < i ==> cycle_in(sorted@, #[trigger] cycles@[j]),
        decreases cycles@.len() - i,
    {
        let c = copy_cycle(&cycles[i]);
        let len = c.modules.len();
        let mut pos: usize = 0;
        while pos < sorted.len() && sorted[pos].modules.len() >= len
            invariant
                pos <= sorted@.len(),
                len == c.modules@.len(),
                forall|a: int| 0 <= a < pos ==> sorted@[a].modules@.len() >= len,
            decreases sorted@.len() - pos,
        {
            pos = pos + 1;
        }
        let ghost old_s = sorted@;
        let ghost cv = c;
        sorted.insert(pos, c);
        proof {
            assert forall|a: int, b: int| 0 <= a < b < sorted@.len() implies sorted@[a].modules@.len() >= sorted@[b].modules@.len() by {
                if a < pos && b == pos {
                    assert(sorted@[a] == old_s[a]);
                } else if a == pos && b > pos {
                    assert(sorted@[b] == old_s[b - 1]);
                    assert(old_s[pos as int].modules@.len() >= old_s[b - 1].modules@.len());
                } else if a < pos && b > pos {
                    assert(sorted@[a] == old_s[a] && sorted@[b] == old_s[b - 1]);
                } else if b < pos {
                    assert(sorted@[a] == old_s[a] && sorted@[b] == old_s[b]);
                } else {
                    assert(sorted@[a] == old_s[a - 1] && sorted@[b] == old_s[b - 1]);
                }
            }
            let t = cycles@.take(i as int);
            assert(cycles@.take(i + 1) =~= t.push(cycles@[i as int]));
            assert forall|k: int| 0 <= k < sorted@.len() implies cycle_in(cycles@.take(i + 1), #[trigger] sorted@[k]) by {
                if k < pos {
                    assert(sorted@[k] == old_s[k]);
                    assert(cycle_in(t, old_s[k]));
                    let j = choose|j: int| 0 <= j < t.len() && path_list(t[j].modules@) == path_list(old_s[k].modules@);
                    assert(cycles@.take(i + 1)[j] == t[j]);
                } else if k > pos {
                    assert(sorted@[k] == old_s[k - 1]);
                    assert(cycle_in(t, old_s[k - 1]));
                    let j = choose|j: int| 0 <= j < t.len() && path_list(t[j].modules@) == path_list(old_s[k - 1].modules@);
                    assert(cycles@.take(i + 1)[j] == t[j]);
                } else {
                    assert(path_list(sorted@[k].modules@) == path_list(cycles@.take(i + 1)[i as int].modules@));
                }
            }
            assert forall|j: int| 0 <= j < i + 1 implies cycle_in(sorted@, #[trigger] cycles@[j]) by {
                if j == i {
                    assert(path_list(sorted@[pos as int].modules@) == path_list(cycles@[j].modules@));
                } else {
                    assert(cycle_in(old_s, cycles@[j]));
                    let k = choose|k: int| 0 <= k < old_s.len() && path_list(old_s[k].modules@) == path_list(cycles@[j].modules@);
                    if k < pos {
                        assert(sorted@[k] == old_s[k]);
                    } else {
                        assert(sorted@[k + 1] == old_s[k]);
                    }
                }
            }
        }
        i = i + 1;
    }
    let mut r: Vec<Cycle> = Vec::new();
    let mut k: usize = 0;
    while k < sorted.len() && k < 5
        invariant
            k <= sorted@.len(),
            k <= 5,
            r@.len() == k,
            forall|q: int| 0 <= q < k ==> path_list((#[trigger] r@[q]).modules@) == path_list(sorted@[q].modules@)
                && r@[q].modules@.len() == sorted@[q].modules@.len(),
        decreases sorted@.len() - k,
    {
        r.push(copy_cycle(&sorted[k]));
        k = k + 1;
    }
    proof {
        assert(cycles@.take(cycles@.len() as int) =~= cycles@);
        assert forall|q: int| 0 <= q < r@.len() implies cycle_in(cycles@, #[trigger] r@[q]) by {
            assert(cycle_in(cycles@, sorted@[q]));
            let j = choose|j: int| 0 <= j < cycles@.len() && path_list(cycles@[j].modules@) == path_list(sorted@[q].modules@);
        }
        assert forall|a: int, b: int| 0 <= a < b < r@.len() implies r@[a].modules@.len() >= r@[b].modules@.len() by {
            assert(r@[a].modules@.len() == sorted@[a].modules@.len());
            assert(r@[b].modules@.len() == sorted@[b].modules@.len());
        }
        assert forall|j: int| 0 <= j < cycles@.len() && r@.len() == 5 implies cycle_in(r@, #[trigger] cycles@[j])
            || cycles@[j].modules@.len() <= r@[4].modules@.len() by {
            assert(cycle_in(sorted@, cycles@[j]));
            let kk = choose|kk: int| 0 <= kk < sorted@.len() && path_list(sorted@[kk].modules@) == path_list(cycles@[j].modules@);
            if kk < 5 {
                assert(path_list(r@[kk].modules@) == path_list(sorted@[kk].modules@));
            } else {
                assert(r@[4].modules@.len() == sorted@[4].modules@.len());
                assert(sorted@[4].modules@.len() >= sorted@[kk].modules@.len());
                assert(path_list(sorted@[kk].modules@).len() == sorted@[kk].modules@.len());
                assert(path_list(cycles@[j].modules@).len() == cycles@[j].modules@.len());
            }
        }
    }
    r
}

fn copy_cycle(c: &Cycle) -> (r: Cycle)
    ensures
        path_list(r.modules@) == path_list(c.modules@),
        r.modules@.len() == c.modules@.len(),
{
    let mut m: Vec<String> = Vec::new();
    let mut i: usize = 0;
    while i < c.modules.len()
        invariant
            i <= c.modules@.len(),
            m@.len() == i,
            forall|j: int| 0 <= j < i ==> (#[trigger] m@[j])@ == c.modules@[j]@,
        decreases c.modules@.len() - i,
    {
        m.push(c.modules[i].clone());
        i = i + 1;
    }
    assert(path_list(m@) =~= path_list(c.modules@));
    Cycle::new(m)
}

/// How many modules have more than 10, 50 and 100 dependents.
pub fn pressure_levels(pressure_modules: &Vec<(String, usize)>) -> (r: (usize, usize, usize))
    ensures
        r.0 == count_over(pressure_modules@, 10),
        r.1 == count_over(pressure_modules@, 50),
        r.2 == count_over(pressure_modules@, 100),
{
    (over(pressure_modules, 10), over(pressure_modules, 50), over(pressure_modules, 100))
}

/// The number of entries whose count exceeds `t`.
pub open spec fn count_over(v: Seq<(String, usize)>, t: usize) -> nat
    decreases v.len(),
{
    if v.len() == 0 {
        0
    } else {
        count_over(v.drop_last(), t) + if v.last().1 > t {
            1nat
        } else {
            0
        }
    }
}

fn over(v: &Vec<(String, usize)>, t: usize) -> (r: usize)
    ensures
        r == count_over(v@, t),
{
    let mut n: usize = 0;
    let mut i: usize = 0;
    while i < v.len()
        invariant
            i <= v@.len(),
            n == count_over(v@.take(i as int), t),
            n <= i,
        decreases v@.len() - i,
    {
        assert(v@.take(i + 1).drop_last() =~= v@.take(i as int));
        if v[i].1 > t {
            n = n + 1;
        }
        i = i + 1;
    }
    assert(v@.take(i as int) =~= v@);
    n
}

/// The positions of the 10th, 50th and 90th percentile in a sorted list of
/// `n` values: `floor(n * p)`, but at most the last position.
pub fn quantile_indices(n: usize) -> (r: (usize, usize, usize))
    requires
        n > 0,
    ensures
        r.0 == (if n / 10 < n { n / 10 } else { (n - 1) as usize }),
        r.1 == (if n / 2 < n { n / 2 } else { (n - 1) as usize }),
        r.2 as int == (if (9 * n as int) / 10 < n { (9 * n as int) / 10 } else { n - 1 }),
        r.0 < n && r.1 < n && r.2 < n,
{
    let q10 = n / 10;
    let q50 = n / 2;
    let q90 = n / 10 * 9 + (n % 10) * 9 / 10;
    assert(q90 as int == (9 * n as int) / 10) by (nonlinear_arith)
        requires
            q90 as int == (n as int / 10) * 9 + ((n as int % 10) * 9) / 10,
            n as int >= 0,
    ;
    let q90 = if q90 < n { q90 } else { n - 1 };
    (if q10 < n { q10 } else { n - 1 }, if q50 < n { q50 } else { n - 1 }, q90)
}

/// `s` cut to `max_len` characters, its last three replaced by `...`, when
/// longer than that.
pub open spec fn truncated(s: Seq<char>, max_len: nat) -> Seq<char> {
    if s.len() <= max_len {
        s
    } else {
        s.take(if max_len >= 3 { max_len - 3 } else { 0 }) + "..."@
    }
}

/// Shortens a string for display.
pub fn truncate_string(s: &str, max_len: usize) -> (r: String)
    ensures
        r@ == truncated(s@, max_len as nat),
{
    let n = s.unicode_len();
    if n <= max_len {
        return String::from_str(s);
    }
    let keep = if max_len >= 3 { max_len - 3 } else { 0 };
    let mut out = String::from_str(s.substring_char(0, keep));
    out.append("...");
    out
}

/// Numbered lines of cycles with their lengths, the text cut to 120.
pub open spec fn top_cycle_lines(cs: Seq<Cycle>) -> Seq<char>
    decreases cs.len(),
{
    if cs.len() == 0 {
        Seq::empty()
    } else {
        top_cycle_lines(cs.drop_last()) + "  "@ + crate::text::decimal(cs.len()) + ". "@ + truncated(
            cycle_text(path_list(cs.last().modules@)),
            120,
        ) + " (length: "@ + crate::text::decimal(cs.last().modules@.len()) + ")\n"@
    }
}

/// The block listing the longest cycles, numbered, each with its length.
pub fn format_top_cycles(cycles: &Vec<Cycle>) -> (r: String)
    ensures
        r@ == if cycles@.len() == 0 {
            Seq::<char>::empty()
        } else {
            "Top cycles by length:\n"@ + top_cycle_lines(cycles@)
        },
{
    if cycles.len() == 0 {
        return String::new();
    }
    let ghost cs = cycles@;
    let mut output = String::from_str("Top cycles by length:\n");
    let ghost head = output@;
    let mut i: usize = 0;
    assert(cs.take(0) =~= Seq::<Cycle>::empty());
    while i < cycles.len()
        invariant
            cs == cycles@,
            i <= cs.len(),
            output@ == head + top_cycle_lines(cs.take(i as int)),
        decreases cs.len() - i,
    {
        assert(cs.take(i + 1).drop_last() =~= cs.take(i as int));
        assert(cs.take(i + 1).last() == cs[i as int]);
        output.append("  ");
        push_decimal(&mut output, i + 1);
        output.append(". ");
        output.append(truncate_string(cycles[i].format_cycle().as_str(), 120).as_str());
        output.append(" (length: ");
        push_decimal(&mut output, cycles[i].modules.len());
        output.append(")\n");
        assert(output@ =~= head + top_cycle_lines(cs.take(i + 1)));
        i = i + 1;
    }
    assert(cs.take(i as int) =~= cs);
    output
}

/// Names joined by `, `.
pub open spec fn comma_join(ns: Seq<Seq<char>>) -> Seq<char>
    decreases ns.len(),
{
    if ns.len() == 0 {
        Seq::empty()
    } else if ns.len() == 1 {
        ns[0]
    } else {
        comma_join(ns.drop_last()) + ", "@ + ns.last()
    }
}

fn joined_comma(v: &Vec<String>) -> (r: String)
    ensures
        r@ == comma_join(path_list(v@)),
{
    let ghost pv = path_list(v@);
    let mut out = String::new();
    let mut i: usize = 0;
    assert(pv.take(0) =~= Seq::<Seq<char>>::empty());
    while i < v.len()
        invariant
            pv == path_list(v@),
            i <= pv.len(),
            out@ == comma_join(pv.take(i as int)),
        decreases pv.len() - i,
    {
        assert(pv.take(i + 1).drop_last() =~= pv.take(i as int));
        assert(pv.take(i + 1).last() == v@[i as int]@);
        if i > 0 {
            out.append(", ");
        } else {
            assert(pv.take(i as int).len() == 0);
        }
        out.append(v[i].as_str());
        assert(out@ =~= comma_join(pv.take(i + 1)));
        i = i + 1;
    }
    assert(pv.take(i as int) =~= pv);
    out
}

/// The block on undeclared and unused external dependencies.
pub open spec fn external_issues(und: Seq<Seq<char>>, unu: Seq<Seq<char>>) -> Seq<char> {
    if und.len() == 0 && unu.len() == 0 {
        "✅ All external dependencies properly declared and used"@
    } else {
        "⚠️ Issues found:"@ + (if und.len() > 0 {
            "\n  • Undeclared: "@ + truncated(comma_join(und), 120)
        } else {
            Seq::empty()
        }) + (if unu.len() > 0 {
            "\n  • Unused: "@ + truncated(comma_join(unu), 120)
        } else {
            Seq::empty()
        })
    }
}

/// The block on undeclared and unused external dependencies.
pub fn format_external_issues(undeclared: &Vec<String>, unused: &Vec<String>) -> (r: String)
    ensures
        r@ == external_issues(path_list(undeclared@), path_list(unused@)),
{
    if undeclared.len() == 0 && unused.len() == 0 {
        return String::from_str("✅ All external dependencies properly declared and used");
    }
    let mut output = String::from_str("⚠️ Issues found:");
    if undeclared.len() > 0 {
        output.append("\n  • Undeclared: ");
        output.append(truncate_string(joined_comma(undeclared).as_str(), 120).as_str());
    }
    if unused.len() > 0 {
        output.append("\n  • Unused: ");
        output.append(truncate_string(joined_comma(unused).as_str(), 120).as_str());
    }
    assert(output@ =~= external_issues(path_list(undeclared@), path_list(unused@)));
    output
}

} // verus!
