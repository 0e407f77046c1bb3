//! Import cycles at package granularity, each in one canonical form.
use crate::graph::{
    path_list, transitive_ok, typed_list, DependencyGraph, DependencyType, GraphError,
};
use crate::text::{lemma_lex_asymmetric, lemma_lex_irreflexive, lemma_lex_total, lemma_lex_transitive, lex_lt, str_lt};
use crate::dependencies::first_with_path;
use vstd::prelude::*;

verus! {

/// `s` rotated left by `k`: it starts at `s[k]` and wraps around.
pub open spec fn rotate(s: Seq<Seq<char>>, k: int) -> Seq<Seq<char>> {
    s.skip(k) + s.take(k)
}

/// No element of `s` orders strictly before `s[m]`.
pub open spec fn is_least_at(s: Seq<Seq<char>>, m: int) -> bool {
    0 <= m < s.len() && forall|j: int| 0 <= j < s.len() ==> !lex_lt(#[trigger] s[j], s[m])
}

/// `m` is the first position of a least element.
pub open spec fn is_first_least(s: Seq<Seq<char>>, m: int) -> bool {
    is_least_at(s, m) && forall|j: int| 0 <= j < m ==> !is_least_at(s, j)
}

/// The first position of a least element of a non-empty `s`.
pub open spec fn first_least(s: Seq<Seq<char>>) -> int {
    choose|m: int| is_first_least(s, m)
}

/// Lexicographic order on lists of paths.
pub open spec fn seqs_lt(a: Seq<Seq<char>>, b: Seq<Seq<char>>) -> bool
    decreases a.len(),
{
    if b.len() == 0 {
        false
    } else if a.len() == 0 {
        true
    } else if a[0] != b[0] {
        lex_lt(a[0], b[0])
    } else {
        seqs_lt(a.drop_first(), b.drop_first())
    }
}

/// The canonical form of a cycle: rotated so a least member comes first,
/// in whichever direction orders first.
pub open spec fn canonical(s: Seq<Seq<char>>) -> Seq<Seq<char>> {
    if s.len() == 0 {
        s
    } else {
        let f = rotate(s, first_least(s));
        let r = s.reverse();
        let g = rotate(r, first_least(r));
        if seqs_lt(g, f) {
            g
        } else {
            f
        }
    }
}

proof fn lemma_first_least_unique(s: Seq<Seq<char>>, m: int)
    requires
        is_first_least(s, m),
    ensures
        first_least(s) == m,
{
    let c = first_least(s);
    assert(is_first_least(s, c));
    if c < m {
        assert(!is_least_at(s, c));
    } else if m < c {
        assert(!is_least_at(s, m));
    }
}

proof fn lemma_rotate_index(s: Seq<Seq<char>>, k: int, i: int)
    requires
        0 <= k < s.len(),
        0 <= i < s.len(),
    ensures
        rotate(s, k).len() == s.len(),
        rotate(s, k)[i] == if i < s.len() - k {
            s[i + k]
        } else {
            s[i + k - s.len()]
        },
{
}

/// The least element of a duplicate-free list sits at exactly one position.
proof fn lemma_least_unique(s: Seq<Seq<char>>, a: int, b: int)
    requires
        s.no_duplicates(),
        is_least_at(s, a),
        is_least_at(s, b),
    ensures
        a == b,
{
    if a != b {
        lemma_lex_total(s[a], s[b]);
    }
}

proof fn lemma_least_exists(s: Seq<Seq<char>>)
    requires
        s.len() > 0,
    ensures
        exists|m: int| is_least_at(s, m),
    decreases s.len(),
{
    if s.len() == 1 {
        lemma_lex_irreflexive(s[0]);
        assert(is_least_at(s, 0));
    } else {
        let d = s.drop_last();
        lemma_least_exists(d);
        let m = choose|m: int| is_least_at(d, m);
        let x = s.last();
        if lex_lt(x, s[m]) {
            assert forall|j: int| 0 <= j < s.len() implies !lex_lt(#[trigger] s[j], x) by {
                if j < d.len() {
                    assert(d[j] == s[j]);
                    if lex_lt(s[j], x) {
                        lemma_lex_transitive(s[j], x, s[m]);
                    }
                } else {
                    lemma_lex_irreflexive(x);
                }
            }
            assert(is_least_at(s, s.len() - 1));
        } else {
            assert forall|j: int| 0 <= j < s.len() implies !lex_lt(#[trigger] s[j], s[m]) by {
                if j < d.len() {
                    assert(d[j] == s[j]);
                }
            }
            assert(is_least_at(s, m));
        }
    }
}

proof fn lemma_first_least_exists(s: Seq<Seq<char>>)
    requires
        s.no_duplicates(),
        s.len() > 0,
    ensures
        is_first_least(s, first_least(s)),
{
    lemma_least_exists(s);
    let m = choose|m: int| is_least_at(s, m);
    assert forall|j: int| 0 <= j < m implies !is_least_at(s, j) by {
        if is_least_at(s, j) {
            lemma_least_unique(s, j, m);
        }
    }
    lemma_first_least_unique(s, m);
}

proof fn lemma_rotate_keeps_distinct(s: Seq<Seq<char>>, k: int)
    requires
        s.no_duplicates(),
        0 <= k < s.len(),
    ensures
        rotate(s, k).no_duplicates(),
        rotate(s, k).len() == s.len(),
{
    let t = rotate(s, k);
    assert forall|a: int, b: int| 0 <= a < t.len() && 0 <= b < t.len() && a != b implies t[a]
        != t[b] by {
        lemma_rotate_index(s, k, a);
        lemma_rotate_index(s, k, b);
    }
}

/// Rotating then rotating to the least element lands where rotating the
/// unrotated list to its least element does.
proof fn lemma_rotate_least(s: Seq<Seq<char>>, k: int)
    requires
        s.no_duplicates(),
        0 <= k < s.len(),
    ensures
        rotate(rotate(s, k), first_least(rotate(s, k))) == rotate(s, first_least(s)),
{
    let n = s.len();
    let t = rotate(s, k);
    lemma_first_least_exists(s);
    lemma_rotate_keeps_distinct(s, k);
    let m = first_least(s);
    let m2 = if m >= k {
        m - k
    } else {
        m - k + n
    };
    lemma_rotate_index(s, k, m2);
    assert(t[m2] == s[m]);
    assert forall|j: int| 0 <= j < t.len() implies !lex_lt(#[trigger] t[j], t[m2]) by {
        lemma_rotate_index(s, k, j);
    }
    assert(is_least_at(t, m2));
    lemma_first_least_exists(t);
    lemma_least_unique(t, first_least(t), m2);
    let a = rotate(t, m2);
    let b = rotate(s, m);
    assert forall|i: int| 0 <= i < n implies a[i] == b[i] by {
        lemma_rotate_index(t, m2, i);
        lemma_rotate_index(s, m, i);
        let i2 = if i < n - m2 {
            i + m2
        } else {
            i + m2 - n
        };
        lemma_rotate_index(s, k, i2);
    }
    assert(a =~= b);
}

/// Reversing a rotation is rotating the reversal.
proof fn lemma_reverse_rotate(s: Seq<Seq<char>>, k: int)
    requires
        0 <= k < s.len(),
    ensures
        rotate(s, k).reverse() == rotate(s.reverse(), if k == 0 {
            0
        } else {
            s.len() - k
        }),
{
    let n = s.len();
    let k2 = if k == 0 {
        0
    } else {
        n - k
    };
    let a = rotate(s, k).reverse();
    let b = rotate(s.reverse(), k2);
    assert forall|i: int| 0 <= i < n implies a[i] == b[i] by {
        lemma_rotate_index(s, k, n - 1 - i);
        lemma_rotate_index(s.reverse(), k2, i);
    }
    assert(a =~= b);
}

proof fn lemma_seqs_lt_asymmetric(a: Seq<Seq<char>>, b: Seq<Seq<char>>)
    ensures
        !(seqs_lt(a, b) && seqs_lt(b, a)),
    decreases a.len(),
{
    if a.len() > 0 && b.len() > 0 {
        if a[0] != b[0] {
            lemma_lex_asymmetric(a[0], b[0]);
        } else {
            lemma_seqs_lt_asymmetric(a.drop_first(), b.drop_first());
        }
    }
}

proof fn lemma_seqs_lt_total(a: Seq<Seq<char>>, b: Seq<Seq<char>>)
    ensures
        a != b ==> seqs_lt(a, b) || seqs_lt(b, a),
    decreases a.len(),
{
    if a.len() > 0 && b.len() > 0 {
        if a[0] != b[0] {
            lemma_lex_total(a[0], b[0]);
        } else {
            lemma_seqs_lt_total(a.drop_first(), b.drop_first());
            if a.drop_first() == b.drop_first() {
                assert(a =~= seq![a[0]] + a.drop_first());
                assert(b =~= seq![b[0]] + b.drop_first());
            }
        }
    } else if a.len() == 0 && b.len() == 0 {
        assert(a =~= b);
    }
}

/// Reading a cycle backwards does not change its canonical form either:
/// for a cycle of distinct members, `canonical` of the reversed list is
/// `canonical` of the list.
pub proof fn law_canonical_reversal(s: Seq<Seq<char>>)
    requires
        s.no_duplicates(),
    ensures
        canonical(s.reverse()) == canonical(s),
{
    if s.len() > 0 {
        let r = s.reverse();
        assert(r.reverse() =~= s);
        let f = rotate(s, first_least(s));
        let g = rotate(r, first_least(r));
        lemma_seqs_lt_asymmetric(f, g);
        lemma_seqs_lt_total(f, g);
    } else {
        assert(s.reverse() =~= s);
    }
}

/// A canonical form is its own canonical form.
pub proof fn law_canonical_idempotent(s: Seq<Seq<char>>)
    requires
        s.no_duplicates(),
    ensures
        canonical(canonical(s)) == canonical(s),
{
    if s.len() > 0 {
        let r = s.reverse();
        assert(r.no_duplicates()) by {
            assert forall|a: int, b: int| 0 <= a < r.len() && 0 <= b < r.len() && a != b implies r[a] != r[b] by {
                assert(r[a] == s[s.len() - 1 - a] && r[b] == s[s.len() - 1 - b]);
            }
        }
        lemma_first_least_exists(s);
        lemma_first_least_exists(r);
        law_canonical_rotation(s, first_least(s));
        law_canonical_rotation(r, first_least(r));
        law_canonical_reversal(s);
    }
}

/// Where a cycle is entered does not change its canonical form: rotating a
/// cycle of distinct members leaves `canonical` unchanged.
pub proof fn law_canonical_rotation(s: Seq<Seq<char>>, k: int)
    requires
        s.no_duplicates(),
        0 <= k < s.len(),
    ensures
        canonical(rotate(s, k)) == canonical(s),
{
    let t = rotate(s, k);
    lemma_rotate_keeps_distinct(s, k);
    lemma_rotate_least(s, k);
    let r = s.reverse();
    assert(r.no_duplicates()) by {
        assert forall|a: int, b: int| 0 <= a < r.len() && 0 <= b < r.len() && a != b implies r[a]
            != r[b] by {
            assert(r[a] == s[s.len() - 1 - a] && r[b] == s[s.len() - 1 - b]);
        }
    }
    lemma_reverse_rotate(s, k);
    let k2 = if k == 0 {
        0
    } else {
        s.len() - k
    };
    lemma_rotate_least(r, k2);
}

} // verus!

verus! {

/// Position of the first least path of a non-empty list.
fn least_index(v: &Vec<String>) -> (m: usize)
    requires
        v@.len() > 0,
    ensures
        is_first_least(path_list(v@), m as int),
{
    let ghost s = path_list(v@);
    let mut m: usize = 0;
    let mut i: usize = 1;
    proof {
        lemma_lex_irreflexive(s[0]);
    }
    while i < v.len()
        invariant
            s == path_list(v@),
            1 <= i <= v@.len(),
            m < i,
            forall|j: int| 0 <= j < i ==> !lex_lt(#[trigger] s[j], s[m as int]),
            forall|j: int| 0 <= j < m ==> lex_lt(s[m as int], #[trigger] s[j]),
        decreases v@.len() - i,
    {
        if str_lt(&v[i], &v[m]) {
            proof {
                assert forall|j: int| 0 <= j < i + 1 implies !lex_lt(#[trigger] s[j], s[i as int]) by {
                    if j < i && lex_lt(s[j], s[i as int]) {
                        lemma_lex_transitive(s[j], s[i as int], s[m as int]);
                    }
                    if j == i {
                        lemma_lex_irreflexive(s[j]);
                    }
                }
                assert forall|j: int| 0 <= j < i implies lex_lt(s[i as int], #[trigger] s[j]) by {
                    if j < m {
                        lemma_lex_transitive(s[i as int], s[m as int], s[j]);
                    } else if j > m {
                        lemma_lex_total(s[j], s[m as int]);
                        if s[j] != s[m as int] {
                            lemma_lex_transitive(s[i as int], s[m as int], s[j]);
                        }
                    }
                }
            }
            m = i;
        }
        i = i + 1;
    }
    proof {
        assert forall|j: int| 0 <= j < m implies !is_least_at(s, j) by {
            assert(lex_lt(s[m as int], s[j]));
        }
    }
    m
}

/// `v` rotated left by `k`.
fn rotated(v: &Vec<String>, k: usize) -> (r: Vec<String>)
    requires
        k < v@.len(),
    ensures
        path_list(r@) == rotate(path_list(v@), k as int),
{
    let n = v.len();
    let mut r: Vec<String> = Vec::new();
    let mut i: usize = 0;
    while i < n
        invariant
            n == v@.len(),
            k < n,
            i <= n,
            r@.len() == i,
            forall|j: int| 0 <= j < i ==> (#[trigger] r@[j])@ == rotate(path_list(v@), k as int)[j],
        decreases n - i,
    {
        let src = if i < n - k {
            i + k
        } else {
            i - (n - k)
        };
        r.push(v[src].clone());
        i = i + 1;
    }
    assert(path_list(r@) =~= rotate(path_list(v@), k as int));
    r
}

/// `v` in reverse order.
fn reversed(v: &Vec<String>) -> (r: Vec<String>)
    ensures
        path_list(r@) == path_list(v@).reverse(),
{
    let n = v.len();
    let mut r: Vec<String> = Vec::new();
    let mut i: usize = 0;
    while i < n
        invariant
            n == v@.len(),
            i <= n,
            r@.len() == i,
            forall|j: int| 0 <= j < i ==> (#[trigger] r@[j])@ == path_list(v@).reverse()[j],
        decreases n - i,
    {
        r.push(v[n - 1 - i].clone());
        i = i + 1;
    }
    assert(path_list(r@) =~= path_list(v@).reverse());
    r
}

/// Whether `a` orders before `b` as lists of paths.
fn paths_lt(a: &Vec<String>, b: &Vec<String>) -> (r: bool)
    ensures
        r == seqs_lt(path_list(a@), path_list(b@)),
{
    let ghost x = path_list(a@);
    let ghost y = path_list(b@);
    let mut i: usize = 0;
    assert(x.skip(0) =~= x);
    assert(y.skip(0) =~= y);
    while i < a.len() && i < b.len()
        invariant
            x == path_list(a@),
            y == path_list(b@),
            i <= a@.len(),
            i <= b@.len(),
            seqs_lt(x, y) == seqs_lt(x.skip(i as int), y.skip(i as int)),
        decreases a@.len() - i,
    {
        if a[i] != b[i] {
            return str_lt(&a[i], &b[i]);
        }
        assert(x.skip(i as int).drop_first() =~= x.skip(i + 1));
        assert(y.skip(i as int).drop_first() =~= y.skip(i + 1));
        i = i + 1;
    }
    i < b.len()
}

/// Puts a cycle into its canonical form: rotated so that its least member
/// comes first, and read in whichever direction orders first.
pub fn normalize_cycle(names: &mut Vec<String>)
    ensures
        path_list(final(names)@) == canonical(path_list(old(names)@)),
{
    if names.len() == 0 {
        return ;
    }
    let m = least_index(names);
    let forward = rotated(names, m);
    let rev = reversed(names);
    assert(path_list(rev@).len() == rev@.len());
    let m2 = least_index(&rev);
    let backward = rotated(&rev, m2);
    proof {
        lemma_first_least_unique(path_list(old(names)@), m as int);
        lemma_first_least_unique(path_list(rev@), m2 as int);
    }
    if paths_lt(&backward, &forward) {
        *names = backward;
    } else {
        *names = forward;
    }
}

/// A circular chain of imports, members in order, the first not repeated
/// at the end.
#[derive(Debug, Clone, PartialEq, Eq)]
pub struct Cycle {
    pub modules: Vec<String>,
}

/// The text of a cycle: its members joined by ` → `, closed by the first.
pub open spec fn cycle_text(m: Seq<Seq<char>>) -> Seq<char>
    decreases m.len(),
{
    if m.len() == 0 {
        Seq::empty()
    } else {
        joined_arrows(m) + " → "@ + m[0]
    }
}

/// Members joined by ` → `.
pub open spec fn joined_arrows(m: Seq<Seq<char>>) -> Seq<char>
    decreases m.len(),
{
    if m.len() == 0 {
        Seq::empty()
    } else if m.len() == 1 {
        m[0]
    } else {
        joined_arrows(m.drop_last()) + " → "@ + m.last()
    }
}

impl Cycle {
    pub fn new(modules: Vec<String>) -> (r: Cycle)
        ensures
            r.modules == modules,
    {
        Cycle { modules }
    }

    /// The cycle as text, for example `a → b → a`; empty for no members.
    pub fn format_cycle(&self) -> (r: String)
        ensures
            r@ == cycle_text(path_list(self.modules@)),
    {
        let ghost m = path_list(self.modules@);
        if self.modules.len() == 0 {
            return String::new();
        }
        let mut s = self.modules[0].clone();
        let mut i: usize = 1;
        assert(m.take(1).drop_last() =~= Seq::<Seq<char>>::empty());
        while i < self.modules.len()
            invariant
                m == path_list(self.modules@),
                1 <= i <= m.len(),
                s@ == joined_arrows(m.take(i as int)),
            decreases m.len() - i,
        {
            s.append(" → ");
            s.append(self.modules[i].as_str());
            assert(m.take(i + 1).drop_last() =~= m.take(i as int));
            i = i + 1;
        }
        assert(m.take(i as int) =~= m);
        s.append(" → ");
        s.append(self.modules[0].as_str());
        s
    }
}

/// The cycles found in a graph.
#[derive(Debug)]
pub struct CycleResult {
    pub cycles: Vec<Cycle>,
}

impl CycleResult {
    pub fn new(cycles: Vec<Cycle>) -> (r: CycleResult)
        ensures
            r.cycles == cycles,
    {
        CycleResult { cycles }
    }

    pub fn cycle_count(&self) -> (r: usize)
        ensures
            r == self.cycles@.len(),
    {
        self.cycles.len()
    }
}

} // verus!

verus! {

/// The member after position `q` of a cycle of length `n`.
pub open spec fn next_pos(q: int, n: int) -> int {
    if q + 1 < n {
        q + 1
    } else {
        0
    }
}

/// `w` is a closed walk along `adj`: each member lists the next, and the
/// last lists the first.
pub open spec fn closed_walk(adj: Seq<Vec<usize>>, w: Seq<usize>) -> bool {
    &&& w.len() > 0
    &&& forall|q: int| 0 <= q < w.len() ==> w[q] < adj.len()
    &&& forall|q: int|
        0 <= q < w.len() ==> adj[w[q] as int]@.contains(#[trigger] w[next_pos(q, w.len() as int)])
}

/// The paths of the nodes of `w`.
pub open spec fn walk_paths(paths: Seq<Seq<char>>, w: Seq<usize>) -> Seq<Seq<char>> {
    w.map_values(|i: usize| paths[i as int])
}

/// Every cycle is the canonical form of a closed walk along `adj`, and no
/// two are equal.
pub open spec fn cycles_ok(paths: Seq<Seq<char>>, adj: Seq<Vec<usize>>, out: Seq<Cycle>) -> bool {
    &&& forall|a: int, b: int|
        0 <= a < b < out.len() ==> path_list(out[a].modules@) != path_list(out[b].modules@)
    &&& forall|k: int| 0 <= k < out.len() ==> path_list((#[trigger] out[k]).modules@).no_duplicates()
    &&& forall|k: int|
        0 <= k < out.len() ==> exists|w: Seq<usize>|
            closed_walk(adj, w) && walk_paths(paths, w).no_duplicates() && path_list((#[trigger] out[k]).modules@)
                == canonical(walk_paths(paths, w))
}

/// No node before `n` has the path of node `n`.
pub open spec fn is_first_path(ps: Seq<Seq<char>>, n: usize) -> bool {
    forall|m: int| 0 <= m < n ==> ps[m] != ps[n as int]
}

/// Node `x` has been searched completely.
pub open spec fn finished(visited: Seq<bool>, on_stack: Seq<bool>, x: int) -> bool {
    visited[x] && !on_stack[x]
}

/// Finishing numbers are below `c`, and nodes on the stack are visited.
pub open spec fn finish_order_ok(
    n: nat,
    visited: Seq<bool>,
    on_stack: Seq<bool>,
    fin: Seq<int>,
    c: int,
) -> bool {
    &&& fin.len() == n
    &&& forall|x: int| 0 <= x < n && #[trigger] finished(visited, on_stack, x) ==> fin[x] < c
    &&& forall|x: int| 0 <= x < n && #[trigger] on_stack[x] ==> visited[x]
}

/// Every edge leaving a finished node leads to a node finished earlier.
pub open spec fn edges_descend(adj: Seq<Vec<usize>>, visited: Seq<bool>, on_stack: Seq<bool>, fin: Seq<int>) -> bool {
    forall|x: int, k: int|
        0 <= x < adj.len() && finished(visited, on_stack, x) && 0 <= k < adj[x]@.len() ==> finished(
            visited,
            on_stack,
            (#[trigger] adj[x]@[k]) as int,
        ) && fin[adj[x]@[k] as int] < fin[x]
}

/// A canonical form has the length of the cycle, and distinct members stay
/// distinct.
proof fn lemma_canonical_shape(s: Seq<Seq<char>>)
    requires
        s.no_duplicates(),
    ensures
        canonical(s).len() == s.len(),
        canonical(s).no_duplicates(),
{
    if s.len() > 0 {
        let r = s.reverse();
        assert(r.no_duplicates()) by {
            assert forall|a: int, b: int| 0 <= a < r.len() && 0 <= b < r.len() && a != b implies r[a] != r[b] by {
                assert(r[a] == s[s.len() - 1 - a] && r[b] == s[s.len() - 1 - b]);
            }
        }
        lemma_first_least_exists(s);
        lemma_first_least_exists(r);
        lemma_rotate_keeps_distinct(s, first_least(s));
        lemma_rotate_keeps_distinct(r, first_least(r));
    }
}

/// The canonical form of a cycle with distinct members is its own canonical
/// form, and has distinct members.
proof fn lemma_canonical_fixed(s: Seq<Seq<char>>)
    requires
        s.no_duplicates(),
    ensures
        canonical(canonical(s)) == canonical(s),
        canonical(s).no_duplicates(),
{
    lemma_canonical_shape(s);
    law_canonical_idempotent(s);
}

/// Fewer and fewer finishing numbers along every edge leave no closed walk.
proof fn lemma_no_closed_walk(adj: Seq<Vec<usize>>, fin: Seq<int>, w: Seq<usize>)
    requires
        forall|x: int, k: int|
            0 <= x < adj.len() && 0 <= k < adj[x]@.len() ==> fin[(#[trigger] adj[x]@[k]) as int] < fin[x],
    ensures
        !closed_walk(adj, w),
{
    if closed_walk(adj, w) {
        let n = w.len() as int;
        assert forall|q: int| 0 <= q < n implies fin[w[next_pos(q, n)] as int] < fin[w[q] as int] by {
            assert(adj[w[q] as int]@.contains(w[next_pos(q, n)]));
            let k = choose|k: int| 0 <= k < adj[w[q] as int]@.len() && adj[w[q] as int]@[k] == w[next_pos(q, n)];
        }
        lemma_walk_descends(fin, w, n - 1);
        assert(fin[w[next_pos(n - 1, n)] as int] < fin[w[n - 1] as int]);
    }
}

proof fn lemma_walk_descends(fin: Seq<int>, w: Seq<usize>, q: int)
    requires
        0 <= q < w.len(),
        forall|p: int| 0 <= p < w.len() ==> fin[w[next_pos(p, w.len() as int)] as int] < fin[w[p] as int],
    ensures
        fin[w[q] as int] <= fin[w[0] as int] - q,
    decreases q,
{
    if q > 0 {
        lemma_walk_descends(fin, w, q - 1);
        assert(next_pos(q - 1, w.len() as int) == q);
    }
}

/// Whether two path lists are equal.
fn same_paths(a: &Vec<String>, b: &Vec<String>) -> (r: bool)
    ensures
        r == (path_list(a@) == path_list(b@)),
{
    if a.len() != b.len() {
        return false;
    }
    let mut i: usize = 0;
    while i < a.len()
        invariant
            a@.len() == b@.len(),
            i <= a@.len(),
            forall|j: int| 0 <= j < i ==> a@[j]@ == b@[j]@,
        decreases a@.len() - i,
    {
        if a[i] != b[i] {
            assert(path_list(a@)[i as int] != path_list(b@)[i as int]);
            return false;
        }
        i = i + 1;
    }
    assert(path_list(a@) =~= path_list(b@));
    true
}

/// Depth-first search from `node`; a neighbour already on the stack closes
/// a cycle, which is recorded in canonical form unless already recorded.
#[verifier::rlimit(60)]
fn dfs_cycles(
    node: usize,
    adj: &Vec<Vec<usize>>,
    paths: &Vec<String>,
    visited: &mut Vec<bool>,
    stack: &mut Vec<usize>,
    on_stack: &mut Vec<bool>,
    out: &mut Vec<Cycle>,
    Ghost(fin): Ghost<Seq<int>>,
    Ghost(c): Ghost<int>,
) -> (res: Ghost<(Seq<int>, int)>)
    requires
        adj@.len() == paths@.len(),
        forall|a: int, k: int|
            0 <= a < adj@.len() && 0 <= k < adj@[a]@.len() ==> is_first_path(path_list(paths@), #[trigger] adj@[a]@[k]),
        forall|q: int| 0 < q < old(stack)@.len() ==> is_first_path(path_list(paths@), #[trigger] old(stack)@[q]),
        old(stack)@.len() > 0 ==> is_first_path(path_list(paths@), node),
        finish_order_ok(adj@.len(), old(visited)@, old(on_stack)@, fin, c),
        old(out)@.len() == 0 ==> edges_descend(adj@, old(visited)@, old(on_stack)@, fin),
        old(visited)@.len() == adj@.len(),
        old(on_stack)@.len() == adj@.len(),
        node < adj@.len(),
        !old(visited)@[node as int],
        forall|a: int, k: int|
            0 <= a < adj@.len() && 0 <= k < adj@[a]@.len() ==> (#[trigger] adj@[a]@[k]) < adj@.len(),
        old(stack)@.no_duplicates(),
        forall|q: int| 0 <= q < old(stack)@.len() ==> (#[trigger] old(stack)@[q]) < adj@.len(),
        forall|q: int| 0 <= q < old(stack)@.len() ==> old(visited)@[#[trigger] old(stack)@[q] as int],
        forall|x: int|
            0 <= x < adj@.len() ==> (old(on_stack)@[x] <==> old(stack)@.contains(x as usize)),
        forall|q: int|
            0 <= q < old(stack)@.len() - 1 ==> adj@[old(stack)@[q] as int]@.contains(
                #[trigger] old(stack)@[q + 1],
            ),
        old(stack)@.len() > 0 ==> adj@[old(stack)@.last() as int]@.contains(node),
        cycles_ok(path_list(paths@), adj@, old(out)@),
    ensures
        final(visited)@.len() == adj@.len(),
        forall|x: int| 0 <= x < adj@.len() && old(visited)@[x] ==> final(visited)@[x],
        final(visited)@[node as int],
        final(stack)@ == old(stack)@,
        final(on_stack)@ == old(on_stack)@,
        cycles_ok(path_list(paths@), adj@, final(out)@),
        finished(final(visited)@, final(on_stack)@, node as int),
        forall|x: int|
            0 <= x < adj@.len() && #[trigger] finished(old(visited)@, old(on_stack)@, x) ==> finished(
                final(visited)@,
                final(on_stack)@,
                x,
            ) && res@.0[x] == fin[x],
        finish_order_ok(adj@.len(), final(visited)@, final(on_stack)@, res@.0, res@.1),
        res@.1 >= c,
        final(out)@.len() >= old(out)@.len(),
        final(out)@.len() == 0 ==> edges_descend(adj@, final(visited)@, final(on_stack)@, res@.0),
    decreases adj@.len() - old(stack)@.len(),
{
    let n = adj.len();
    let ghost ps = path_list(paths@);
    let ghost stack0 = stack@;
    let ghost on0 = on_stack@;
    let ghost vis0 = visited@;
    let ghost out0 = out@;
    let ghost mut f = fin;
    let ghost mut cc = c;
    visited.set(node, true);
    stack.push(node);
    on_stack.set(node, true);
    proof {
        assert(!stack0.contains(node));
        assert forall|a: int, b: int| 0 <= a < stack@.len() && 0 <= b < stack@.len() && a != b implies stack@[a] != stack@[b] by {
            if a < stack0.len() && b < stack0.len() {
                assert(stack@[a] == stack0[a] && stack@[b] == stack0[b]);
            } else if a < stack0.len() {
                assert(stack0.contains(stack@[a]));
            } else if b < stack0.len() {
                assert(stack0.contains(stack@[b]));
            }
        }
        assert forall|x: int| 0 <= x < n implies (on_stack@[x] <==> stack@.contains(x as usize)) by {
            if x != node {
                if stack0.contains(x as usize) {
                    let q = choose|q: int| 0 <= q < stack0.len() && stack0[q] == x as usize;
                    assert(stack@[q] == x as usize);
                }
                if stack@.contains(x as usize) {
                    let q = choose|q: int| 0 <= q < stack@.len() && stack@[q] == x as usize;
                    assert(stack0[q] == x as usize);
                }
            } else {
                assert(stack@[stack@.len() - 1] == node);
            }
        }
        assert forall|q: int| 0 < q < stack@.len() implies is_first_path(ps, #[trigger] stack@[q]) by {
            if q < stack0.len() {
                assert(stack@[q] == stack0[q]);
            }
        }
        assert forall|x: int| 0 <= x < n && #[trigger] finished(vis0, on0, x) implies finished(visited@, on_stack@, x) && f[x] == fin[x] by {
            assert(x != node);
        }
        assert(finish_order_ok(n as nat, visited@, on_stack@, f, cc)) by {
            assert forall|x: int| 0 <= x < n && #[trigger] finished(visited@, on_stack@, x) implies f[x] < cc by {
                assert(x != node);
                assert(finished(vis0, on0, x));
            }
        }
        if out@.len() == 0 {
            assert forall|x: int, kk: int|
                0 <= x < adj@.len() && finished(visited@, on_stack@, x) && 0 <= kk < adj@[x]@.len() implies finished(
                    visited@,
                    on_stack@,
                    (#[trigger] adj@[x]@[kk]) as int,
                ) && f[adj@[x]@[kk] as int] < f[x] by {
                assert(x != node);
                assert(finished(vis0, on0, x));
                let y = adj@[x]@[kk] as int;
                assert(finished(vis0, on0, y));
                assert(y != node);
            }
        }
    }
    let neighbours = &adj[node];
    let mut k: usize = 0;
    while k < neighbours.len()
        invariant
            n == adj@.len(),
            ps == path_list(paths@),
            adj@.len() == paths@.len(),
            neighbours@ == adj@[node as int]@,
            node < n,
            k <= neighbours@.len(),
            visited@.len() == n,
            on_stack@.len() == n,
            forall|x: int| 0 <= x < n && old(visited)@[x] ==> visited@[x],
            visited@[node as int],
            forall|a: int, k: int|
                0 <= a < adj@.len() && 0 <= k < adj@[a]@.len() ==> (#[trigger] adj@[a]@[k]) < adj@.len(),
            stack@ == stack0.push(node),
            stack0 == old(stack)@,
            stack@.no_duplicates(),
            forall|q: int| 0 <= q < stack@.len() ==> (#[trigger] stack@[q]) < n,
            forall|q: int| 0 <= q < stack@.len() ==> visited@[#[trigger] stack@[q] as int],
            forall|x: int| 0 <= x < n ==> (on_stack@[x] <==> stack@.contains(x as usize)),
            forall|q: int|
                0 <= q < stack@.len() - 1 ==> adj@[stack@[q] as int]@.contains(#[trigger] stack@[q + 1]),
            on_stack@ == on0.update(node as int, true),
            cycles_ok(ps, adj@, out@),
            on0 == old(on_stack)@,
            vis0 == old(visited)@,
            out0 == old(out)@,
            !vis0[node as int],
            forall|a: int, k: int|
                0 <= a < adj@.len() && 0 <= k < adj@[a]@.len() ==> is_first_path(ps, #[trigger] adj@[a]@[k]),
            forall|q: int| 0 < q < stack@.len() ==> is_first_path(ps, #[trigger] stack@[q]),
            finish_order_ok(n as nat, visited@, on_stack@, f, cc),
            forall|x: int|
                0 <= x < n && #[trigger] finished(vis0, on0, x) ==> finished(visited@, on_stack@, x) && f[x] == fin[x],
            cc >= c,
            out@.len() >= out0.len(),
            out@.len() == 0 ==> edges_descend(adj@, visited@, on_stack@, f),
            out@.len() == 0 ==> forall|m: int| 0 <= m < k ==> finished(visited@, on_stack@, #[trigger] neighbours@[m] as int),
        decreases neighbours@.len() - k,
    {
        let v = neighbours[k];
        assert(v == adj@[node as int]@[k as int]);
        if !visited[v] {
            proof {
                assert(!stack@.contains(v)) by {
                    if stack@.contains(v) {
                        let q = choose|q: int| 0 <= q < stack@.len() && stack@[q] == v;
                        assert(visited@[stack@[q] as int]);
                    }
                }
                assert(stack@.push(v).no_duplicates()) by {
                    assert forall|a: int, b: int| 0 <= a < stack@.push(v).len() && 0 <= b < stack@.push(v).len() && a != b implies stack@.push(v)[a] != stack@.push(v)[b] by {
                        if a < stack@.len() && b < stack@.len() {
                        } else if a < stack@.len() {
                            assert(stack@.contains(stack@[a]));
                        } else if b < stack@.len() {
                            assert(stack@.contains(stack@[b]));
                        }
                    }
                }
                crate::graph::lemma_distinct_bounded(stack@.push(v), n);
                assert(stack@.last() == node);
                assert(adj@[node as int]@.contains(v));
                assert(stack@.push(v).len() == stack@.len() + 1);
                assert(stack@.len() == stack0.len() + 1);
                assert(adj@.len() - stack@.len() < adj@.len() - stack0.len());
                assert(adj@.len() - stack@.len() >= 0);
            }
            let ghost vis1 = visited@;
            let ghost on1 = on_stack@;
            let g = dfs_cycles(v, adj, paths, visited, stack, on_stack, out, Ghost(f), Ghost(cc));
            proof {
                let f_old = f;
                f = g@.0;
                cc = g@.1;
                assert forall|x: int| 0 <= x < n && #[trigger] finished(vis0, on0, x) implies finished(visited@, on_stack@, x) && f[x] == fin[x] by {
                    assert(finished(vis1, on1, x));
                }
                if out@.len() == 0 {
                    assert forall|m: int| 0 <= m < k + 1 implies finished(visited@, on_stack@, #[trigger] neighbours@[m] as int) by {
                        if m < k {
                            assert(finished(vis1, on1, neighbours@[m] as int));
                        }
                    }
                }
            }
        } else if on_stack[v] {
            // A back edge: the stack from `v` up to `node` is a cycle.
            let mut pos: usize = 0;
            while pos < stack.len() && stack[pos] != v
                invariant
                    pos <= stack@.len(),
                    forall|q: int| 0 <= q < pos ==> stack@[q] != v,
                decreases stack@.len() - pos,
            {
                pos = pos + 1;
            }
            if pos < stack.len() {
                let mut names: Vec<String> = Vec::new();
                let mut q: usize = pos;
                while q < stack.len()
                    invariant
                        pos <= q <= stack@.len(),
                        forall|m: int| 0 <= m < stack@.len() ==> (#[trigger] stack@[m]) < n,
                        n == paths@.len(),
                        names@.len() == q - pos,
                        forall|m: int| 0 <= m < names@.len() ==> (#[trigger] names@[m])@ == ps[stack@[pos + m] as int],
                        ps == path_list(paths@),
                    decreases stack@.len() - q,
                {
                    names.push(paths[stack[q]].clone());
                    q = q + 1;
                }
                let ghost w = stack@.skip(pos as int);
                proof {
                    assert(path_list(names@) =~= walk_paths(ps, w));
                    assert(path_list(names@).no_duplicates()) by {
                        assert forall|a: int, b: int| 0 <= a < names@.len() && 0 <= b < names@.len() && a != b implies path_list(names@)[a] != path_list(names@)[b] by {
                            let x = stack@[pos + a];
                            let y = stack@[pos + b];
                            assert(x != y);
                            assert(is_first_path(ps, x)) by {
                                if pos + a == 0 {
                                    assert(x == v);
                                }
                            }
                            assert(is_first_path(ps, y)) by {
                                if pos + b == 0 {
                                    assert(y == v);
                                }
                            }
                            assert(path_list(names@)[a] == ps[x as int] && path_list(names@)[b] == ps[y as int]);
                        }
                    }
                    lemma_canonical_shape(path_list(names@));
                    assert forall|m: int| 0 <= m < w.len() implies adj@[w[m] as int]@.contains(#[trigger] w[next_pos(m, w.len() as int)]) by {
                        if m + 1 < w.len() {
                            assert(w[m] == stack@[pos + m] && w[m + 1] == stack@[pos + m + 1]);
                        } else {
                            assert(w[m] == stack@[stack@.len() - 1]);
                            assert(w[0] == v);
                        }
                    }
                    assert(closed_walk(adj@, w));
                }
                normalize_cycle(&mut names);
                let mut dup = false;
                let mut c: usize = 0;
                while c < out.len()
                    invariant
                        c <= out@.len(),
                        dup ==> out@.len() > 0,
                        !dup ==> forall|b: int| 0 <= b < c ==> path_list(out@[b].modules@) != path_list(names@),
                    decreases out@.len() - c,
                {
                    if same_paths(&out[c].modules, &names) {
                        dup = true;
                    }
                    c = c + 1;
                }
                if !dup && names.len() > 0 {
                    let ghost old_out = out@;
                    let ghost nm = path_list(names@);
                    out.push(Cycle::new(names));
                    proof {
                        assert forall|a: int, b: int| 0 <= a < b < out@.len() implies path_list(out@[a].modules@) != path_list(out@[b].modules@) by {
                            if b < old_out.len() {
                                assert(out@[a] == old_out[a] && out@[b] == old_out[b]);
                            } else {
                                assert(out@[a] == old_out[a]);
                            }
                        }
                        assert forall|kk: int| 0 <= kk < out@.len() implies exists|w2: Seq<usize>|
                            closed_walk(adj@, w2) && walk_paths(ps, w2).no_duplicates() && path_list((#[trigger] out@[kk]).modules@) == canonical(walk_paths(ps, w2)) by {
                            if kk < old_out.len() {
                                assert(out@[kk] == old_out[kk]);
                            } else {
                                assert(path_list(out@[kk].modules@) == canonical(walk_paths(ps, w)));
                            }
                        }
                        assert forall|kk: int| 0 <= kk < out@.len() implies path_list((#[trigger] out@[kk]).modules@).no_duplicates() by {
                            if kk < old_out.len() {
                                assert(out@[kk] == old_out[kk]);
                            }
                        }
                    }
                }
            }
        }
        k = k + 1;
    }
    let ghost vis2 = visited@;
    let ghost on2 = on_stack@;
    let ghost f2 = f;
    on_stack.set(node, false);
    stack.pop();
    proof {
        assert(stack@ =~= stack0);
        assert(on_stack@ =~= on0) by {
            assert(!on0[node as int]) by {
                assert(!stack0.contains(node));
            }
        }
        f = f.update(node as int, cc);
        cc = cc + 1;
        assert forall|x: int| 0 <= x < n && #[trigger] finished(vis0, on0, x) implies finished(visited@, on_stack@, x) && f[x] == fin[x] by {
            assert(finished(vis2, on2, x));
            assert(x != node);
        }
        assert forall|x: int| 0 <= x < n && #[trigger] finished(visited@, on_stack@, x) implies f[x] < cc by {
            if x != node {
                assert(finished(vis2, on2, x));
            }
        }
        assert(finish_order_ok(n as nat, visited@, on_stack@, f, cc));
        if out@.len() == 0 {
            assert forall|x: int, kk: int|
                0 <= x < adj@.len() && finished(visited@, on_stack@, x) && 0 <= kk < adj@[x]@.len() implies finished(
                    visited@,
                    on_stack@,
                    (#[trigger] adj@[x]@[kk]) as int,
                ) && f[adj@[x]@[kk] as int] < f[x] by {
                let y = adj@[x]@[kk] as int;
                if x == node {
                    assert(neighbours@[kk] == adj@[x]@[kk]);
                    assert(finished(vis2, on2, y));
                    assert(y != node);
                } else {
                    assert(finished(vis2, on2, x));
                    assert(finished(vis2, on2, y));
                    assert(y != node);
                }
            }
        }
    }
    Ghost((f, cc))
}

} // verus!

verus! {

/// Some module at or below `a` imports a module with the path of `b`.
pub open spec fn folded_import(
    ids: Seq<crate::imports::ModuleKey>,
    es: Seq<(usize, usize, DependencyType)>,
    a: usize,
    b: usize,
) -> bool {
    exists|j: int|
        0 <= j < es.len() && (#[trigger] es[j]).2 == DependencyType::Imports && crate::graph::contained_in(
            es,
            a,
            es[j].0,
        ) && ids[es[j].1 as int].1 == ids[b as int].1
}

/// `w` is a closed chain of package-level imports.
pub open spec fn import_cycle(
    ids: Seq<crate::imports::ModuleKey>,
    es: Seq<(usize, usize, DependencyType)>,
    w: Seq<usize>,
) -> bool {
    &&& w.len() > 0
    &&& forall|q: int| 0 <= q < w.len() ==> w[q] < ids.len()
    &&& forall|q: int|
        0 <= q < w.len() ==> folded_import(ids, es, w[q], #[trigger] w[next_pos(q, w.len() as int)])
}

/// The path of every node.
pub open spec fn node_paths(ids: Seq<crate::imports::ModuleKey>) -> Seq<Seq<char>> {
    ids.map_values(|k: crate::imports::ModuleKey| k.1)
}

/// The first nodes with the paths of the `Imports` entries of `t`, in order.
pub open spec fn import_targets(ids: Seq<crate::imports::ModuleKey>, t: Seq<(Seq<char>, DependencyType)>) -> Seq<usize>
    decreases t.len(),
{
    if t.len() == 0 {
        Seq::empty()
    } else {
        let p = import_targets(ids, t.drop_last());
        let e = t.last();
        if e.1 == DependencyType::Imports && exists|j: int| first_with_path(ids, e.0, j) {
            p.push((choose|j: int| first_with_path(ids, e.0, j)) as usize)
        } else {
            p
        }
    }
}

/// `row` lists, for node `a`, the `Imports` targets of a transitive
/// dependency list of `a` (see `get_transitive_dependencies_with_types`).
pub open spec fn adj_row_ok(
    ids: Seq<crate::imports::ModuleKey>,
    es: Seq<(usize, usize, DependencyType)>,
    a: int,
    row: Seq<usize>,
) -> bool {
    exists|t: Seq<(Seq<char>, DependencyType)>| transitive_ok(ids, es, a as usize, false, t) && row == import_targets(ids, t)
}

/// `adj` is the package-level import graph: one row per node, as `adj_row_ok`.
pub open spec fn folded_adjacency(
    ids: Seq<crate::imports::ModuleKey>,
    es: Seq<(usize, usize, DependencyType)>,
    adj: Seq<Vec<usize>>,
) -> bool {
    &&& adj.len() == ids.len()
    &&& forall|a: int| 0 <= a < adj.len() ==> adj_row_ok(ids, es, a, #[trigger] adj[a]@)
}

/// The row of node `i` (whose module is `module`) in the package-level
/// import graph.
#[verifier::rlimit(60)]
fn import_row(graph: &DependencyGraph, module: &crate::imports::ModuleIdentifier, i: usize) -> (targets: Vec<usize>)
    requires
        graph.wf(),
        i < graph.ids().len(),
        graph.ids()[i as int] == module@,
    ensures
        forall|q: int| 0 <= q < targets@.len() ==> (#[trigger] targets@[q]) < graph.ids().len()
            && folded_import(graph.ids(), graph.edges(), i, targets@[q]),
        adj_row_ok(graph.ids(), graph.edges(), i as int, targets@),
        forall|q: int| 0 <= q < targets@.len() ==> is_first_path(node_paths(graph.ids()), #[trigger] targets@[q]),
{
    let ghost ids = graph.ids();
    let ghost es = graph.edges();
    let n = graph.module_count();
    proof {
        graph.lemma_node_of(i as int);
    }
        let mut targets: Vec<usize> = Vec::new();
        match graph.get_transitive_dependencies_with_types(module) {
            Ok(deps) => {
                let ghost dv = typed_list(deps@);
                let mut k: usize = 0;
                while k < deps.len()
                    invariant
                        graph.wf(),
                        ids == graph.ids(),
                        es == graph.edges(),
                        n == ids.len(),
                        i < n,
                        dv == typed_list(deps@),
                        transitive_ok(ids, es, i, false, dv),
                        k <= deps@.len(),
                        forall|q: int| 0 <= q < targets@.len() ==> (#[trigger] targets@[q]) < n
                            && folded_import(ids, es, i, targets@[q]),
                        targets@ == import_targets(ids, dv.take(k as int)),
                        forall|q: int| 0 <= q < targets@.len() ==> is_first_path(node_paths(ids), #[trigger] targets@[q]),
                    decreases deps@.len() - k,
                {
                    assert(dv.take(k + 1).drop_last() =~= dv.take(k as int));
                    assert(dv[k as int] == (deps@[k as int].0@, deps@[k as int].1));
                    assert(dv.take(k + 1).last() == dv[k as int]);
                    if deps[k].1 == DependencyType::Imports {
                        match graph.find_by_path(&deps[k].0) {
                            Some(b) => {
                                proof {
                                    assert(crate::graph::reported(ids, es, i, false, dv[k as int]));
                                    assert(first_with_path(ids, dv[k as int].0, b as int));
                                    let c = choose|j: int| first_with_path(ids, dv[k as int].0, j);
                                    if c < b {
                                    } else if b < c {
                                        assert(ids[b as int].1 == dv[k as int].0);
                                    }
                                    assert forall|m: int| 0 <= m < b implies node_paths(ids)[m] != node_paths(ids)[b as int] by {
                                        assert(ids[m].1 != deps@[k as int].0@);
                                    }
                                }
                                let ghost old_t = targets@;
                                targets.push(b);
                                assert(targets@ == old_t.push(b));
                            },
                            None => {
                                proof {
                                    assert(!exists|j: int| first_with_path(ids, dv[k as int].0, j));
                                }
                            },
                        }
                    }
                    k = k + 1;
                }
                proof {
                    assert(dv.take(k as int) =~= dv);
                    assert(adj_row_ok(ids, es, i as int, targets@));
                }
            },
            Err(_) => {},
        }
    targets
}

/// For each node, the nodes whose paths it or a module below it imports.
fn import_adjacency(graph: &DependencyGraph) -> (adj: Vec<Vec<usize>>)
    requires
        graph.wf(),
    ensures
        adj@.len() == graph.ids().len(),
        folded_adjacency(graph.ids(), graph.edges(), adj@),
        forall|a: int, k: int|
            0 <= a < adj@.len() && 0 <= k < adj@[a]@.len() ==> is_first_path(node_paths(graph.ids()), #[trigger] adj@[a]@[k]),
        forall|a: int, k: int|
            0 <= a < adj@.len() && 0 <= k < adj@[a]@.len() ==> (#[trigger] adj@[a]@[k]) < adj@.len()
                && folded_import(graph.ids(), graph.edges(), a as usize, adj@[a]@[k]),
{
    let modules = graph.all_modules();
    let n = modules.len();
    let ghost ids = graph.ids();
    let ghost es = graph.edges();
    let mut adj: Vec<Vec<usize>> = Vec::new();
    let mut i: usize = 0;
    while i < n
        invariant
            graph.wf(),
            ids == graph.ids(),
            es == graph.edges(),
            modules@.map_values(|m: crate::imports::ModuleIdentifier| m@) == ids,
            n == ids.len(),
            i <= n,
            adj@.len() == i,
            forall|a: int, k: int|
                0 <= a < adj@.len() && 0 <= k < adj@[a]@.len() ==> (#[trigger] adj@[a]@[k]) < n
                    && folded_import(ids, es, a as usize, adj@[a]@[k]),
            forall|a: int| 0 <= a < adj@.len() ==> adj_row_ok(ids, es, a, #[trigger] adj@[a]@),
            forall|a: int, k: int|
                0 <= a < adj@.len() && 0 <= k < adj@[a]@.len() ==> is_first_path(node_paths(ids), #[trigger] adj@[a]@[k]),
        decreases n - i,
    {
        proof {
            assert(modules@[i as int]@ == ids[i as int]);
            graph.lemma_node_of(i as int);
        }
        let targets = import_row(graph, &modules[i], i);
        let ghost old_adj = adj@;
        adj.push(targets);
        proof {
            assert forall|a: int| 0 <= a < adj@.len() implies adj_row_ok(ids, es, a, #[trigger] adj@[a]@) by {
                if a < old_adj.len() {
                    assert(adj@[a] == old_adj[a]);
                }
            }
        }
        i = i + 1;
    }
    adj
}

/// The cycles are distinct, and each is the canonical form of a closed
/// chain of package-level imports.
pub open spec fn cycles_found(
    ids: Seq<crate::imports::ModuleKey>,
    es: Seq<(usize, usize, DependencyType)>,
    cs: Seq<Cycle>,
) -> bool {
    &&& forall|a: int, b: int|
        0 <= a < b < cs.len() ==> path_list(cs[a].modules@) != path_list(cs[b].modules@)
    &&& forall|k: int|
        0 <= k < cs.len() ==> from_import_cycle(ids, es, path_list((#[trigger] cs[k]).modules@))
}

/// `c` is the canonical form of the paths of a closed chain of
/// package-level imports.
pub open spec fn from_import_cycle(
    ids: Seq<crate::imports::ModuleKey>,
    es: Seq<(usize, usize, DependencyType)>,
    c: Seq<Seq<char>>,
) -> bool {
    exists|w: Seq<usize>| import_cycle(ids, es, w) && c == canonical(walk_paths(node_paths(ids), w))
}

/// Finds the import cycles between packages: an import from anywhere below
/// a package counts as an import by the package. Each cycle is reported once,
/// in canonical form.
pub fn detect_cycles(graph: &DependencyGraph) -> (r: Result<CycleResult, GraphError>)
    requires
        graph.wf(),
    ensures
        r is Ok,
        r matches Ok(res) ==> cycles_found(graph.ids(), graph.edges(), res.cycles@),
        r matches Ok(res) ==> forall|k: int|
            0 <= k < res.cycles@.len() ==> path_list((#[trigger] res.cycles@[k]).modules@).no_duplicates()
                && canonical(path_list(res.cycles@[k].modules@)) == path_list(res.cycles@[k].modules@),
        r matches Ok(res) ==> exists|adj: Seq<Vec<usize>>|
            folded_adjacency(graph.ids(), graph.edges(), adj) && cycles_ok(node_paths(graph.ids()), adj, res.cycles@)
                && ((exists|w: Seq<usize>| closed_walk(adj, w)) <==> res.cycles@.len() > 0),
{
    let adj = import_adjacency(graph);
    let modules = graph.all_modules();
    let n = modules.len();
    let mut paths: Vec<String> = Vec::new();
    let mut i: usize = 0;
    while i < n
        invariant
            modules@.map_values(|m: crate::imports::ModuleIdentifier| m@) == graph.ids(),
            n == modules@.len(),
            i <= n,
            paths@.len() == i,
            forall|q: int| 0 <= q < i ==> (#[trigger] paths@[q])@ == graph.ids()[q].1,
        decreases n - i,
    {
        assert(modules@[i as int]@ == graph.ids()[i as int]);
        paths.push(modules[i].canonical_path.clone());
        i = i + 1;
    }
    assert(path_list(paths@) =~= node_paths(graph.ids()));
    let mut visited: Vec<bool> = Vec::new();
    let mut on_stack: Vec<bool> = Vec::new();
    while visited.len() < n
        invariant
            visited@.len() == on_stack@.len(),
            visited@.len() <= n,
            forall|x: int| 0 <= x < on_stack@.len() ==> !on_stack@[x],
            forall|x: int| 0 <= x < visited@.len() ==> !visited@[x],
        decreases n - visited@.len(),
    {
        visited.push(false);
        on_stack.push(false);
    }
    let mut stack: Vec<usize> = Vec::new();
    let mut out: Vec<Cycle> = Vec::new();
    let mut start: usize = 0;
    let ghost mut fin: Seq<int> = Seq::new(n as nat, |x: int| 0int);
    let ghost mut cnt: int = 0;
    while start < n
        invariant
            forall|x: int| 0 <= x < start ==> visited@[x],
            finish_order_ok(n as nat, visited@, on_stack@, fin, cnt),
            out@.len() == 0 ==> edges_descend(adj@, visited@, on_stack@, fin),
            folded_adjacency(graph.ids(), graph.edges(), adj@),
            forall|a: int, k: int|
                0 <= a < adj@.len() && 0 <= k < adj@[a]@.len() ==> is_first_path(path_list(paths@), #[trigger] adj@[a]@[k]),
            adj@.len() == n,
            paths@.len() == n,
            visited@.len() == n,
            on_stack@.len() == n,
            forall|x: int| 0 <= x < n ==> !on_stack@[x],
            stack@ == Seq::<usize>::empty(),
            path_list(paths@) == node_paths(graph.ids()),
            n == graph.ids().len(),
            forall|a: int, k: int|
                0 <= a < adj@.len() && 0 <= k < adj@[a]@.len() ==> folded_import(graph.ids(), graph.edges(), a as usize, #[trigger] adj@[a]@[k]),
            forall|a: int, k: int|
                0 <= a < adj@.len() && 0 <= k < adj@[a]@.len() ==> (#[trigger] adj@[a]@[k]) < adj@.len(),
            cycles_ok(path_list(paths@), adj@, out@),
        decreases n - start,
    {
        if !visited[start] {
            let ghost vis1 = visited@;
            let g = dfs_cycles(start, &adj, &paths, &mut visited, &mut stack, &mut on_stack, &mut out, Ghost(fin), Ghost(cnt));
            proof {
                fin = g@.0;
                cnt = g@.1;
                assert forall|x: int| 0 <= x < start + 1 implies visited@[x] by {
                    if x < start {
                        assert(vis1[x]);
                    }
                }
            }
        }
        start = start + 1;
    }
    proof {
        let ids = graph.ids();
        let es = graph.edges();
        assert forall|k: int| 0 <= k < out@.len() implies from_import_cycle(ids, es, path_list((#[trigger] out@[k]).modules@)) by {
            let w = choose|w: Seq<usize>|
                closed_walk(adj@, w) && walk_paths(path_list(paths@), w).no_duplicates() && path_list(out@[k].modules@) == canonical(walk_paths(path_list(paths@), w));
            assert forall|q: int| 0 <= q < w.len() implies folded_import(ids, es, w[q], #[trigger] w[next_pos(q, w.len() as int)]) by {
                let t = w[next_pos(q, w.len() as int)];
                assert(closed_walk(adj@, w));
                assert(adj@[w[q] as int]@.contains(t));
                let kk = choose|kk: int| 0 <= kk < adj@[w[q] as int]@.len() && adj@[w[q] as int]@[kk] == t;
                assert(adj@[w[q] as int]@[kk] < adj@.len());
            }
            assert(import_cycle(ids, es, w));
        }
        assert(cycles_ok(path_list(paths@), adj@, out@));
        assert(cycles_found(ids, es, out@));
        if out@.len() == 0 {
            assert forall|x: int, k: int|
                0 <= x < adj@.len() && 0 <= k < adj@[x]@.len() implies fin[(#[trigger] adj@[x]@[k]) as int] < fin[x] by {
                assert(visited@[x] && !on_stack@[x]);
                assert(finished(visited@, on_stack@, x));
            }
            assert forall|w: Seq<usize>| !closed_walk(adj@, w) by {
                lemma_no_closed_walk(adj@, fin, w);
            }
        } else {
            let w = choose|w: Seq<usize>|
                closed_walk(adj@, w) && walk_paths(path_list(paths@), w).no_duplicates() && path_list((#[trigger] out@[0]).modules@) == canonical(walk_paths(path_list(paths@), w));
            assert(closed_walk(adj@, w));
        }
        assert forall|k: int| 0 <= k < out@.len() implies path_list((#[trigger] out@[k]).modules@).no_duplicates()
            && canonical(path_list(out@[k].modules@)) == path_list(out@[k].modules@) by {
            let w = choose|w: Seq<usize>|
                closed_walk(adj@, w) && walk_paths(path_list(paths@), w).no_duplicates() && path_list(out@[k].modules@) == canonical(walk_paths(path_list(paths@), w));
            lemma_canonical_fixed(walk_paths(path_list(paths@), w));
        }
    }
    let res = CycleResult::new(out);
    assert(res.cycles@ == out@);
    Ok(res)
}

/// Lines `Cycle <n>: <text>` for the cycles of `cs`, numbered from 1.
pub open spec fn cycle_lines(cs: Seq<Cycle>) -> Seq<char>
    decreases cs.len(),
{
    if cs.len() == 0 {
        Seq::empty()
    } else {
        cycle_lines(cs.drop_last()) + "Cycle "@ + crate::text::decimal(cs.len()) + ": "@ + cycle_text(
            path_list(cs.last().modules@),
        ) + "\n"@
    }
}

/// The listing of a cycle analysis.
pub open spec fn cycles_report(cs: Seq<Cycle>) -> Seq<char> {
    if cs.len() == 0 {
        "No circular dependencies found.\n"@
    } else {
        "Circular dependencies found:\n"@ + cycle_lines(cs) + "Total: "@ + crate::text::decimal(cs.len())
            + if cs.len() == 1 {
            " cycle\n"@
        } else {
            " cycles\n"@
        }
    }
}

/// A listing of the cycles found, numbered, with a total.
pub fn format_text_grouped(result: &CycleResult) -> (r: String)
    ensures
        r@ == cycles_report(result.cycles@),
{
    if result.cycles.len() == 0 {
        return String::from_str("No circular dependencies found.\n");
    }
    let ghost cs = result.cycles@;
    let mut output = String::from_str("Circular dependencies found:\n");
    let ghost head = output@;
    let mut i: usize = 0;
    assert(cs.take(0) =~= Seq::<Cycle>::empty());
    while i < result.cycles.len()
        invariant
            cs == result.cycles@,
            i <= cs.len(),
            output@ == head + cycle_lines(cs.take(i as int)),
        decreases cs.len() - i,
    {
        assert(cs.take(i + 1).drop_last() =~= cs.take(i as int));
        assert(cs.take(i + 1).last() == cs[i as int]);
        output.append("Cycle ");
        crate::text::push_decimal(&mut output, i + 1);
        output.append(": ");
        output.append(result.cycles[i].format_cycle().as_str());
        output.append("\n");
        assert(output@ =~= head + cycle_lines(cs.take(i + 1)));
        i = i + 1;
    }
    assert(cs.take(i as int) =~= cs);
    output.append("Total: ");
    crate::text::push_decimal(&mut output, result.cycle_count());
    if result.cycle_count() == 1 {
        output.append(" cycle\n");
    } else {
        output.append(" cycles\n");
    }
    assert(output@ =~= cycles_report(cs));
    output
}

} // verus!
