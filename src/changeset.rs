//! Changeset analysis: direct importers and imports of a module, risk
//! scored, and an order in which to run their tests.
use crate::dependencies::first_with_path;
use crate::graph::{labelled, out_edges, path_list, typed_list, DependencyGraph, DependencyType, GraphError};
use crate::impact::find_module_by_name;
use crate::imports::{ModuleIdentifier, ModuleKey, ModuleOrigin};
use crate::text::{is_test_module, is_test_path, lex_lt, lower_of, lowercase, push_decimal, str_lt};
use vstd::prelude::*;

verus! {

/// Which side of a module a changeset analysis looks at.
#[derive(Debug, Clone, Copy, PartialEq, Eq, Structural)]
pub enum ChangesetScope {
    /// What would be affected if the module changes.
    Affected,
    /// What the module depends on.
    Dependencies,
    /// Both.
    Both,
}

/// The scope a lower-case name selects; anything unknown selects both.
pub open spec fn scope_named(s: Seq<char>) -> ChangesetScope {
    if s == "affected"@ {
        ChangesetScope::Affected
    } else if s == "dependencies"@ {
        ChangesetScope::Dependencies
    } else {
        ChangesetScope::Both
    }
}

impl ChangesetScope {
    /// The scope named by an already lower-cased word.
    pub fn from_lowercase(s: &str) -> (r: ChangesetScope)
        ensures
            r == scope_named(s@),
    {
        proof {
            reveal_strlit("affected");
            reveal_strlit("dependencies");
        }
        let t = String::from_str(s);
        if t == String::from_str("affected") {
            ChangesetScope::Affected
        } else if t == String::from_str("dependencies") {
            ChangesetScope::Dependencies
        } else {
            ChangesetScope::Both
        }
    }

    /// The scope named by `s`, ignoring case; anything unknown selects both.
    pub fn from_str(s: &str) -> (r: ChangesetScope)
        ensures
            r == scope_named(lower_of(s@)),
    {
        let lower = lowercase(s);
        Self::from_lowercase(lower.as_str())
    }

    /// Whether the affected side is analysed.
    pub open spec fn covers_affected(self) -> bool {
        self is Affected || self is Both
    }

    /// Whether the dependency side is analysed.
    pub open spec fn covers_dependencies(self) -> bool {
        self is Dependencies || self is Both
    }
}

/// How risky a change to a module is, by its number of dependents.
#[derive(Debug, Clone, Copy, PartialEq, Eq, PartialOrd, Ord, Hash, Structural)]
pub enum RiskLevel {
    /// 0 to 2 dependents.
    Low,
    /// 3 to 10 dependents.
    Medium,
    /// 11 to 50 dependents.
    High,
    /// More than 50 dependents.
    Critical,
}

/// The position of a level in the order `Low < Medium < High < Critical`.
pub open spec fn risk_rank(r: RiskLevel) -> nat {
    match r {
        RiskLevel::Low => 0,
        RiskLevel::Medium => 1,
        RiskLevel::High => 2,
        RiskLevel::Critical => 3,
    }
}

fn rank(r: RiskLevel) -> (n: u8)
    ensures
        n == risk_rank(r),
{
    match r {
        RiskLevel::Low => 0,
        RiskLevel::Medium => 1,
        RiskLevel::High => 2,
        RiskLevel::Critical => 3,
    }
}

/// The level for a number of dependents.
pub open spec fn risk_for(dependent_count: nat) -> RiskLevel {
    if dependent_count <= 2 {
        RiskLevel::Low
    } else if dependent_count <= 10 {
        RiskLevel::Medium
    } else if dependent_count <= 50 {
        RiskLevel::High
    } else {
        RiskLevel::Critical
    }
}

/// Scores a module by its number of dependents: 0–2 low, 3–10 medium,
/// 11–50 high, more critical. The depth does not take part.
pub fn assess_risk_level(dependent_count: usize, _dependency_depth: usize) -> (r: RiskLevel)
    ensures
        r == risk_for(dependent_count as nat),
{
    if dependent_count <= 2 {
        RiskLevel::Low
    } else if dependent_count <= 10 {
        RiskLevel::Medium
    } else if dependent_count <= 50 {
        RiskLevel::High
    } else {
        RiskLevel::Critical
    }
}

/// A module of a changeset with its risk assessment.
#[derive(Debug, Clone)]
pub struct ChangesetModule {
    pub module_name: String,
    pub risk_level: RiskLevel,
    pub dependent_count: usize,
    pub dependency_depth: usize,
    pub is_external: bool,
}

/// A changeset module as plain values.
pub open spec fn cm_view(m: ChangesetModule) -> (Seq<char>, RiskLevel, usize, usize, bool) {
    (m.module_name@, m.risk_level, m.dependent_count, m.dependency_depth, m.is_external)
}

/// A list of changeset modules as plain values.
pub open spec fn cms_view(v: Seq<ChangesetModule>) -> Seq<(Seq<char>, RiskLevel, usize, usize, bool)> {
    v.map_values(|m: ChangesetModule| cm_view(m))
}

fn copy_module(m: &ChangesetModule) -> (r: ChangesetModule)
    ensures
        cm_view(r) == cm_view(*m),
        r == *m,
{
    ChangesetModule {
        module_name: m.module_name.clone(),
        risk_level: m.risk_level,
        dependent_count: m.dependent_count,
        dependency_depth: m.dependency_depth,
        is_external: m.is_external,
    }
}

/// The result of a changeset analysis.
#[derive(Debug)]
pub struct ChangesetResult {
    pub target_module: String,
    pub scope: ChangesetScope,
    pub affected_modules: Vec<ChangesetModule>,
    pub dependency_modules: Vec<ChangesetModule>,
    pub test_order: Vec<String>,
    pub total_affected: usize,
    pub total_dependencies: usize,
    pub high_risk_count: usize,
}

/// The number of direct dependents of the first node with path `p`; zero
/// when there is none.
pub open spec fn dependents_of_path(ids: Seq<ModuleKey>, es: Seq<(usize, usize, DependencyType)>, p: Seq<char>) -> nat {
    if exists|j: int| first_with_path(ids, p, j) {
        crate::graph::in_edges(es, (choose|j: int| first_with_path(ids, p, j)) as usize).len()
    } else {
        0
    }
}

/// Counts the direct dependents of the module with path `p`.
fn dependent_count_of(graph: &DependencyGraph, p: &String) -> (r: usize)
    requires
        graph.wf(),
    ensures
        r == dependents_of_path(graph.ids(), graph.edges(), p@),
{
    match graph.find_by_path(p) {
        None => 0,
        Some(j) => {
            let modules = graph.all_modules();
            proof {
                assert(modules@[j as int]@ == graph.ids()[j as int]);
                graph.lemma_node_of(j as int);
                assert(first_with_path(graph.ids(), p@, j as int));
                let c = choose|c: int| first_with_path(graph.ids(), p@, c);
                if c < j {
                } else if j < c {
                    assert(graph.ids()[j as int].1 == p@);
                }
            }
            match graph.get_dependents(&modules[j]) {
                Ok(d) => {
                    assert(path_list(d@).len() == d@.len());
                    d.len()
                },
                Err(_) => 0,
            }
        },
    }
}

/// A path counts as external when the first node with it is external.
pub open spec fn path_is_external(ids: Seq<ModuleKey>, p: Seq<char>) -> bool {
    exists|j: int| first_with_path(ids, p, j) && ids[j].0 == ModuleOrigin::External
}

/// Whether the module with path `p` is external.
fn is_external_module(graph: &DependencyGraph, p: &String) -> (r: bool)
    requires
        graph.wf(),
    ensures
        r == path_is_external(graph.ids(), p@),
{
    match graph.find_by_path(p) {
        None => false,
        Some(j) => {
            let modules = graph.all_modules();
            assert(modules@[j as int]@ == graph.ids()[j as int]);
            assert(first_with_path(graph.ids(), p@, j as int));
            proof {
                assert forall|k: int| first_with_path(graph.ids(), p@, k) implies k == j by {
                    if j < k {
                        assert(graph.ids()[j as int].1 == p@);
                    }
                }
            }
            modules[j].origin == ModuleOrigin::External
        },
    }
}

/// Node `j` has an `Imports` edge to a module with path `t`.
pub open spec fn imports_path(ids: Seq<ModuleKey>, es: Seq<(usize, usize, DependencyType)>, j: int, t: Seq<char>) -> bool {
    labelled(ids, out_edges(es, j as usize)).contains((t, DependencyType::Imports))
}

/// Paths of the nodes among the first `k` that import path `t`, in node order.
pub open spec fn import_dependents(ids: Seq<ModuleKey>, es: Seq<(usize, usize, DependencyType)>, t: Seq<char>, k: int) -> Seq<Seq<char>>
    decreases k,
{
    if k <= 0 {
        Seq::empty()
    } else {
        let prev = import_dependents(ids, es, t, k - 1);
        if imports_path(ids, es, k - 1, t) {
            prev.push(ids[k - 1].1)
        } else {
            prev
        }
    }
}

/// Modules that directly import `target`, by an `Imports` edge.
fn get_import_dependents(graph: &DependencyGraph, target: &ModuleIdentifier) -> (r: Vec<String>)
    requires
        graph.wf(),
    ensures
        path_list(r@) == import_dependents(graph.ids(), graph.edges(), target.canonical_path@, graph.ids().len() as int),
{
    let modules = graph.all_modules();
    let ghost ids = graph.ids();
    let ghost es = graph.edges();
    let ghost t = target.canonical_path@;
    let mut r: Vec<String> = Vec::new();
    let mut j: usize = 0;
    while j < modules.len()
        invariant
            graph.wf(),
            ids == graph.ids(),
            es == graph.edges(),
            t == target.canonical_path@,
            modules@.map_values(|m: ModuleIdentifier| m@) == ids,
            j <= ids.len(),
            path_list(r@) == import_dependents(ids, es, t, j as int),
        decreases ids.len() - j,
    {
        proof {
            assert(modules@[j as int]@ == ids[j as int]);
            graph.lemma_node_of(j as int);
        }
        let deps = match graph.get_dependencies_with_types(&modules[j]) {
            Ok(d) => d,
            Err(_) => Vec::new(),
        };
        let ghost ls = labelled(ids, out_edges(es, j));
        let mut found = false;
        let mut k: usize = 0;
        while k < deps.len() && !found
            invariant
                typed_list(deps@) == ls,
                t == target.canonical_path@,
                k <= deps@.len(),
                found ==> ls.contains((t, DependencyType::Imports)),
                !found ==> forall|m: int| 0 <= m < k ==> ls[m] != (t, DependencyType::Imports),
            decreases deps@.len() - k,
        {
            assert(ls[k as int] == (deps@[k as int].0@, deps@[k as int].1));
            if deps[k].1 == DependencyType::Imports && deps[k].0 == target.canonical_path {
                found = true;
            }
            k = k + 1;
        }
        if found {
            let ghost old_r = r@;
            r.push(modules[j].canonical_path.clone());
            assert(path_list(r@) =~= path_list(old_r).push(ids[j as int].1));
        }
        j = j + 1;
    }
    r
}

/// Paths that `target` imports directly, newest edge first.
fn get_import_dependencies(graph: &DependencyGraph, target: &ModuleIdentifier) -> (r: Result<Vec<String>, GraphError>)
    requires
        graph.wf(),
    ensures
        r is Err <==> !graph.ids().contains(target@),
        r matches Ok(v) ==> path_list(v@) == imports_only(labelled(graph.ids(), out_edges(graph.edges(), crate::graph::node_of(graph.ids(), target@) as usize))),
{
    let deps = match graph.get_dependencies_with_types(target) {
        Ok(d) => d,
        Err(e) => {
            return Err(e);
        },
    };
    let ghost dv = typed_list(deps@);
    let mut r: Vec<String> = Vec::new();
    let mut k: usize = 0;
    while k < deps.len()
        invariant
            dv == typed_list(deps@),
            k <= dv.len(),
            path_list(r@) == imports_only(dv.take(k as int)),
        decreases dv.len() - k,
    {
        assert(dv.take(k + 1).drop_last() =~= dv.take(k as int));
        assert(dv[k as int] == (deps@[k as int].0@, deps@[k as int].1));
        if deps[k].1 == DependencyType::Imports {
            let ghost old_r = r@;
            r.push(deps[k].0.clone());
            assert(path_list(r@) =~= path_list(old_r).push(dv[k as int].0));
        }
        k = k + 1;
    }
    assert(dv.take(k as int) =~= dv);
    Ok(r)
}

/// The paths of the `Imports` entries, in order.
pub open spec fn imports_only(s: Seq<(Seq<char>, DependencyType)>) -> Seq<Seq<char>>
    decreases s.len(),
{
    if s.len() == 0 {
        Seq::empty()
    } else {
        let p = imports_only(s.drop_last());
        if s.last().1 == DependencyType::Imports {
            p.push(s.last().0)
        } else {
            p
        }
    }
}

/// The paths of `s` that are neither test packages nor external.
pub open spec fn internal_non_test(ids: Seq<ModuleKey>, s: Seq<Seq<char>>) -> Seq<Seq<char>>
    decreases s.len(),
{
    if s.len() == 0 {
        Seq::empty()
    } else {
        let p = internal_non_test(ids, s.drop_last());
        if !is_test_path(s.last()) && !path_is_external(ids, s.last()) {
            p.push(s.last())
        } else {
            p
        }
    }
}

/// The scored entry for path `p` at depth `depth`.
pub open spec fn scored(ids: Seq<ModuleKey>, es: Seq<(usize, usize, DependencyType)>, p: Seq<char>, depth: usize) -> (Seq<char>, RiskLevel, usize, usize, bool) {
    let c = dependents_of_path(ids, es, p);
    (p, risk_for(c), c as usize, depth, false)
}

/// `x` is the scored entry of some path of `ps`.
pub open spec fn scored_from(
    ids: Seq<ModuleKey>,
    es: Seq<(usize, usize, DependencyType)>,
    ps: Seq<Seq<char>>,
    depth: usize,
    x: (Seq<char>, RiskLevel, usize, usize, bool),
) -> bool {
    exists|q: int| 0 <= q < ps.len() && x == scored(ids, es, ps[q], depth)
}

/// The scored entries of all paths of `ps`, in order.
pub open spec fn scored_all(
    ids: Seq<ModuleKey>,
    es: Seq<(usize, usize, DependencyType)>,
    ps: Seq<Seq<char>>,
    depth: usize,
) -> Seq<(Seq<char>, RiskLevel, usize, usize, bool)> {
    ps.map_values(|p: Seq<char>| scored(ids, es, p, depth))
}

/// Scores each path that is neither a test package nor external, then orders
/// them by risk, highest first, keeping the order of equals.
fn score_modules(graph: &DependencyGraph, names: Vec<String>, depth: usize) -> (r: Vec<ChangesetModule>)
    requires
        graph.wf(),
    ensures
        r@.len() == internal_non_test(graph.ids(), path_list(names@)).len(),
        forall|a: int, b: int| 0 <= a < b < r@.len() ==> risk_rank(r@[a].risk_level) >= risk_rank(r@[b].risk_level),
        forall|k: int| 0 <= k < r@.len() ==> scored_from(
            graph.ids(),
            graph.edges(),
            internal_non_test(graph.ids(), path_list(names@)),
            depth,
            cm_view(#[trigger] r@[k]),
        ),
        cms_view(r@).to_multiset() == scored_all(graph.ids(), graph.edges(), internal_non_test(graph.ids(), path_list(names@)), depth).to_multiset(),
{
    let ghost ids = graph.ids();
    let ghost es = graph.edges();
    let ghost pv = path_list(names@);
    let mut r: Vec<ChangesetModule> = Vec::new();
    let mut i: usize = 0;
    assert(cms_view(r@) =~= Seq::empty());
    assert(internal_non_test(ids, pv.take(0)) =~= Seq::empty()) by {
        assert(pv.take(0) =~= Seq::<Seq<char>>::empty());
    }
    assert(scored_all(ids, es, Seq::empty(), depth) =~= Seq::empty());
    while i < names.len()
        invariant
            cms_view(r@).to_multiset() == scored_all(ids, es, internal_non_test(ids, pv.take(i as int)), depth).to_multiset(),
            graph.wf(),
            ids == graph.ids(),
            es == graph.edges(),
            pv == path_list(names@),
            i <= pv.len(),
            r@.len() == internal_non_test(ids, pv.take(i as int)).len(),
            forall|a: int, b: int| 0 <= a < b < r@.len() ==> risk_rank(r@[a].risk_level) >= risk_rank(r@[b].risk_level),
            forall|k: int| 0 <= k < r@.len() ==> scored_from(
                ids,
                es,
                internal_non_test(ids, pv.take(i as int)),
                depth,
                cm_view(#[trigger] r@[k]),
            ),
        decreases pv.len() - i,
    {
        let ghost before = internal_non_test(ids, pv.take(i as int));
        assert(pv.take(i + 1).drop_last() =~= pv.take(i as int));
        assert(pv.take(i + 1).last() == names@[i as int]@);
        let name = &names[i];
        let keep = !is_test_module(name.as_str()) && !is_external_module(graph, name);
        assert(internal_non_test(ids, pv.take(i + 1)) == if keep {
            before.push(name@)
        } else {
            before
        });
        if keep {
            let count = dependent_count_of(graph, name);
            let risk = assess_risk_level(count, depth);
            let m = ChangesetModule {
                module_name: name.clone(),
                risk_level: risk,
                dependent_count: count,
                dependency_depth: depth,
                is_external: false,
            };
            let ghost mv = cm_view(m);
            let ghost after = before.push(name@);
            assert(internal_non_test(ids, pv.take(i + 1)) == after);
            assert(mv == scored(ids, es, after[before.len() as int], depth));
            let mut pos: usize = 0;
            while pos < r.len() && rank(r[pos].risk_level) >= rank(risk)
                invariant
                    pos <= r@.len(),
                    forall|a: int| 0 <= a < pos ==> risk_rank(r@[a].risk_level) >= risk_rank(risk),
                decreases r@.len() - pos,
            {
                pos = pos + 1;
            }
            let ghost old_r = r@;
            r.insert(pos, m);
            proof {
                assert(cms_view(r@) =~= cms_view(old_r).insert(pos as int, mv));
                vstd::seq_lib::to_multiset_insert(cms_view(old_r), pos as int, mv);
                assert(scored_all(ids, es, after, depth) =~= scored_all(ids, es, before, depth).push(mv));
                scored_all(ids, es, before, depth).to_multiset_ensures();
                assert forall|a: int, b: int| 0 <= a < b < r@.len() implies risk_rank(r@[a].risk_level) >= risk_rank(r@[b].risk_level) by {
                    if a < pos && b == pos {
                        assert(r@[a] == old_r[a]);
                    } else if a == pos && b > pos {
                        assert(r@[b] == old_r[b - 1]);
                        if pos < old_r.len() {
                            assert(risk_rank(old_r[pos as int].risk_level) >= risk_rank(old_r[b - 1].risk_level));
                        }
                    } else if a < pos && b > pos {
                        assert(r@[a] == old_r[a] && r@[b] == old_r[b - 1]);
                    } else if b < pos {
                        assert(r@[a] == old_r[a] && r@[b] == old_r[b]);
                    } else {
                        assert(r@[a] == old_r[a - 1] && r@[b] == old_r[b - 1]);
                    }
                }
                assert forall|k: int| 0 <= k < r@.len() implies scored_from(ids, es, after, depth, cm_view(#[trigger] r@[k])) by {
                    if k == pos {
                        assert(cm_view(r@[k]) == mv);
                        assert(after[before.len() as int] == name@);
                    } else {
                        let k2 = if k < pos { k } else { k - 1 };
                        assert(r@[k] == old_r[k2]);
                        let q = choose|q: int| 0 <= q < before.len() && cm_view(old_r[k2]) == scored(ids, es, before[q], depth);
                        assert(after[q] == before[q]);
                    }
                }
            }
        }
        i = i + 1;
    }
    assert(pv.take(i as int) =~= pv);
    assert(internal_non_test(ids, pv.take(i as int)) == internal_non_test(ids, pv));
    r
}

} // verus!

verus! {

/// `v` holds the scored entries of the paths of `names` that are neither
/// test packages nor external, one each, highest risk first.
pub open spec fn scored_list(
    ids: Seq<ModuleKey>,
    es: Seq<(usize, usize, DependencyType)>,
    names: Seq<Seq<char>>,
    depth: usize,
    v: Seq<ChangesetModule>,
) -> bool {
    &&& v.len() == internal_non_test(ids, names).len()
    &&& forall|a: int, b: int| 0 <= a < b < v.len() ==> risk_rank(v[a].risk_level) >= risk_rank(v[b].risk_level)
    &&& forall|k: int| 0 <= k < v.len() ==> scored_from(ids, es, internal_non_test(ids, names), depth, cm_view(#[trigger] v[k]))
    &&& cms_view(v).to_multiset() == scored_all(ids, es, internal_non_test(ids, names), depth).to_multiset()
}

/// `x` runs strictly before `y`: by depth when `by_depth`, then by higher
/// risk, then by name.
pub open spec fn runs_before(x: ChangesetModule, y: ChangesetModule, by_depth: bool) -> bool {
    if by_depth && x.dependency_depth != y.dependency_depth {
        x.dependency_depth < y.dependency_depth
    } else if risk_rank(x.risk_level) != risk_rank(y.risk_level) {
        risk_rank(x.risk_level) > risk_rank(y.risk_level)
    } else {
        lex_lt(x.module_name@, y.module_name@)
    }
}

proof fn lemma_runs_before_transitive(x: ChangesetModule, y: ChangesetModule, z: ChangesetModule, by_depth: bool)
    requires
        runs_before(x, y, by_depth),
        runs_before(y, z, by_depth),
    ensures
        runs_before(x, z, by_depth),
{
    if !(by_depth && (x.dependency_depth != y.dependency_depth || y.dependency_depth != z.dependency_depth))
        && risk_rank(x.risk_level) == risk_rank(y.risk_level) && risk_rank(y.risk_level) == risk_rank(z.risk_level) {
        crate::text::lemma_lex_transitive(x.module_name@, y.module_name@, z.module_name@);
    }
}

fn runs_before_exec(x: &ChangesetModule, y: &ChangesetModule, by_depth: bool) -> (r: bool)
    ensures
        r == runs_before(*x, *y, by_depth),
{
    if by_depth && x.dependency_depth != y.dependency_depth {
        x.dependency_depth < y.dependency_depth
    } else if rank(x.risk_level) != rank(y.risk_level) {
        rank(x.risk_level) > rank(y.risk_level)
    } else {
        str_lt(x.module_name.as_str(), y.module_name.as_str())
    }
}

/// The modules of `v` in running order; modules that tie keep their order.
fn order_modules(v: &[ChangesetModule], by_depth: bool) -> (r: Vec<ChangesetModule>)
    ensures
        r@.len() == v@.len(),
        forall|a: int, b: int| 0 <= a < b < r@.len() ==> !runs_before(r@[b], r@[a], by_depth),
        forall|x: Seq<char>| names_of(r@).contains(x) <==> names_of(v@).contains(x),
        r@.to_multiset() == v@.to_multiset(),
{
    let ghost names = names_of(v@);
    let mut r: Vec<ChangesetModule> = Vec::new();
    let mut i: usize = 0;
    assert(v@.take(0) =~= Seq::<ChangesetModule>::empty());
    assert(r@ =~= Seq::<ChangesetModule>::empty());
    while i < v.len()
        invariant
            names == names_of(v@),
            i <= v@.len(),
            r@.len() == i,
            forall|a: int, b: int| 0 <= a < b < r@.len() ==> !runs_before(r@[b], r@[a], by_depth),
            forall|x: Seq<char>| names_of(r@).contains(x) <==> names.take(i as int).contains(x),
            r@.to_multiset() == v@.take(i as int).to_multiset(),
        decreases v@.len() - i,
    {
        let m = copy_module(&v[i]);
        let mut pos: usize = 0;
        while pos < r.len() && !runs_before_exec(&m, &r[pos], by_depth)
            invariant
                pos <= r@.len(),
                forall|a: int| 0 <= a < pos ==> !runs_before(m, r@[a], by_depth),
            decreases r@.len() - pos,
        {
            pos = pos + 1;
        }
        let ghost old_r = r@;
        let ghost mv = m;
        let ghost on = names_of(old_r);
        assert(forall|x: Seq<char>| on.contains(x) <==> names.take(i as int).contains(x));
        r.insert(pos, m);
        proof {
            vstd::seq_lib::to_multiset_insert(old_r, pos as int, mv);
            assert(v@.take(i + 1) =~= v@.take(i as int).push(v@[i as int]));
            v@.take(i as int).to_multiset_ensures();
            assert forall|a: int, b: int| 0 <= a < b < r@.len() implies !runs_before(r@[b], r@[a], by_depth) by {
                if a < pos && b == pos {
                    assert(r@[a] == old_r[a]);
                } else if a == pos && b > pos {
                    assert(r@[b] == old_r[b - 1]);
                    assert(r@[a] == mv);
                    assert(runs_before(mv, old_r[pos as int], by_depth));
                    if runs_before(old_r[b - 1], mv, by_depth) {
                        lemma_runs_before_transitive(old_r[b - 1], mv, old_r[pos as int], by_depth);
                        if b - 1 == pos {
                            crate::text::lemma_lex_irreflexive(old_r[pos as int].module_name@);
                        }
                    }
                } else if a < pos && b > pos {
                    assert(r@[a] == old_r[a] && r@[b] == old_r[b - 1]);
                } else if b < pos {
                    assert(r@[a] == old_r[a] && r@[b] == old_r[b]);
                } else {
                    assert(r@[a] == old_r[a - 1] && r@[b] == old_r[b - 1]);
                }
            }
            let nn = names_of(r@);
            let t = names.take(i as int);
            assert(names.take(i + 1) =~= t.push(mv.module_name@));
            assert(nn =~= on.insert(pos as int, mv.module_name@));
            assert forall|x: Seq<char>| nn.contains(x) <==> t.push(mv.module_name@).contains(x) by {
                if nn.contains(x) {
                    let k = choose|k: int| 0 <= k < nn.len() && nn[k] == x;
                    if k == pos {
                        assert(t.push(mv.module_name@)[t.len() as int] == x);
                    } else {
                        let k2 = if k < pos { k } else { k - 1 };
                        assert(on[k2] == x);
                        assert(on.contains(x));
                        assert(t.contains(x));
                        let j = choose|j: int| 0 <= j < t.len() && t[j] == x;
                        assert(t.push(mv.module_name@)[j] == x);
                    }
                }
                if t.push(mv.module_name@).contains(x) {
                    let j = choose|j: int| 0 <= j < t.len() + 1 && t.push(mv.module_name@)[j] == x;
                    if j == t.len() {
                        assert(nn[pos as int] == x);
                    } else {
                        assert(t[j] == x);
                        assert(t.contains(x));
                        assert(on.contains(x));
                        let k = choose|k: int| 0 <= k < on.len() && on[k] == x;
                        if k < pos {
                            assert(nn[k] == x);
                        } else {
                            assert(nn[k + 1] == x);
                        }
                    }
                }
            }
        }
        i = i + 1;
    }
    assert(names.take(i as int) =~= names);
    assert(v@.take(i as int) =~= v@);
    r
}

/// Appends `p` unless `out` already holds it.
fn push_once(out: &mut Vec<String>, p: &String)
    requires
        path_list(old(out)@).no_duplicates(),
    ensures
        path_list(final(out)@).no_duplicates(),
        forall|x: Seq<char>| path_list(final(out)@).contains(x) <==> path_list(old(out)@).contains(x) || x == p@,
        final(out)@.len() >= old(out)@.len(),
        forall|j: int| 0 <= j < old(out)@.len() ==> final(out)@[j] == old(out)@[j],
        path_list(final(out)@) == if path_list(old(out)@).contains(p@) {
            path_list(old(out)@)
        } else {
            path_list(old(out)@).push(p@)
        },
{
    let mut k: usize = 0;
    while k < out.len()
        invariant
            out@ == old(out)@,
            path_list(out@).no_duplicates(),
            k <= out@.len(),
            forall|j: int| 0 <= j < k ==> out@[j]@ != p@,
        decreases out@.len() - k,
    {
        if out[k] == *p {
            assert(path_list(out@)[k as int] == p@);
            assert(path_list(out@).contains(p@));
            return ;
        }
        k = k + 1;
    }
    let ghost old_o = path_list(out@);
    out.push(p.clone());
    proof {
        let n = path_list(out@);
        assert(n =~= old_o.push(p@));
        assert(!old_o.contains(p@)) by {
            if old_o.contains(p@) {
                let j = choose|j: int| 0 <= j < old_o.len() && old_o[j] == p@;
                assert(out@[j]@ == p@);
            }
        }
        assert forall|a: int, b: int| 0 <= a < n.len() && 0 <= b < n.len() && a != b implies n[a] != n[b] by {
            if a < old_o.len() && b < old_o.len() {
                assert(n[a] == old_o[a] && n[b] == old_o[b]);
            } else if a < old_o.len() {
                assert(old_o.contains(n[a]));
            } else {
                assert(old_o.contains(n[b]));
            }
        }
        assert(n.no_duplicates());
        assert forall|x: Seq<char>| n.contains(x) <==> old_o.contains(x) || x == p@ by {
            if n.contains(x) {
                let j = choose|j: int| 0 <= j < n.len() && n[j] == x;
                if j < old_o.len() {
                    assert(old_o[j] == x);
                }
            }
            if old_o.contains(x) {
                let j = choose|j: int| 0 <= j < old_o.len() && old_o[j] == x;
                assert(n[j] == x);
            }
            if x == p@ {
                assert(n[old_o.len() as int] == x);
            }
        }
    }
}

/// `s` with every repeated entry dropped, first occurrences kept.
pub open spec fn first_each(s: Seq<Seq<char>>) -> Seq<Seq<char>>
    decreases s.len(),
{
    if s.len() == 0 {
        Seq::empty()
    } else {
        let p = first_each(s.drop_last());
        if p.contains(s.last()) {
            p
        } else {
            p.push(s.last())
        }
    }
}

/// `w` holds the modules of `v` in running order.
pub open spec fn in_running_order(v: Seq<ChangesetModule>, w: Seq<ChangesetModule>, by_depth: bool) -> bool {
    &&& w.to_multiset() == v.to_multiset()
    &&& forall|a: int, b: int| 0 <= a < b < w.len() ==> !runs_before(w[b], w[a], by_depth)
}

/// The names of a list of changeset modules.
pub open spec fn names_of(v: Seq<ChangesetModule>) -> Seq<Seq<char>> {
    v.map_values(|m: ChangesetModule| m.module_name@)
}

/// The order in which to run tests: dependencies (higher risk first, then by
/// name), the target, then affected modules (by depth, higher risk, name);
/// each module once, where it first comes.
pub fn generate_test_order(
    affected_modules: &[ChangesetModule],
    dependency_modules: &[ChangesetModule],
    target_module: &str,
) -> (r: Vec<String>)
    ensures
        path_list(r@).no_duplicates(),
        forall|x: Seq<char>|
            path_list(r@).contains(x) <==> (x == target_module@ || names_of(affected_modules@).contains(x)
                || names_of(dependency_modules@).contains(x)),
        dependency_modules@.len() == 0 ==> r@.len() > 0 && r@[0]@ == target_module@,
        exists|d: Seq<ChangesetModule>, a: Seq<ChangesetModule>|
            in_running_order(dependency_modules@, d, false) && in_running_order(affected_modules@, a, true)
                && path_list(r@) == first_each(names_of(d) + seq![target_module@] + names_of(a)),
{
    let deps = order_modules(dependency_modules, false);
    let affected = order_modules(affected_modules, true);
    let ghost dn = names_of(deps@);
    let ghost an = names_of(affected@);
    let mut out: Vec<String> = Vec::new();
    let mut i: usize = 0;
    assert(path_list(out@).no_duplicates());
    while i < deps.len()
        invariant
            i <= deps@.len(),
            path_list(out@).no_duplicates(),
            forall|x: Seq<char>| path_list(out@).contains(x) <==> names_of(deps@).take(i as int).contains(x),
            dn == names_of(deps@),
            path_list(out@) == first_each(dn.take(i as int)),
        decreases deps@.len() - i,
    {
        let ghost t = names_of(deps@).take(i as int);
        assert(names_of(deps@).take(i + 1) =~= t.push(deps@[i as int].module_name@));
        assert(names_of(deps@).take(i + 1).drop_last() =~= t);
        push_once(&mut out, &deps[i].module_name);
        proof {
            assert forall|x: Seq<char>| path_list(out@).contains(x) <==> t.push(deps@[i as int].module_name@).contains(x) by {
                if t.contains(x) {
                    let j = choose|j: int| 0 <= j < t.len() && t[j] == x;
                    assert(t.push(deps@[i as int].module_name@)[j] == x);
                }
                if t.push(deps@[i as int].module_name@).contains(x) && x != deps@[i as int].module_name@ {
                    let j = choose|j: int| 0 <= j < t.len() + 1 && t.push(deps@[i as int].module_name@)[j] == x;
                    assert(t[j] == x);
                }
                if x == deps@[i as int].module_name@ {
                    assert(t.push(x)[t.len() as int] == x);
                }
            }
        }
        i = i + 1;
    }
    assert(names_of(deps@).take(i as int) =~= names_of(deps@));
    let ghost before_target = path_list(out@);
    assert(dn.take(deps@.len() as int) =~= dn);
    let target = String::from_str(target_module);
    push_once(&mut out, &target);
    let ghost head = dn + seq![target_module@];
    assert(head.drop_last() =~= dn);
    assert(path_list(out@) == first_each(head));
    proof {
        if dependency_modules@.len() == 0 {
            assert(deps@.len() == 0);
            assert(before_target.len() == 0) by {
                if before_target.len() > 0 {
                    assert(before_target.contains(before_target[0]));
                }
            }
            assert(path_list(out@).contains(target_module@));
            let j = choose|j: int| 0 <= j < path_list(out@).len() && path_list(out@)[j] == target_module@;
            assert(path_list(out@).len() == 1) by {
                assert forall|a: int| 0 <= a < path_list(out@).len() implies path_list(out@)[a] == target_module@ by {
                    assert(path_list(out@).contains(path_list(out@)[a]));
                }
                if path_list(out@).len() > 1 {
                    assert(path_list(out@)[0] == path_list(out@)[1]);
                }
            }
        }
    }
    let ghost mid = path_list(out@);
    assert forall|x: Seq<char>| mid.contains(x) <==> (x == target_module@ || names_of(dependency_modules@).contains(x)) by {
        assert(names_of(deps@).contains(x) <==> names_of(dependency_modules@).contains(x));
    }
    let mut k: usize = 0;
    while k < affected.len()
        invariant
            k <= affected@.len(),
            path_list(out@).no_duplicates(),
            forall|x: Seq<char>| path_list(out@).contains(x) <==> mid.contains(x) || names_of(affected@).take(k as int).contains(x),
            dependency_modules@.len() == 0 ==> out@.len() > 0 && out@[0]@ == target_module@,
            an == names_of(affected@),
            path_list(out@) == first_each(head + an.take(k as int)),
        decreases affected@.len() - k,
    {
        let ghost t = names_of(affected@).take(k as int);
        assert(names_of(affected@).take(k + 1) =~= t.push(affected@[k as int].module_name@));
        assert((head + an.take(k + 1)).drop_last() =~= head + an.take(k as int));
        assert((head + an.take(k + 1)).last() == affected@[k as int].module_name@);
        let ghost first = out@[0];
        let ghost len0 = out@.len();
        let ghost old_o = path_list(out@);
        assert(forall|x: Seq<char>| old_o.contains(x) <==> mid.contains(x) || t.contains(x));
        push_once(&mut out, &affected[k].module_name);
        proof {
            assert forall|x: Seq<char>| path_list(out@).contains(x) <==> mid.contains(x) || t.push(affected@[k as int].module_name@).contains(x) by {
                if t.contains(x) {
                    let j = choose|j: int| 0 <= j < t.len() && t[j] == x;
                    assert(t.push(affected@[k as int].module_name@)[j] == x);
                }
                if t.push(affected@[k as int].module_name@).contains(x) && x != affected@[k as int].module_name@ {
                    let j = choose|j: int| 0 <= j < t.len() + 1 && t.push(affected@[k as int].module_name@)[j] == x;
                    assert(t[j] == x);
                }
                if x == affected@[k as int].module_name@ {
                    assert(t.push(x)[t.len() as int] == x);
                }
            }
            if dependency_modules@.len() == 0 {
                assert(out@[0] == first);
            }
        }
        k = k + 1;
    }
    assert(names_of(affected@).take(k as int) =~= names_of(affected@));
    assert(head + an.take(k as int) =~= dn + seq![target_module@] + an);
    assert(in_running_order(dependency_modules@, deps@, false));
    assert(in_running_order(affected_modules@, affected@, true));
    assert forall|x: Seq<char>|
        path_list(out@).contains(x) <==> (x == target_module@ || names_of(affected_modules@).contains(x)
            || names_of(dependency_modules@).contains(x)) by {
        assert(names_of(affected@).contains(x) <==> names_of(affected_modules@).contains(x));
        assert(mid.contains(x) <==> (x == target_module@ || names_of(dependency_modules@).contains(x)));
    }
    out
}

} // verus!

verus! {

/// How many entries of `v` are rated high or critical.
pub open spec fn high_risk(v: Seq<ChangesetModule>) -> nat
    decreases v.len(),
{
    if v.len() == 0 {
        0
    } else {
        high_risk(v.drop_last()) + if risk_rank(v.last().risk_level) >= 2 {
            1nat
        } else {
            0
        }
    }
}

fn count_high_risk(v: &Vec<ChangesetModule>) -> (r: usize)
    ensures
        r == high_risk(v@),
{
    let mut n: usize = 0;
    let mut i: usize = 0;
    while i < v.len()
        invariant
            i <= v@.len(),
            n == high_risk(v@.take(i as int)),
            n <= i,
        decreases v@.len() - i,
    {
        assert(v@.take(i + 1).drop_last() =~= v@.take(i as int));
        if rank(v[i].risk_level) >= 2 {
            n = n + 1;
        }
        i = i + 1;
    }
    assert(v@.take(i as int) =~= v@);
    n
}

/// Changeset analysis of the module with path `module_name`: its direct
/// importers (depth 0) and direct imports (depth 1), each internal and not
/// a test package, scored by dependents, as `scope` selects; a test order;
/// and summary counts.
pub fn analyze_changeset(graph: &DependencyGraph, module_name: &str, scope: ChangesetScope) -> (r:
    Result<ChangesetResult, GraphError>)
    requires
        graph.wf(),
        graph.ids().len() + graph.edges().len() <= usize::MAX,
    ensures
        r is Err <==> forall|j: int| 0 <= j < graph.ids().len() ==> graph.ids()[j].1 != module_name@,
        r matches Err(GraphError::NotFound(p)) ==> p@ == module_name@,
        r matches Ok(res) ==> {
            &&& res.target_module@ == module_name@
            &&& res.scope == scope
            &&& exists|j: int| #[trigger] first_with_path(graph.ids(), module_name@, j) && {
                &&& scope.covers_affected() ==> scored_list(graph.ids(), graph.edges(), import_dependents(graph.ids(), graph.edges(), module_name@, graph.ids().len() as int), 0, res.affected_modules@)
                &&& scope.covers_dependencies() ==> scored_list(graph.ids(), graph.edges(), imports_only(labelled(graph.ids(), out_edges(graph.edges(), j as usize))), 1, res.dependency_modules@)
            }
            &&& !scope.covers_affected() ==> res.affected_modules@.len() == 0
            &&& !scope.covers_dependencies() ==> res.dependency_modules@.len() == 0
            &&& res.total_affected == res.affected_modules@.len()
            &&& res.total_dependencies == res.dependency_modules@.len()
            &&& res.high_risk_count == high_risk(res.affected_modules@) + high_risk(res.dependency_modules@)
            &&& forall|x: Seq<char>| path_list(res.test_order@).contains(x) <==> (x == module_name@
                || names_of(res.affected_modules@).contains(x) || names_of(res.dependency_modules@).contains(x))
        },
{
    let name = String::from_str(module_name);
    let target = match find_module_by_name(graph, &name) {
        Some(m) => m,
        None => {
            return Err(GraphError::NotFound(name));
        },
    };
    let ghost j = choose|j: int|
        0 <= j < graph.ids().len() && graph.ids()[j] == target@ && target@.1 == module_name@ && forall|q: int|
            0 <= q < j ==> graph.ids()[q].1 != module_name@;
    proof {
        graph.lemma_node_of(j);
        assert(first_with_path(graph.ids(), module_name@, j));
    }
    let mut affected_modules: Vec<ChangesetModule> = Vec::new();
    let mut dependency_modules: Vec<ChangesetModule> = Vec::new();
    if scope == ChangesetScope::Affected || scope == ChangesetScope::Both {
        let names = get_import_dependents(graph, &target);
        affected_modules = score_modules(graph, names, 0);
    }
    if scope == ChangesetScope::Dependencies || scope == ChangesetScope::Both {
        match get_import_dependencies(graph, &target) {
            Ok(names) => {
                dependency_modules = score_modules(graph, names, 1);
            },
            Err(_) => {},
        }
    }
    let test_order = generate_test_order(
        affected_modules.as_slice(),
        dependency_modules.as_slice(),
        module_name,
    );
    let total_affected = affected_modules.len();
    let total_dependencies = dependency_modules.len();
    let high_a = count_high_risk(&affected_modules);
    let high_d = count_high_risk(&dependency_modules);
    proof {
        lemma_high_risk_bounded(affected_modules@);
        lemma_high_risk_bounded(dependency_modules@);
    }
    proof {
        lemma_import_dependents_len(graph.ids(), graph.edges(), module_name@, graph.ids().len() as int);
        lemma_imports_only_len(labelled(graph.ids(), out_edges(graph.edges(), j as usize)));
        lemma_internal_non_test_len(graph.ids(), import_dependents(graph.ids(), graph.edges(), module_name@, graph.ids().len() as int));
        lemma_internal_non_test_len(graph.ids(), imports_only(labelled(graph.ids(), out_edges(graph.edges(), j as usize))));
        lemma_out_edges_len(graph.edges(), j as usize);
    }
    Ok(
        ChangesetResult {
            target_module: String::from_str(module_name),
            scope,
            affected_modules,
            dependency_modules,
            test_order,
            total_affected,
            total_dependencies,
            high_risk_count: high_a + high_d,
        },
    )
}

proof fn lemma_import_dependents_len(ids: Seq<ModuleKey>, es: Seq<(usize, usize, DependencyType)>, t: Seq<char>, k: int)
    requires
        k >= 0,
    ensures
        import_dependents(ids, es, t, k).len() <= k,
    decreases k,
{
    if k > 0 {
        lemma_import_dependents_len(ids, es, t, k - 1);
    }
}

proof fn lemma_imports_only_len(s: Seq<(Seq<char>, DependencyType)>)
    ensures
        imports_only(s).len() <= s.len(),
    decreases s.len(),
{
    if s.len() > 0 {
        lemma_imports_only_len(s.drop_last());
    }
}

proof fn lemma_internal_non_test_len(ids: Seq<ModuleKey>, s: Seq<Seq<char>>)
    ensures
        internal_non_test(ids, s).len() <= s.len(),
    decreases s.len(),
{
    if s.len() > 0 {
        lemma_internal_non_test_len(ids, s.drop_last());
    }
}

proof fn lemma_out_edges_len(es: Seq<(usize, usize, DependencyType)>, n: usize)
    ensures
        out_edges(es, n).len() <= es.len(),
    decreases es.len(),
{
    if es.len() > 0 {
        lemma_out_edges_len(es.drop_last(), n);
    }
}

proof fn lemma_high_risk_bounded(v: Seq<ChangesetModule>)
    ensures
        high_risk(v) <= v.len(),
    decreases v.len(),
{
    if v.len() > 0 {
        lemma_high_risk_bounded(v.drop_last());
    }
}

} // verus!

verus! {

/// The display name of a risk level.
pub open spec fn risk_str(r: RiskLevel) -> Seq<char> {
    match r {
        RiskLevel::Low => "Low"@,
        RiskLevel::Medium => "Medium"@,
        RiskLevel::High => "High"@,
        RiskLevel::Critical => "Critical"@,
    }
}

/// The marker shown before a risk level.
pub open spec fn icon_str(r: RiskLevel) -> Seq<char> {
    match r {
        RiskLevel::Critical => "🔴"@,
        RiskLevel::High => "🟠"@,
        RiskLevel::Medium => "🟡"@,
        RiskLevel::Low => "🟢"@,
    }
}

/// The display name of a risk level.
pub fn risk_name(r: RiskLevel) -> (s: &'static str)
    ensures
        s@ == risk_str(r),
{
    match r {
        RiskLevel::Low => "Low",
        RiskLevel::Medium => "Medium",
        RiskLevel::High => "High",
        RiskLevel::Critical => "Critical",
    }
}

fn risk_icon(r: RiskLevel) -> (s: &'static str)
    ensures
        s@ == icon_str(r),
{
    match r {
        RiskLevel::Critical => "🔴",
        RiskLevel::High => "🟠",
        RiskLevel::Medium => "🟡",
        RiskLevel::Low => "🟢",
    }
}

/// How many modules have risk `level`.
pub open spec fn count_level(ms: Seq<ChangesetModule>, level: RiskLevel) -> nat
    decreases ms.len(),
{
    if ms.len() == 0 {
        0
    } else {
        count_level(ms.drop_last(), level) + if ms.last().risk_level == level {
            1nat
        } else {
            0
        }
    }
}

/// One line per module with risk `level`.
pub open spec fn level_lines(ms: Seq<ChangesetModule>, level: RiskLevel) -> Seq<char>
    decreases ms.len(),
{
    if ms.len() == 0 {
        Seq::empty()
    } else {
        level_lines(ms.drop_last(), level) + if ms.last().risk_level == level {
            "  • "@ + ms.last().module_name@ + " ("@ + crate::text::decimal(ms.last().dependent_count as nat)
                + " dependents)\n"@
        } else {
            Seq::empty()
        }
    }
}

/// The section of modules with risk `level`; empty when there are none.
pub open spec fn risk_block(ms: Seq<ChangesetModule>, level: RiskLevel) -> Seq<char> {
    if count_level(ms, level) == 0 {
        Seq::empty()
    } else {
        icon_str(level) + " "@ + risk_str(level) + " Risk ("@ + crate::text::decimal(count_level(ms, level))
            + " modules):\n"@ + level_lines(ms, level) + "\n"@
    }
}

/// Modules grouped by risk, critical first.
pub open spec fn modules_by_risk(ms: Seq<ChangesetModule>) -> Seq<char> {
    risk_block(ms, RiskLevel::Critical) + risk_block(ms, RiskLevel::High) + risk_block(ms, RiskLevel::Medium)
        + risk_block(ms, RiskLevel::Low)
}

fn push_risk_block(out: &mut String, modules: &Vec<ChangesetModule>, level: RiskLevel)
    ensures
        final(out)@ == old(out)@ + risk_block(modules@, level),
{
    let ghost ms = modules@;
    let mut n: usize = 0;
    let mut i: usize = 0;
    while i < modules.len()
        invariant
            ms == modules@,
            i <= ms.len(),
            n == count_level(ms.take(i as int), level),
            n <= i,
        decreases ms.len() - i,
    {
        assert(ms.take(i + 1).drop_last() =~= ms.take(i as int));
        if modules[i].risk_level == level {
            n = n + 1;
        }
        i = i + 1;
    }
    assert(ms.take(i as int) =~= ms);
    if n == 0 {
        return ;
    }
    let ghost start = out@;
    out.append(risk_icon(level));
    out.append(" ");
    out.append(risk_name(level));
    out.append(" Risk (");
    push_decimal(out, n);
    out.append(" modules):\n");
    let ghost head = out@;
    let mut k: usize = 0;
    assert(ms.take(0) =~= Seq::<ChangesetModule>::empty());
    while k < modules.len()
        invariant
            ms == modules@,
            k <= ms.len(),
            out@ == head + level_lines(ms.take(k as int), level),
        decreases ms.len() - k,
    {
        assert(ms.take(k + 1).drop_last() =~= ms.take(k as int));
        assert(ms.take(k + 1).last() == ms[k as int]);
        if modules[k].risk_level == level {
            out.append("  • ");
            out.append(modules[k].module_name.as_str());
            out.append(" (");
            push_decimal(out, modules[k].dependent_count);
            out.append(" dependents)\n");
        }
        assert(out@ =~= head + level_lines(ms.take(k + 1), level));
        k = k + 1;
    }
    assert(ms.take(k as int) =~= ms);
    out.append("\n");
    assert(out@ =~= start + risk_block(ms, level));
}

/// Lists modules grouped by risk level, critical first, with a header per
/// level that has modules.
fn format_modules_by_risk(modules: &Vec<ChangesetModule>) -> (r: String)
    ensures
        r@ == modules_by_risk(modules@),
{
    let mut output = String::new();
    push_risk_block(&mut output, modules, RiskLevel::Critical);
    push_risk_block(&mut output, modules, RiskLevel::High);
    push_risk_block(&mut output, modules, RiskLevel::Medium);
    push_risk_block(&mut output, modules, RiskLevel::Low);
    assert(output@ =~= modules_by_risk(modules@));
    output
}

/// The tier label of position `k` in a test order whose first `dc`
/// entries are dependencies.
pub open spec fn tier_label(k: nat, dc: nat) -> Seq<char> {
    if k < dc {
        " [DEPENDENCY]\n"@
    } else if k + 1 == dc + 1 {
        " [TARGET]\n"@
    } else {
        " [AFFECTED]\n"@
    }
}

/// Numbered lines of a test order, each with its tier.
pub open spec fn order_lines(o: Seq<Seq<char>>, dc: nat) -> Seq<char>
    decreases o.len(),
{
    if o.len() == 0 {
        Seq::empty()
    } else {
        order_lines(o.drop_last(), dc) + crate::text::decimal(o.len()) + ". "@ + o.last() + tier_label(
            (o.len() - 1) as nat,
            dc,
        )
    }
}

/// The summary lines of a changeset report.
pub open spec fn report_header(r: ChangesetResult) -> Seq<char> {
    "CHANGESET ANALYSIS: "@ + r.target_module@ + "\n"@ + "Affected: "@ + crate::text::decimal(r.total_affected as nat)
        + " | Dependencies: "@ + crate::text::decimal(r.total_dependencies as nat) + " | High Risk: "@
        + crate::text::decimal(r.high_risk_count as nat) + "\n\n"@
}

/// A titled section listing modules by risk; empty for no modules.
pub open spec fn module_section(title: Seq<char>, rule: Seq<char>, ms: Seq<ChangesetModule>) -> Seq<char> {
    if ms.len() > 0 {
        title + rule + modules_by_risk(ms) + "\n"@
    } else {
        Seq::empty()
    }
}

/// The test-order section; empty for no order.
pub open spec fn order_section(order: Seq<Seq<char>>, dc: nat) -> Seq<char> {
    if order.len() > 0 {
        "SUGGESTED TEST ORDER (dependencies → target → affected):\n"@
            + "─────────────────────────────────────────────────────────\n"@ + order_lines(order, dc)
            + "\nRationale: Test dependencies first (foundations), then target, then affected modules\n"@
            + "\n"@
    } else {
        Seq::empty()
    }
}

/// The closing risk assessment.
pub open spec fn risk_section(high: usize) -> Seq<char> {
    "RISK ASSESSMENT:\n"@ + "────────────────\n"@ + if high > 0 {
        "⚠️  "@ + crate::text::decimal(high as nat) + " high-risk modules identified\n"@
            + "• Consider breaking changes into smaller increments\n"@
            + "• Focus testing efforts on high-risk modules\n"@ + "• Review integration points carefully\n"@
    } else {
        "✅ Low risk change - isolated impact\n"@ + "• Standard testing should be sufficient\n"@
    }
}

/// The text report of a changeset analysis.
pub open spec fn changeset_report(r: ChangesetResult) -> Seq<char> {
    report_header(r) + module_section(
        "AFFECTED MODULES (what breaks if target changes):\n"@,
        "──────────────────────────────────────────────────\n"@,
        r.affected_modules@,
    ) + module_section(
        "DEPENDENCIES (what target needs):\n"@,
        "─────────────────────────────────\n"@,
        r.dependency_modules@,
    ) + order_section(path_list(r.test_order@), r.dependency_modules@.len()) + risk_section(r.high_risk_count)
}

fn push_module_section(out: &mut String, title: &str, rule: &str, ms: &Vec<ChangesetModule>)
    ensures
        final(out)@ == old(out)@ + module_section(title@, rule@, ms@),
{
    let ghost start = out@;
    if ms.len() > 0 {
        out.append(title);
        out.append(rule);
        out.append(format_modules_by_risk(ms).as_str());
        out.append("\n");
    }
    assert(out@ =~= start + module_section(title@, rule@, ms@));
}

fn push_risk_section(out: &mut String, high: usize)
    ensures
        final(out)@ == old(out)@ + risk_section(high),
{
    let ghost start = out@;
    out.append("RISK ASSESSMENT:\n");
    out.append("────────────────\n");
    if high > 0 {
        out.append("⚠️  ");
        push_decimal(out, high);
        out.append(" high-risk modules identified\n");
        out.append("• Consider breaking changes into smaller increments\n");
        out.append("• Focus testing efforts on high-risk modules\n");
        out.append("• Review integration points carefully\n");
    } else {
        out.append("✅ Low risk change - isolated impact\n");
        out.append("• Standard testing should be sufficient\n");
    }
    assert(out@ =~= start + risk_section(high));
}

fn push_order_section(out: &mut String, order: &Vec<String>, dc: usize)
    requires
        order@.len() < usize::MAX,
    ensures
        final(out)@ == old(out)@ + order_section(path_list(order@), dc as nat),
{
    let ghost start = out@;
    if order.len() > 0 {
        out.append("SUGGESTED TEST ORDER (dependencies → target → affected):\n");
        out.append("─────────────────────────────────────────────────────────\n");
        push_order_lines(out, order, dc);
        out.append("\nRationale: Test dependencies first (foundations), then target, then affected modules\n");
        out.append("\n");
    }
    assert(out@ =~= start + order_section(path_list(order@), dc as nat));
}

fn push_order_lines(out: &mut String, order: &Vec<String>, dc: usize)
    requires
        order@.len() < usize::MAX,
    ensures
        final(out)@ == old(out)@ + order_lines(path_list(order@), dc as nat),
{
    let ghost o = path_list(order@);
    let ghost head = out@;
    let mut i: usize = 0;
    assert(o.take(0) =~= Seq::<Seq<char>>::empty());
    while i < order.len()
        invariant
            o == path_list(order@),
            order@.len() < usize::MAX,
            i <= o.len(),
            out@ == head + order_lines(o.take(i as int), dc as nat),
        decreases o.len() - i,
    {
        assert(o.take(i + 1).drop_last() =~= o.take(i as int));
        assert(o.take(i + 1).last() == order@[i as int]@);
        push_decimal(out, i + 1);
        out.append(". ");
        out.append(order[i].as_str());
        if i < dc {
            out.append(" [DEPENDENCY]\n");
        } else if i + 1 == dc + 1 {
            out.append(" [TARGET]\n");
        } else {
            out.append(" [AFFECTED]\n");
        }
        assert(out@ =~= head + order_lines(o.take(i + 1), dc as nat));
        i = i + 1;
    }
    assert(o.take(i as int) =~= o);
}

/// Formats a changeset analysis as text: a summary line, the affected and
/// dependency modules by risk, the test order with each entry's tier, and a
/// risk assessment.
pub fn format_text_grouped(result: &ChangesetResult) -> (r: String)
    requires
        result.test_order@.len() < usize::MAX,
        result.dependency_modules@.len() < usize::MAX,
    ensures
        r@ == changeset_report(*result),
{
    let mut output = String::from_str("CHANGESET ANALYSIS: ");
    output.append(result.target_module.as_str());
    output.append("\n");
    output.append("Affected: ");
    push_decimal(&mut output, result.total_affected);
    output.append(" | Dependencies: ");
    push_decimal(&mut output, result.total_dependencies);
    output.append(" | High Risk: ");
    push_decimal(&mut output, result.high_risk_count);
    output.append("\n\n");
    assert(output@ =~= report_header(*result));
    push_module_section(
        &mut output,
        "AFFECTED MODULES (what breaks if target changes):\n",
        "──────────────────────────────────────────────────\n",
        &result.affected_modules,
    );
    push_module_section(
        &mut output,
        "DEPENDENCIES (what target needs):\n",
        "─────────────────────────────────\n",
        &result.dependency_modules,
    );
    push_order_section(&mut output, &result.test_order, result.dependency_modules.len());
    push_risk_section(&mut output, result.high_risk_count);
    output
}

} // verus!
