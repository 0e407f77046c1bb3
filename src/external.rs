//! Third-party packages: how widely each is used, and how usage compares
//! with what the project declares.
use crate::dependencies::sorted_unique;
use crate::graph::{path_list, typed_list, DependencyGraph, GraphError};
use crate::imports::{ModuleIdentifier, ModuleOrigin};
use crate::pyproject::top_level;
use crate::text::{lex_lt, lower_of, lowercase, push_decimal, str_lt};
use vstd::prelude::*;

verus! {

/// The root package of a dotted module path.
pub fn extract_root_package_name(path: &str) -> (r: String)
    ensures
        r@ == top_level(path@),
{
    crate::imports::extract_root_module(path)
}

/// The value of the last entry of `m` with key `k`, if any.
pub open spec fn lookup_last(m: Seq<(Seq<char>, Seq<char>)>, k: Seq<char>) -> Option<Seq<char>>
    decreases m.len(),
{
    if m.len() == 0 {
        None
    } else if m.last().0 == k {
        Some(m.last().1)
    } else {
        lookup_last(m.drop_last(), k)
    }
}

fn find_last(m: &Vec<(String, String)>, k: &String) -> (r: Option<String>)
    ensures
        r is None <==> lookup_last(path_pairs(m@), k@) is None,
        r matches Some(v) ==> lookup_last(path_pairs(m@), k@) == Some(v@),
{
    let mut i = m.len();
    assert(path_pairs(m@).take(i as int) =~= path_pairs(m@));
    while i > 0
        invariant
            i <= m@.len(),
            lookup_last(path_pairs(m@), k@) == lookup_last(path_pairs(m@).take(i as int), k@),
        decreases i,
    {
        let ghost t = path_pairs(m@).take(i as int);
        assert(t.drop_last() =~= path_pairs(m@).take(i - 1));
        assert(t.last() == (m@[i - 1].0@, m@[i - 1].1@));
        if m[i - 1].0 == *k {
            return Some(m[i - 1].1.clone());
        }
        i = i - 1;
    }
    None
}

/// Pairs of strings as plain values.
pub open spec fn path_pairs(m: Seq<(String, String)>) -> Seq<(Seq<char>, Seq<char>)> {
    m.map_values(|p: (String, String)| (p.0@, p.1@))
}

/// Which distribution package provides an import name: a fixed table first,
/// then names learned from a package index.
#[derive(Debug, Clone)]
pub struct PackageImportMapping {
    static_mappings: Vec<(String, String)>,
    api_mappings: Vec<(String, String)>,
}

/// The package for `name` under fixed table `st` and learned table `api`:
/// each table is asked for the lower-cased name, then for the name as
/// written; the name itself where neither knows it.
pub open spec fn package_for(st: Seq<(Seq<char>, Seq<char>)>, api: Seq<(Seq<char>, Seq<char>)>, name: Seq<char>) -> Seq<char> {
    package_for_lowered(st, api, name, lower_of(name))
}

/// As `package_for`, with the lower-cased name given as `low`.
pub open spec fn package_for_lowered(
    st: Seq<(Seq<char>, Seq<char>)>,
    api: Seq<(Seq<char>, Seq<char>)>,
    name: Seq<char>,
    low: Seq<char>,
) -> Seq<char> {
    if lookup_last(st, low) is Some {
        lookup_last(st, low)->0
    } else if lookup_last(st, name) is Some {
        lookup_last(st, name)->0
    } else if lookup_last(api, low) is Some {
        lookup_last(api, low)->0
    } else if lookup_last(api, name) is Some {
        lookup_last(api, name)->0
    } else {
        name
    }
}

impl PackageImportMapping {
    /// The fixed table.
    pub closed spec fn fixed(&self) -> Seq<(Seq<char>, Seq<char>)> {
        path_pairs(self.static_mappings@)
    }

    /// The learned table.
    pub closed spec fn learned(&self) -> Seq<(Seq<char>, Seq<char>)> {
        path_pairs(self.api_mappings@)
    }

    /// A mapping with the given fixed table (later entries win) and nothing
    /// learned yet.
    pub fn new(static_mappings: Vec<(String, String)>) -> (r: PackageImportMapping)
        ensures
            r.fixed() == path_pairs(static_mappings@),
            r.learned() == Seq::<(Seq<char>, Seq<char>)>::empty(),
    {
        let r = PackageImportMapping { static_mappings, api_mappings: Vec::new() };
        assert(r.learned() =~= Seq::<(Seq<char>, Seq<char>)>::empty());
        r
    }

    /// The package that provides `import_name`.
    pub fn resolve_import_to_package(&self, import_name: &str) -> (r: String)
        ensures
            r@ == package_for(self.fixed(), self.learned(), import_name@),
    {
        let low = lowercase(import_name);
        self.resolve_lowered(import_name, low.as_str())
    }

    /// The package that provides `import_name`, whose lower-cased form is
    /// `lowered`.
    pub fn resolve_lowered(&self, import_name: &str, lowered: &str) -> (r: String)
        ensures
            r@ == package_for_lowered(self.fixed(), self.learned(), import_name@, lowered@),
    {
        let low = String::from_str(lowered);
        let orig = String::from_str(import_name);
        if let Some(p) = find_last(&self.static_mappings, &low) {
            return p;
        }
        if let Some(p) = find_last(&self.static_mappings, &orig) {
            return p;
        }
        if let Some(p) = find_last(&self.api_mappings, &low) {
            return p;
        }
        if let Some(p) = find_last(&self.api_mappings, &orig) {
            return p;
        }
        orig
    }

    /// Learns that `import_name` (and its lower-cased form) is provided by
    /// `package_name`.
    pub fn add_mapping(&mut self, import_name: String, package_name: String)
        ensures
            final(self).fixed() == old(self).fixed(),
            lower_of(import_name@) == import_name@ ==> final(self).learned() == old(self).learned().push(
                (import_name@, package_name@),
            ),
            lower_of(import_name@) != import_name@ ==> final(self).learned() == old(self).learned().push(
                (import_name@, package_name@),
            ).push((lower_of(import_name@), package_name@)),
    {
        let normalized = lowercase(import_name.as_str());
        self.add_mapping_lowered(import_name, normalized, package_name);
    }

    /// Learns that `import_name`, whose lower-cased form is `normalized`, is
    /// provided by `package_name`: the name as written first, then the
    /// lower-cased one where it differs.
    pub fn add_mapping_lowered(&mut self, import_name: String, normalized: String, package_name: String)
        ensures
            final(self).fixed() == old(self).fixed(),
            normalized@ == import_name@ ==> final(self).learned() == old(self).learned().push(
                (import_name@, package_name@),
            ),
            normalized@ != import_name@ ==> final(self).learned() == old(self).learned().push(
                (import_name@, package_name@),
            ).push((normalized@, package_name@)),
    {
        let ghost before = self.learned();
        let same = normalized == import_name;
        self.api_mappings.push((import_name, package_name.clone()));
        assert(self.learned() =~= before.push((import_name@, package_name@)));
        if !same {
            let ghost mid = self.learned();
            self.api_mappings.push((normalized, package_name));
            assert(self.learned() =~= mid.push((normalized@, package_name@)));
        }
    }
}

/// The package that provides `import_name` under `mapping`.
pub fn resolve_import_to_package_name(mapping: &PackageImportMapping, import_name: &str) -> (r: String)
    ensures
        r@ == package_for(mapping.fixed(), mapping.learned(), import_name@),
{
    mapping.resolve_import_to_package(import_name)
}

/// One third-party package and the modules that use it.
#[derive(Debug)]
pub struct DependencyUsage {
    pub package_name: String,
    pub usage_count: usize,
    pub used_by_modules: Vec<String>,
}

/// Totals of an external analysis.
#[derive(Debug)]
pub struct ExternalDependencySummary {
    pub total_used_packages: usize,
}

/// The result of an external-dependency analysis.
#[derive(Debug)]
pub struct ExternalAnalysisResult {
    pub frequency_analysis: Vec<DependencyUsage>,
    pub summary: ExternalDependencySummary,
    pub undeclared_dependencies: Vec<String>,
    pub unused_dependencies: Vec<String>,
    pub declared_externals_count: usize,
}

fn contains_str(v: &[String], s: &String) -> (r: bool)
    ensures
        r == path_list(v@).contains(s@),
{
    let mut i: usize = 0;
    while i < v.len()
        invariant
            i <= v@.len(),
            forall|j: int| 0 <= j < i ==> v@[j]@ != s@,
        decreases v@.len() - i,
    {
        if v[i] == *s {
            assert(path_list(v@)[i as int] == s@);
            return true;
        }
        i = i + 1;
    }
    proof {
        if path_list(v@).contains(s@) {
            let j = choose|j: int| 0 <= j < path_list(v@).len() && path_list(v@)[j] == s@;
        }
    }
    false
}

/// Adds `user` to the users of `package`, creating its entry if needed.
fn record_use(usage: &mut Vec<(String, Vec<String>)>, package: &String, user: &str, Ghost(excluded): Ghost<Seq<Seq<char>>>)
    requires
        forall|a: int, b: int| 0 <= a < b < old(usage)@.len() ==> old(usage)@[a].0@ != old(usage)@[b].0@,
        forall|k: int| 0 <= k < old(usage)@.len() ==> !excluded.contains((#[trigger] old(usage)@[k]).0@),
        !excluded.contains(package@),
        forall|k: int| 0 <= k < old(usage)@.len() ==> (#[trigger] old(usage)@[k]).1@.len() > 0,
    ensures
        forall|a: int, b: int| 0 <= a < b < final(usage)@.len() ==> final(usage)@[a].0@ != final(usage)@[b].0@,
        forall|k: int| 0 <= k < final(usage)@.len() ==> !excluded.contains((#[trigger] final(usage)@[k]).0@),
        forall|x: Seq<char>| usage_names(final(usage)@).contains(x) <==> usage_names(old(usage)@).contains(x) || x == package@,
        forall|k: int| 0 <= k < final(usage)@.len() ==> (#[trigger] final(usage)@[k]).1@.len() > 0,
        forall|p: Seq<char>, x: Seq<char>|
            has_user(final(usage)@, p, x) <==> has_user(old(usage)@, p, x) || (p == package@ && x == user@),
{
    let mut i: usize = 0;
    while i < usage.len()
        invariant
            i <= usage@.len(),
            usage@ == old(usage)@,
            forall|j: int| 0 <= j < i ==> usage@[j].0@ != package@,
            forall|a: int, b: int| 0 <= a < b < usage@.len() ==> usage@[a].0@ != usage@[b].0@,
            forall|k: int| 0 <= k < usage@.len() ==> !excluded.contains((#[trigger] usage@[k]).0@),
            forall|k: int| 0 <= k < usage@.len() ==> (#[trigger] usage@[k]).1@.len() > 0,
        decreases usage@.len() - i,
    {
        if usage[i].0 == *package {
            let ghost before = usage@;
            let mut users: Vec<String> = Vec::new();
            let mut c: usize = 0;
            while c < usage[i].1.len()
                invariant
                    usage@ == before,
                    i < usage@.len(),
                    c <= usage@[i as int].1@.len(),
                    path_list(users@) == path_list(usage@[i as int].1@).take(c as int),
                decreases usage@[i as int].1@.len() - c,
            {
                let ghost ou = users@;
                users.push(usage[i].1[c].clone());
                assert(path_list(users@) =~= path_list(ou).push(usage@[i as int].1@[c as int]@));
                assert(path_list(usage@[i as int].1@).take(c + 1) =~= path_list(usage@[i as int].1@).take(c as int).push(usage@[i as int].1@[c as int]@));
                c = c + 1;
            }
            assert(path_list(usage@[i as int].1@).take(c as int) =~= path_list(usage@[i as int].1@));
            let ghost ou = users@;
            users.push(String::from_str(user));
            assert(path_list(users@) =~= path_list(ou).push(user@));
            let name = usage[i].0.clone();
            usage.set(i, (name, users));
            proof {
                let old_users = path_list(before[i as int].1@);
                assert(usage@[i as int].1 == users);
                assert(path_list(usage@[i as int].1@) == old_users.push(user@));
                assert forall|p2: Seq<char>, x: Seq<char>|
                    has_user(usage@, p2, x) <==> has_user(before, p2, x) || (p2 == package@ && x == user@) by {
                    if has_user(usage@, p2, x) {
                        let k = choose|k: int| 0 <= k < usage@.len() && usage@[k].0@ == p2 && path_list(usage@[k].1@).contains(x);
                        if k != i {
                            assert(usage@[k] == before[k]);
                        } else if x != user@ {
                            let j = choose|j: int| 0 <= j < path_list(usage@[k].1@).len() && path_list(usage@[k].1@)[j] == x;
                            assert(j < old_users.len());
                            assert(old_users[j] == x);
                            assert(path_list(before[k].1@).contains(x));
                        }
                    }
                    if has_user(before, p2, x) {
                        let k = choose|k: int| 0 <= k < before.len() && before[k].0@ == p2 && path_list(before[k].1@).contains(x);
                        if k != i {
                            assert(usage@[k] == before[k]);
                        } else {
                            let j = choose|j: int| 0 <= j < old_users.len() && old_users[j] == x;
                            assert(path_list(usage@[k].1@)[j] == x);
                        }
                        assert(path_list(usage@[k].1@).contains(x));
                    }
                    if p2 == package@ && x == user@ {
                        assert(path_list(usage@[i as int].1@)[old_users.len() as int] == x);
                        assert(path_list(usage@[i as int].1@).contains(x));
                    }
                }
                assert forall|k: int| 0 <= k < usage@.len() implies (#[trigger] usage@[k]).1@.len() > 0 by {
                    if k != i {
                        assert(usage@[k] == before[k]);
                    }
                }
            }
            assert forall|a: int, b: int| 0 <= a < b < usage@.len() implies usage@[a].0@ != usage@[b].0@ by {
                assert(usage@[a].0@ == before[a].0@ && usage@[b].0@ == before[b].0@);
            }
            assert forall|k: int| 0 <= k < usage@.len() implies !excluded.contains((#[trigger] usage@[k]).0@) by {
                assert(usage@[k].0@ == before[k].0@);
            }
            assert(usage_names(usage@) =~= usage_names(before));
            assert(usage_names(before)[i as int] == package@);
            assert(before == old(usage)@);
            assert(usage_names(before).contains(package@));
            assert(forall|x: Seq<char>| usage_names(usage@).contains(x) <==> usage_names(old(usage)@).contains(x) || x == package@);
            assert(forall|k: int| 0 <= k < usage@.len() ==> (#[trigger] usage@[k]).1@.len() > 0);
            assert(forall|p2: Seq<char>, x: Seq<char>|
                has_user(usage@, p2, x) <==> has_user(old(usage)@, p2, x) || (p2 == package@ && x == user@));
            return ;
        }
        i = i + 1;
    }
    let ghost before = usage@;
    let mut users: Vec<String> = Vec::new();
    users.push(String::from_str(user));
    usage.push((package.clone(), users));
    proof {
        assert forall|p2: Seq<char>, x: Seq<char>|
            has_user(usage@, p2, x) <==> has_user(before, p2, x) || (p2 == package@ && x == user@) by {
            if has_user(usage@, p2, x) {
                let k = choose|k: int| 0 <= k < usage@.len() && usage@[k].0@ == p2 && path_list(usage@[k].1@).contains(x);
                if k < before.len() {
                    assert(usage@[k] == before[k]);
                } else {
                    let j = choose|j: int| 0 <= j < path_list(usage@[k].1@).len() && path_list(usage@[k].1@)[j] == x;
                }
            }
            if has_user(before, p2, x) {
                let k = choose|k: int| 0 <= k < before.len() && before[k].0@ == p2 && path_list(before[k].1@).contains(x);
                assert(usage@[k] == before[k]);
            }
            if p2 == package@ && x == user@ {
                let k = before.len() as int;
                assert(path_list(usage@[k].1@)[0] == x);
                assert(path_list(usage@[k].1@).contains(x));
            }
        }
        assert forall|k: int| 0 <= k < usage@.len() implies (#[trigger] usage@[k]).1@.len() > 0 by {
            if k < before.len() {
                assert(usage@[k] == before[k]);
            }
        }
    }
    assert forall|a: int, b: int| 0 <= a < b < usage@.len() implies usage@[a].0@ != usage@[b].0@ by {
        if b < before.len() {
            assert(usage@[a] == before[a] && usage@[b] == before[b]);
        } else {
            assert(usage@[a] == before[a]);
        }
    }
    assert forall|k: int| 0 <= k < usage@.len() implies !excluded.contains((#[trigger] usage@[k]).0@) by {
        if k < before.len() {
            assert(usage@[k] == before[k]);
        }
    }
    assert(usage_names(usage@) =~= usage_names(before).push(package@));
    assert forall|x: Seq<char>| usage_names(usage@).contains(x) <==> usage_names(before).contains(x) || x == package@ by {
        let n = usage_names(usage@);
        let o = usage_names(before);
        if n.contains(x) {
            let j = choose|j: int| 0 <= j < n.len() && n[j] == x;
            if j < o.len() {
                assert(o[j] == x);
            }
        }
        if o.contains(x) {
            let j = choose|j: int| 0 <= j < o.len() && o[j] == x;
            assert(n[j] == x);
        }
        if x == package@ {
            assert(n[o.len() as int] == x);
        }
    }
}

/// `x` is the `(declared)` marker and `p` a declared package outside the
/// standard library.
pub open spec fn declared_use(declared: Seq<Seq<char>>, stdlib: Seq<Seq<char>>, p: Seq<char>, x: Seq<char>) -> bool {
    x == "(declared)"@ && declared.contains(p) && !stdlib.contains(p)
}

/// Internal module `x` imports directly an external module whose root
/// package is `p`, outside the standard library; only imports before
/// position `(m, d)` (node, then neighbour) count.
pub open spec fn import_use(
    ids: Seq<crate::imports::ModuleKey>,
    es: Seq<(usize, usize, crate::graph::DependencyType)>,
    stdlib: Seq<Seq<char>>,
    p: Seq<char>,
    x: Seq<char>,
    m: int,
    d: int,
) -> bool {
    !stdlib.contains(p) && exists|mm: int, k: int|
        0 <= mm < ids.len() && ids[mm].0 == ModuleOrigin::Internal && ids[mm].1 == x && 0 <= k
            < crate::graph::labelled(ids, crate::graph::out_edges(es, mm as usize)).len() && (mm < m || (mm == m && k < d))
            && external_path(ids, (#[trigger] crate::graph::labelled(ids, crate::graph::out_edges(es, mm as usize))[k]).0)
            && top_level(crate::graph::labelled(ids, crate::graph::out_edges(es, mm as usize))[k].0) == p
}

proof fn lemma_import_use_step(
    ids: Seq<crate::imports::ModuleKey>,
    es: Seq<(usize, usize, crate::graph::DependencyType)>,
    st: Seq<Seq<char>>,
    m: int,
    d: int,
)
    requires
        0 <= m < ids.len(),
        0 <= d < crate::graph::labelled(ids, crate::graph::out_edges(es, m as usize)).len(),
    ensures
        forall|p: Seq<char>, x: Seq<char>|
            import_use(ids, es, st, p, x, m, d + 1) <==> import_use(ids, es, st, p, x, m, d) || (!st.contains(p)
                && ids[m].0 == ModuleOrigin::Internal && ids[m].1 == x && external_path(
                ids,
                crate::graph::labelled(ids, crate::graph::out_edges(es, m as usize))[d].0,
            ) && top_level(crate::graph::labelled(ids, crate::graph::out_edges(es, m as usize))[d].0) == p),
{
    let ls = crate::graph::labelled(ids, crate::graph::out_edges(es, m as usize));
    assert forall|p: Seq<char>, x: Seq<char>|
        import_use(ids, es, st, p, x, m, d + 1) <==> import_use(ids, es, st, p, x, m, d) || (!st.contains(p)
            && ids[m].0 == ModuleOrigin::Internal && ids[m].1 == x && external_path(ids, ls[d].0) && top_level(ls[d].0) == p) by {
        if import_use(ids, es, st, p, x, m, d + 1) {
            let (mm, k) = choose|mm: int, k: int|
                0 <= mm < ids.len() && ids[mm].0 == ModuleOrigin::Internal && ids[mm].1 == x && 0 <= k
                    < crate::graph::labelled(ids, crate::graph::out_edges(es, mm as usize)).len() && (mm < m || (mm == m && k < d + 1))
                    && external_path(ids, (#[trigger] crate::graph::labelled(ids, crate::graph::out_edges(es, mm as usize))[k]).0)
                    && top_level(crate::graph::labelled(ids, crate::graph::out_edges(es, mm as usize))[k].0) == p;
            if mm < m || k < d {
                assert(import_use(ids, es, st, p, x, m, d));
            }
        }
        if import_use(ids, es, st, p, x, m, d) {
            let (mm, k) = choose|mm: int, k: int|
                0 <= mm < ids.len() && ids[mm].0 == ModuleOrigin::Internal && ids[mm].1 == x && 0 <= k
                    < crate::graph::labelled(ids, crate::graph::out_edges(es, mm as usize)).len() && (mm < m || (mm == m && k < d))
                    && external_path(ids, (#[trigger] crate::graph::labelled(ids, crate::graph::out_edges(es, mm as usize))[k]).0)
                    && top_level(crate::graph::labelled(ids, crate::graph::out_edges(es, mm as usize))[k].0) == p;
            assert(import_use(ids, es, st, p, x, m, d + 1));
        }
        if !st.contains(p) && ids[m].0 == ModuleOrigin::Internal && ids[m].1 == x && external_path(ids, ls[d].0) && top_level(ls[d].0) == p {
            assert(external_path(ids, crate::graph::labelled(ids, crate::graph::out_edges(es, m as usize))[d].0));
            assert(import_use(ids, es, st, p, x, m, d + 1));
        }
    }
}

proof fn lemma_import_use_next(
    ids: Seq<crate::imports::ModuleKey>,
    es: Seq<(usize, usize, crate::graph::DependencyType)>,
    st: Seq<Seq<char>>,
    m: int,
    d: int,
)
    requires
        0 <= m < ids.len(),
        ids[m].0 == ModuleOrigin::Internal ==> d == crate::graph::labelled(ids, crate::graph::out_edges(es, m as usize)).len(),
        ids[m].0 != ModuleOrigin::Internal ==> d == 0,
    ensures
        forall|p: Seq<char>, x: Seq<char>| import_use(ids, es, st, p, x, m + 1, 0) <==> import_use(ids, es, st, p, x, m, d),
{
    assert forall|p: Seq<char>, x: Seq<char>| import_use(ids, es, st, p, x, m + 1, 0) <==> import_use(ids, es, st, p, x, m, d) by {
        if import_use(ids, es, st, p, x, m + 1, 0) {
            let (mm, k) = choose|mm: int, k: int|
                0 <= mm < ids.len() && ids[mm].0 == ModuleOrigin::Internal && ids[mm].1 == x && 0 <= k
                    < crate::graph::labelled(ids, crate::graph::out_edges(es, mm as usize)).len() && (mm < m + 1 || (mm == m + 1 && k < 0))
                    && external_path(ids, (#[trigger] crate::graph::labelled(ids, crate::graph::out_edges(es, mm as usize))[k]).0)
                    && top_level(crate::graph::labelled(ids, crate::graph::out_edges(es, mm as usize))[k].0) == p;
            assert(import_use(ids, es, st, p, x, m, d));
        }
        if import_use(ids, es, st, p, x, m, d) {
            let (mm, k) = choose|mm: int, k: int|
                0 <= mm < ids.len() && ids[mm].0 == ModuleOrigin::Internal && ids[mm].1 == x && 0 <= k
                    < crate::graph::labelled(ids, crate::graph::out_edges(es, mm as usize)).len() && (mm < m || (mm == m && k < d))
                    && external_path(ids, (#[trigger] crate::graph::labelled(ids, crate::graph::out_edges(es, mm as usize))[k]).0)
                    && top_level(crate::graph::labelled(ids, crate::graph::out_edges(es, mm as usize))[k].0) == p;
            assert(import_use(ids, es, st, p, x, m + 1, 0));
        }
    }
}

/// `x` is a user of package `p`: the `(declared)` marker for a declared
/// package, or an internal module importing an external module of `p`.
pub open spec fn user_of(
    ids: Seq<crate::imports::ModuleKey>,
    es: Seq<(usize, usize, crate::graph::DependencyType)>,
    declared: Seq<Seq<char>>,
    stdlib: Seq<Seq<char>>,
    p: Seq<char>,
    x: Seq<char>,
) -> bool {
    declared_use(declared, stdlib, p, x) || import_use(ids, es, stdlib, p, x, ids.len() as int, 0)
}

/// The users listed for each package are exactly its users, and each
/// package listed has some.
pub open spec fn users_exact(
    ids: Seq<crate::imports::ModuleKey>,
    es: Seq<(usize, usize, crate::graph::DependencyType)>,
    declared: Seq<Seq<char>>,
    stdlib: Seq<Seq<char>>,
    r: Seq<DependencyUsage>,
) -> bool {
    forall|k: int|
        0 <= k < r.len() ==> (#[trigger] r[k]).used_by_modules@.len() > 0 && forall|x: Seq<char>|
            path_list(r[k].used_by_modules@).contains(x) <==> user_of(ids, es, declared, stdlib, r[k].package_name@, x)
}

fn copy_strings(v: &Vec<String>) -> (r: Vec<String>)
    ensures
        path_list(r@) == path_list(v@),
{
    let mut r: Vec<String> = Vec::new();
    let mut i: usize = 0;
    while i < v.len()
        invariant
            i <= v@.len(),
            path_list(r@) == path_list(v@).take(i as int),
        decreases v@.len() - i,
    {
        let ghost o = r@;
        r.push(v[i].clone());
        assert(path_list(r@) =~= path_list(o).push(v@[i as int]@));
        assert(path_list(v@).take(i + 1) =~= path_list(v@).take(i as int).push(v@[i as int]@));
        i = i + 1;
    }
    assert(path_list(v@).take(i as int) =~= path_list(v@));
    r
}

/// Some entry of `u` for package `p` lists user `x`.
pub open spec fn has_user(u: Seq<(String, Vec<String>)>, p: Seq<char>, x: Seq<char>) -> bool {
    exists|k: int| 0 <= k < u.len() && u[k].0@ == p && path_list(u[k].1@).contains(x)
}

/// The package names of a usage table under construction.
pub open spec fn usage_names(u: Seq<(String, Vec<String>)>) -> Seq<Seq<char>> {
    u.map_values(|e: (String, Vec<String>)| e.0@)
}

/// The package names of a usage table.
pub open spec fn package_names(r: Seq<DependencyUsage>) -> Seq<Seq<char>> {
    r.map_values(|d: DependencyUsage| d.package_name@)
}

/// Some node with path `q` is external.
pub open spec fn external_path(ids: Seq<crate::imports::ModuleKey>, q: Seq<char>) -> bool {
    exists|j: int| 0 <= j < ids.len() && ids[j].1 == q && ids[j].0 == ModuleOrigin::External
}

/// Every package in use is in the table: each declared one outside the
/// standard library, and the root package of every external module that an
/// internal module imports directly, unless it belongs to the standard
/// library.
pub open spec fn usage_complete(
    ids: Seq<crate::imports::ModuleKey>,
    es: Seq<(usize, usize, crate::graph::DependencyType)>,
    declared: Seq<Seq<char>>,
    stdlib: Seq<Seq<char>>,
    names: Seq<Seq<char>>,
) -> bool {
    &&& forall|x: Seq<char>| declared.contains(x) && !stdlib.contains(x) ==> names.contains(x)
    &&& forall|m: int, k: int|
        0 <= m < ids.len() && ids[m].0 == ModuleOrigin::Internal && 0 <= k < crate::graph::labelled(ids, crate::graph::out_edges(es, m as usize)).len()
            && external_path(ids, (#[trigger] crate::graph::labelled(ids, crate::graph::out_edges(es, m as usize))[k]).0)
            && !stdlib.contains(top_level(crate::graph::labelled(ids, crate::graph::out_edges(es, m as usize))[k].0))
            ==> names.contains(top_level(crate::graph::labelled(ids, crate::graph::out_edges(es, m as usize))[k].0))
}

/// Whether some module with path `p` is external.
fn has_external_module(modules: &Vec<ModuleIdentifier>, p: &String) -> (r: bool)
    ensures
        r == exists|j: int| 0 <= j < modules@.len() && modules@[j].canonical_path@ == p@ && modules@[j].origin == ModuleOrigin::External,
{
    let mut i: usize = 0;
    while i < modules.len()
        invariant
            i <= modules@.len(),
            forall|j: int| 0 <= j < i ==> !(modules@[j].canonical_path@ == p@ && modules@[j].origin == ModuleOrigin::External),
        decreases modules@.len() - i,
    {
        if modules[i].canonical_path == *p && modules[i].origin == ModuleOrigin::External {
            return true;
        }
        i = i + 1;
    }
    false
}

/// The strings are in strictly increasing order.
pub open spec fn strictly_sorted(v: Seq<String>) -> bool {
    forall|a: int, b: int| 0 <= a < b < v.len() ==> lex_lt(v[a]@, v[b]@)
}

/// `x` is listed before `y`: more users first, then by name.
pub open spec fn more_used_first(x: (Seq<char>, usize), y: (Seq<char>, usize)) -> bool {
    x.1 > y.1 || (x.1 == y.1 && lex_lt(x.0, y.0))
}

proof fn lemma_more_used_transitive(x: (Seq<char>, usize), y: (Seq<char>, usize), z: (Seq<char>, usize))
    requires
        more_used_first(x, y),
        more_used_first(y, z),
    ensures
        more_used_first(x, z),
{
    if x.1 == y.1 && y.1 == z.1 {
        crate::text::lemma_lex_transitive(x.0, y.0, z.0);
    }
}

fn more_used_exec(x: &DependencyUsage, y: &DependencyUsage) -> (r: bool)
    ensures
        r == more_used_first((x.package_name@, x.usage_count), (y.package_name@, y.usage_count)),
{
    x.usage_count > y.usage_count || (x.usage_count == y.usage_count && str_lt(x.package_name.as_str(), y.package_name.as_str()))
}

/// The shape of a usage table: one entry per package, none of the
/// standard library, each counting its users, users sorted without
/// repeats, most used packages first and then by name.
pub open spec fn usage_ok(stdlib: Seq<Seq<char>>, r: Seq<DependencyUsage>) -> bool {
    &&& forall|a: int, b: int| 0 <= a < b < r.len() ==> r[a].package_name@ != r[b].package_name@
    &&& forall|k: int| 0 <= k < r.len() ==> (#[trigger] r[k]).usage_count == r[k].used_by_modules@.len()
    &&& forall|k: int| 0 <= k < r.len() ==> !stdlib.contains((#[trigger] r[k]).package_name@)
    &&& forall|k: int| 0 <= k < r.len() ==> strictly_sorted((#[trigger] r[k]).used_by_modules@)
    &&& forall|a: int, b: int| 0 <= a < b < r.len() ==> !more_used_first(
            (r[b].package_name@, r[b].usage_count),
            (r[a].package_name@, r[a].usage_count),
        )
}

/// Usage of third-party packages: each package declared in `used_externals`
/// counts a `(declared)` user, and each internal module counts as a user of
/// the root package of every external module it imports directly; packages
/// of the standard library (`stdlib`) are left out. Users are sorted and
/// de-duplicated; packages come most used first, then by name.
pub fn collect_package_usage(
    graph: &DependencyGraph,
    used_externals: &[String],
    stdlib: &[String],
) -> (r: Vec<DependencyUsage>)
    requires
        graph.wf(),
    ensures
        usage_ok(path_list(stdlib@), r@),
        usage_complete(graph.ids(), graph.edges(), path_list(used_externals@), path_list(stdlib@), package_names(r@)),
        users_exact(graph.ids(), graph.edges(), path_list(used_externals@), path_list(stdlib@), r@),
{
    let ghost ids = graph.ids();
    let ghost es = graph.edges();
    let ghost st = path_list(stdlib@);
    let ghost ue = path_list(used_externals@);
    let mut usage: Vec<(String, Vec<String>)> = Vec::new();
    let mut i: usize = 0;
    while i < used_externals.len()
        invariant
            st == path_list(stdlib@),
            ue == path_list(used_externals@),
            i <= used_externals@.len(),
            forall|a: int, b: int| 0 <= a < b < usage@.len() ==> usage@[a].0@ != usage@[b].0@,
            forall|k: int| 0 <= k < usage@.len() ==> !path_list(stdlib@).contains((#[trigger] usage@[k]).0@),
            forall|k: int| 0 <= k < usage@.len() ==> (#[trigger] usage@[k]).1@.len() > 0,
            forall|x: Seq<char>| ue.take(i as int).contains(x) && !st.contains(x) ==> usage_names(usage@).contains(x),
            forall|p: Seq<char>, x: Seq<char>| has_user(usage@, p, x) <==> declared_use(ue.take(i as int), st, p, x),
        decreases used_externals@.len() - i,
    {
        let ghost t = ue.take(i as int);
        assert(ue.take(i + 1) =~= t.push(used_externals@[i as int]@));
        proof {
            reveal_strlit("(declared)");
        }
        if !contains_str(stdlib, &used_externals[i]) {
            record_use(&mut usage, &used_externals[i], "(declared)", Ghost(path_list(stdlib@)));
        }
        proof {
            let e = used_externals@[i as int]@;
            assert forall|p: Seq<char>, x: Seq<char>| declared_use(ue.take(i + 1), st, p, x) <==> declared_use(t, st, p, x) || (p == e && x == "(declared)"@ && !st.contains(e)) by {
                if t.contains(p) {
                    let j = choose|j: int| 0 <= j < t.len() && t[j] == p;
                    assert(ue.take(i + 1)[j] == p);
                }
                if ue.take(i + 1).contains(p) && p != e {
                    let j = choose|j: int| 0 <= j < t.len() + 1 && t.push(e)[j] == p;
                    assert(t[j] == p);
                }
                if p == e {
                    assert(ue.take(i + 1)[i as int] == p);
                }
            }
            assert forall|x: Seq<char>| ue.take(i + 1).contains(x) && !st.contains(x) implies usage_names(usage@).contains(x) by {
                if x != used_externals@[i as int]@ {
                    let j = choose|j: int| 0 <= j < t.len() + 1 && t.push(used_externals@[i as int]@)[j] == x;
                    assert(t[j] == x);
                    assert(t.contains(x));
                }
            }
        }
        i = i + 1;
    }
    assert(ue.take(i as int) =~= ue);
    assert forall|p: Seq<char>, x: Seq<char>| !import_use(ids, es, st, p, x, 0, 0) by {}
    let modules = graph.all_modules();
    let mut m: usize = 0;
    while m < modules.len()
        invariant
            graph.wf(),
            ids == graph.ids(),
            es == graph.edges(),
            st == path_list(stdlib@),
            modules@.map_values(|x: ModuleIdentifier| x@) == ids,
            m <= modules@.len(),
            forall|a: int, b: int| 0 <= a < b < usage@.len() ==> usage@[a].0@ != usage@[b].0@,
            forall|k: int| 0 <= k < usage@.len() ==> !path_list(stdlib@).contains((#[trigger] usage@[k]).0@),
            forall|k: int| 0 <= k < usage@.len() ==> (#[trigger] usage@[k]).1@.len() > 0,
            forall|x: Seq<char>| ue.contains(x) && !st.contains(x) ==> usage_names(usage@).contains(x),
            forall|p: Seq<char>, x: Seq<char>| has_user(usage@, p, x) <==> declared_use(ue, st, p, x) || import_use(ids, es, st, p, x, m as int, 0),
            forall|mm: int, k: int|
                0 <= mm < m && ids[mm].0 == ModuleOrigin::Internal && 0 <= k < crate::graph::labelled(ids, crate::graph::out_edges(es, mm as usize)).len()
                    && external_path(ids, (#[trigger] crate::graph::labelled(ids, crate::graph::out_edges(es, mm as usize))[k]).0)
                    && !st.contains(top_level(crate::graph::labelled(ids, crate::graph::out_edges(es, mm as usize))[k].0))
                    ==> usage_names(usage@).contains(top_level(crate::graph::labelled(ids, crate::graph::out_edges(es, mm as usize))[k].0)),
        decreases modules@.len() - m,
    {
        proof {
            assert(modules@[m as int]@ == ids[m as int]);
            graph.lemma_node_of(m as int);
        }
        let ghost ls = crate::graph::labelled(ids, crate::graph::out_edges(es, m));
        if modules[m].origin == ModuleOrigin::Internal {
            match graph.get_dependencies_with_types(&modules[m]) {
                Ok(deps) => {
                    assert(typed_list(deps@) == ls);
                    assert(typed_list(deps@).len() == deps@.len());
                    let mut d: usize = 0;
                    while d < deps.len()
                        invariant
                            graph.wf(),
                            ids == graph.ids(),
                            es == graph.edges(),
                            st == path_list(stdlib@),
                            modules@.map_values(|x: ModuleIdentifier| x@) == ids,
                            m < modules@.len(),
                            d <= deps@.len(),
                            typed_list(deps@) == ls,
                            ls.len() == deps@.len(),
                            ls == crate::graph::labelled(ids, crate::graph::out_edges(es, m)),
                            forall|a: int, b: int| 0 <= a < b < usage@.len() ==> usage@[a].0@ != usage@[b].0@,
                            forall|k: int| 0 <= k < usage@.len() ==> !path_list(stdlib@).contains((#[trigger] usage@[k]).0@),
                            forall|k: int| 0 <= k < usage@.len() ==> (#[trigger] usage@[k]).1@.len() > 0,
            forall|k: int| 0 <= k < usage@.len() ==> (#[trigger] usage@[k]).1@.len() > 0,
                            forall|x: Seq<char>| ue.contains(x) && !st.contains(x) ==> usage_names(usage@).contains(x),
                            forall|p: Seq<char>, x: Seq<char>| has_user(usage@, p, x) <==> declared_use(ue, st, p, x) || import_use(ids, es, st, p, x, m as int, d as int),
                            ids[m as int].0 == ModuleOrigin::Internal,
                            ids[m as int].1 == modules@[m as int].canonical_path@,
                            forall|mm: int, k: int|
                                0 <= mm < m && ids[mm].0 == ModuleOrigin::Internal && 0 <= k < crate::graph::labelled(ids, crate::graph::out_edges(es, mm as usize)).len()
                                    && external_path(ids, (#[trigger] crate::graph::labelled(ids, crate::graph::out_edges(es, mm as usize))[k]).0)
                                    && !st.contains(top_level(crate::graph::labelled(ids, crate::graph::out_edges(es, mm as usize))[k].0))
                                    ==> usage_names(usage@).contains(top_level(crate::graph::labelled(ids, crate::graph::out_edges(es, mm as usize))[k].0)),
                            forall|k: int|
                                0 <= k < d && external_path(ids, (#[trigger] ls[k]).0) && !st.contains(top_level(ls[k].0))
                                    ==> usage_names(usage@).contains(top_level(ls[k].0)),
                        decreases deps@.len() - d,
                    {
                        assert(ls[d as int] == (deps@[d as int].0@, deps@[d as int].1));
                        let ext = has_external_module(modules, &deps[d].0);
                        assert(ext == external_path(ids, ls[d as int].0)) by {
                            if ext {
                                let j = choose|j: int| 0 <= j < modules@.len() && modules@[j].canonical_path@ == deps@[d as int].0@ && modules@[j].origin == ModuleOrigin::External;
                                assert(ids[j] == modules@[j]@);
                            }
                            if external_path(ids, ls[d as int].0) {
                                let j = choose|j: int| 0 <= j < ids.len() && ids[j].1 == ls[d as int].0 && ids[j].0 == ModuleOrigin::External;
                                assert(ids[j] == modules@[j]@);
                            }
                        }
                        proof {
                            lemma_import_use_step(ids, es, st, m as int, d as int);
                        }
                        let ghost hu0 = usage@;
                        assert(ls[d as int].0 == deps@[d as int].0@);
                        assert(forall|p: Seq<char>, x: Seq<char>| has_user(hu0, p, x) <==> declared_use(ue, st, p, x) || import_use(ids, es, st, p, x, m as int, d as int));
                        if ext {
                            let package = extract_root_package_name(deps[d].0.as_str());
                            if !contains_str(stdlib, &package) {
                                record_use(&mut usage, &package, modules[m].canonical_path.as_str(), Ghost(path_list(stdlib@)));
                                assert(package@ == top_level(ls[d as int].0));
                            }
                        }
                        proof {
                            assert forall|p: Seq<char>, x: Seq<char>| has_user(usage@, p, x) <==> declared_use(ue, st, p, x) || import_use(ids, es, st, p, x, m as int, d + 1) by {
                                assert(import_use(ids, es, st, p, x, m as int, d + 1) <==> import_use(ids, es, st, p, x, m as int, d as int) || (!st.contains(p)
                                    && ids[m as int].0 == ModuleOrigin::Internal && ids[m as int].1 == x && external_path(ids, ls[d as int].0) && top_level(ls[d as int].0) == p));
                            }
                        }
                        d = d + 1;
                    }
                    proof {
                        lemma_import_use_next(ids, es, st, m as int, d as int);
                    }
                },
                Err(_) => {},
            }
        } else {
            proof {
                lemma_import_use_next(ids, es, st, m as int, 0);
            }
        }
        m = m + 1;
    }
    // users sorted and de-duplicated, then packages ordered
    let mut out: Vec<DependencyUsage> = Vec::new();
    let mut u: usize = 0;
    while u < usage.len()
        invariant
            u <= usage@.len(),
            forall|a: int, b: int| 0 <= a < b < usage@.len() ==> usage@[a].0@ != usage@[b].0@,
            forall|k: int| 0 <= k < usage@.len() ==> !path_list(stdlib@).contains((#[trigger] usage@[k]).0@),
            forall|k: int| 0 <= k < usage@.len() ==> (#[trigger] usage@[k]).1@.len() > 0,
            out@.len() == u,
            forall|k: int| 0 <= k < out@.len() ==> exists|q: int| 0 <= q < u && (#[trigger] out@[k]).package_name@ == usage@[q].0@,
            forall|k: int| 0 <= k < usage@.len() ==> (#[trigger] usage@[k]).1@.len() > 0,
            forall|k: int|
                0 <= k < out@.len() ==> (#[trigger] out@[k]).used_by_modules@.len() > 0 && forall|x: Seq<char>|
                    path_list(out@[k].used_by_modules@).contains(x) <==> has_user(usage@, out@[k].package_name@, x),
            forall|q: int| 0 <= q < u ==> package_names(out@).contains((#[trigger] usage@[q]).0@),
            forall|a: int, b: int| 0 <= a < b < out@.len() ==> out@[a].package_name@ != out@[b].package_name@,
            forall|k: int| 0 <= k < out@.len() ==> (#[trigger] out@[k]).usage_count == out@[k].used_by_modules@.len(),
            forall|k: int| 0 <= k < out@.len() ==> !path_list(stdlib@).contains((#[trigger] out@[k]).package_name@),
            forall|k: int| 0 <= k < out@.len() ==> strictly_sorted((#[trigger] out@[k]).used_by_modules@),
            forall|a: int, b: int| 0 <= a < b < out@.len() ==> !more_used_first(
                (out@[b].package_name@, out@[b].usage_count),
                (out@[a].package_name@, out@[a].usage_count),
            ),
        decreases usage@.len() - u,
    {
        let users = sorted_unique(copy_strings(&usage[u].1));
        proof {
            let name = usage@[u as int].0@;
            assert forall|x: Seq<char>| path_list(users@).contains(x) <==> has_user(usage@, name, x) by {
                if has_user(usage@, name, x) {
                    let q = choose|q: int| 0 <= q < usage@.len() && usage@[q].0@ == name && path_list(usage@[q].1@).contains(x);
                    if q != u {
                        if q < u {
                            assert(usage@[q].0@ != usage@[u as int].0@);
                        } else {
                            assert(usage@[u as int].0@ != usage@[q].0@);
                        }
                    }
                }
            }
            let x0 = usage@[u as int].1@[0]@;
            assert(path_list(usage@[u as int].1@)[0] == x0);
            assert(path_list(usage@[u as int].1@).contains(x0));
            assert(path_list(users@).contains(x0));
            assert(path_list(users@).len() == users@.len());
        }
        let count = users.len();
        let entry = DependencyUsage { package_name: usage[u].0.clone(), usage_count: count, used_by_modules: users };
        let mut pos: usize = 0;
        while pos < out.len() && !more_used_exec(&entry, &out[pos])
            invariant
                pos <= out@.len(),
                forall|a: int| 0 <= a < pos ==> !more_used_first((entry.package_name@, entry.usage_count), (out@[a].package_name@, out@[a].usage_count)),
            decreases out@.len() - pos,
        {
            pos = pos + 1;
        }
        let ghost old_o = out@;
        let ghost ev = entry;
        assert(ev.package_name@ == usage@[u as int].0@);
        out.insert(pos, entry);
        proof {
            assert forall|q: int| 0 <= q < u + 1 implies package_names(out@).contains((#[trigger] usage@[q]).0@) by {
                if q < u {
                    let k = choose|k: int| 0 <= k < package_names(old_o).len() && package_names(old_o)[k] == usage@[q].0@;
                    let k2 = if k < pos { k } else { k + 1 };
                    assert(out@[k2] == old_o[k]);
                    assert(package_names(out@)[k2] == usage@[q].0@);
                } else {
                    assert(package_names(out@)[pos as int] == usage@[q].0@);
                }
            }
            assert forall|k: int| 0 <= k < out@.len() implies exists|q: int| 0 <= q < u + 1 && (#[trigger] out@[k]).package_name@ == usage@[q].0@ by {
                if k < pos {
                    assert(out@[k] == old_o[k]);
                } else if k > pos {
                    assert(out@[k] == old_o[k - 1]);
                } else {
                    assert(out@[k].package_name@ == usage@[u as int].0@);
                }
            }
            assert forall|a: int, b: int| 0 <= a < b < out@.len() implies out@[a].package_name@ != out@[b].package_name@ by {
                let x = if a < pos { a } else if a > pos { a - 1 } else { -1 };
                let y = if b < pos { b } else if b > pos { b - 1 } else { -1 };
                if a == pos {
                    assert(out@[b] == old_o[y]);
                    let q = choose|q: int| 0 <= q < u && old_o[y].package_name@ == usage@[q].0@;
                } else if b == pos {
                    assert(out@[a] == old_o[x]);
                    let q = choose|q: int| 0 <= q < u && old_o[x].package_name@ == usage@[q].0@;
                } else {
                    assert(out@[a] == old_o[x] && out@[b] == old_o[y]);
                }
            }
            assert forall|k: int|
                0 <= k < out@.len() implies (#[trigger] out@[k]).used_by_modules@.len() > 0 && forall|x: Seq<char>|
                    path_list(out@[k].used_by_modules@).contains(x) <==> has_user(usage@, out@[k].package_name@, x) by {
                if k < pos { assert(out@[k] == old_o[k]); } else if k > pos { assert(out@[k] == old_o[k - 1]); } else {
                    assert(out@[k] == ev);
                }
            }
            assert forall|k: int| 0 <= k < out@.len() implies (#[trigger] out@[k]).usage_count == out@[k].used_by_modules@.len() by {
                if k < pos { assert(out@[k] == old_o[k]); } else if k > pos { assert(out@[k] == old_o[k - 1]); }
            }
            assert forall|k: int| 0 <= k < out@.len() implies !path_list(stdlib@).contains((#[trigger] out@[k]).package_name@) by {
                if k < pos { assert(out@[k] == old_o[k]); } else if k > pos { assert(out@[k] == old_o[k - 1]); }
            }
            assert forall|k: int| 0 <= k < out@.len() implies strictly_sorted((#[trigger] out@[k]).used_by_modules@) by {
                if k < pos { assert(out@[k] == old_o[k]); } else if k > pos { assert(out@[k] == old_o[k - 1]); }
            }
            assert forall|a: int, b: int| 0 <= a < b < out@.len() implies !more_used_first(
                (out@[b].package_name@, out@[b].usage_count),
                (out@[a].package_name@, out@[a].usage_count),
            ) by {
                if a < pos && b == pos {
                    assert(out@[a] == old_o[a]);
                } else if a == pos && b > pos {
                    assert(out@[b] == old_o[b - 1]);
                    let eb = (ev.package_name@, ev.usage_count);
                    let ob = (old_o[b - 1].package_name@, old_o[b - 1].usage_count);
                    let op = (old_o[pos as int].package_name@, old_o[pos as int].usage_count);
                    assert(more_used_first(eb, op));
                    if more_used_first(ob, eb) {
                        lemma_more_used_transitive(ob, eb, op);
                        if b - 1 == pos {
                            crate::text::lemma_lex_irreflexive(op.0);
                        }
                    }
                } else if a < pos && b > pos {
                    assert(out@[a] == old_o[a] && out@[b] == old_o[b - 1]);
                } else if b < pos {
                    assert(out@[a] == old_o[a] && out@[b] == old_o[b]);
                } else {
                    assert(out@[a] == old_o[a - 1] && out@[b] == old_o[b - 1]);
                }
            }
        }
        u = u + 1;
    }
    proof {
        assert forall|k: int| 0 <= k < out@.len() implies (#[trigger] out@[k]).used_by_modules@.len() > 0 && forall|x: Seq<char>|
            path_list(out@[k].used_by_modules@).contains(x) <==> user_of(ids, es, ue, st, out@[k].package_name@, x) by {
            assert forall|x: Seq<char>| path_list(out@[k].used_by_modules@).contains(x) <==> user_of(ids, es, ue, st, out@[k].package_name@, x) by {
                assert(has_user(usage@, out@[k].package_name@, x) <==> declared_use(ue, st, out@[k].package_name@, x) || import_use(ids, es, st, out@[k].package_name@, x, ids.len() as int, 0));
            }
        }
        assert forall|x: Seq<char>| usage_names(usage@).contains(x) implies package_names(out@).contains(x) by {
            let q = choose|q: int| 0 <= q < usage_names(usage@).len() && usage_names(usage@)[q] == x;
            assert(usage@[q].0@ == x);
        }
    }
    out
}

} // verus!

verus! {

/// Some package in use resolves to `x`.
pub open spec fn resolves_to(
    freq: Seq<DependencyUsage>,
    st: Seq<(Seq<char>, Seq<char>)>,
    api: Seq<(Seq<char>, Seq<char>)>,
    x: Seq<char>,
) -> bool {
    exists|k: int| 0 <= k < freq.len() && x == package_for(st, api, (#[trigger] freq[k]).package_name@)
}

/// `undeclared` holds, sorted and once each, the resolved packages in use
/// that are not declared; `unused` the declared ones that are not in use.
pub open spec fn gaps_ok(
    freq: Seq<DependencyUsage>,
    declared: Seq<Seq<char>>,
    st: Seq<(Seq<char>, Seq<char>)>,
    api: Seq<(Seq<char>, Seq<char>)>,
    undeclared: Seq<String>,
    unused: Seq<String>,
) -> bool {
    &&& forall|a: int, b: int| 0 <= a < b < undeclared.len() ==> lex_lt(undeclared[a]@, undeclared[b]@)
    &&& forall|a: int, b: int| 0 <= a < b < unused.len() ==> lex_lt(unused[a]@, unused[b]@)
    &&& forall|x: Seq<char>| path_list(undeclared).contains(x) <==> (!declared.contains(x) && resolves_to(freq, st, api, x))
    &&& forall|x: Seq<char>| path_list(unused).contains(x) <==> (declared.contains(x) && !resolves_to(freq, st, api, x))
}

/// Compares the packages in use, each resolved to its distribution name,
/// with the declared ones: returns those used but not declared and those
/// declared but not used, each sorted and without repeats.
pub fn analyze_dependency_gaps(
    frequency_analysis: &[DependencyUsage],
    declared_deps: &[String],
    mapping: &PackageImportMapping,
) -> (r: (Vec<String>, Vec<String>))
    ensures
        gaps_ok(frequency_analysis@, path_list(declared_deps@), mapping.fixed(), mapping.learned(), r.0@, r.1@),
{
    let mut resolved: Vec<String> = Vec::new();
    let mut i: usize = 0;
    while i < frequency_analysis.len()
        invariant
            i <= frequency_analysis@.len(),
            resolved@.len() == i,
            forall|k: int| 0 <= k < i ==> (#[trigger] resolved@[k])@ == package_for(mapping.fixed(), mapping.learned(), frequency_analysis@[k].package_name@),
        decreases frequency_analysis@.len() - i,
    {
        resolved.push(resolve_import_to_package_name(mapping, frequency_analysis[i].package_name.as_str()));
        i = i + 1;
    }
    let mut undeclared: Vec<String> = Vec::new();
    let mut k: usize = 0;
    while k < resolved.len()
        invariant
            k <= resolved@.len(),
            forall|x: Seq<char>| path_list(undeclared@).contains(x) <==> (!path_list(declared_deps@).contains(x) && path_list(resolved@).take(k as int).contains(x)),
        decreases resolved@.len() - k,
    {
        let ghost t = path_list(resolved@).take(k as int);
        assert(path_list(resolved@).take(k + 1) =~= t.push(resolved@[k as int]@));
        let ghost before = path_list(undeclared@);
        assert(forall|x: Seq<char>| before.contains(x) <==> (!path_list(declared_deps@).contains(x) && t.contains(x)));
        if !contains_str(declared_deps, &resolved[k]) {
            undeclared.push(resolved[k].clone());
            assert(path_list(undeclared@) =~= before.push(resolved@[k as int]@));
        }
        proof {
            assert forall|x: Seq<char>| path_list(undeclared@).contains(x) <==> (!path_list(declared_deps@).contains(x) && t.push(resolved@[k as int]@).contains(x)) by {
                if t.contains(x) {
                    let j = choose|j: int| 0 <= j < t.len() && t[j] == x;
                    assert(t.push(resolved@[k as int]@)[j] == x);
                }
                if t.push(resolved@[k as int]@).contains(x) && x != resolved@[k as int]@ {
                    let j = choose|j: int| 0 <= j < t.len() + 1 && t.push(resolved@[k as int]@)[j] == x;
                    assert(t[j] == x);
                }
                if x == resolved@[k as int]@ {
                    assert(t.push(x)[t.len() as int] == x);
                }
                if path_list(undeclared@).contains(x) && !before.contains(x) {
                    let j = choose|j: int| 0 <= j < path_list(undeclared@).len() && path_list(undeclared@)[j] == x;
                    if j < before.len() {
                        assert(before[j] == x);
                    }
                }
                if before.contains(x) {
                    let j = choose|j: int| 0 <= j < before.len() && before[j] == x;
                    assert(path_list(undeclared@)[j] == x);
                }
                if path_list(undeclared@).len() > before.len() {
                    assert(path_list(undeclared@)[before.len() as int] == resolved@[k as int]@);
                }
            }
        }
        k = k + 1;
    }
    let mut unused: Vec<String> = Vec::new();
    let mut d: usize = 0;
    while d < declared_deps.len()
        invariant
            d <= declared_deps@.len(),
            forall|x: Seq<char>| path_list(unused@).contains(x) <==> (!path_list(resolved@).contains(x) && path_list(declared_deps@).take(d as int).contains(x)),
        decreases declared_deps@.len() - d,
    {
        let ghost t = path_list(declared_deps@).take(d as int);
        assert(path_list(declared_deps@).take(d + 1) =~= t.push(declared_deps@[d as int]@));
        let ghost before = path_list(unused@);
        assert(forall|x: Seq<char>| before.contains(x) <==> (!path_list(resolved@).contains(x) && t.contains(x)));
        if !contains_str(resolved.as_slice(), &declared_deps[d]) {
            unused.push(declared_deps[d].clone());
            assert(path_list(unused@) =~= before.push(declared_deps@[d as int]@));
        }
        proof {
            assert forall|x: Seq<char>| path_list(unused@).contains(x) <==> (!path_list(resolved@).contains(x) && t.push(declared_deps@[d as int]@).contains(x)) by {
                if t.contains(x) {
                    let j = choose|j: int| 0 <= j < t.len() && t[j] == x;
                    assert(t.push(declared_deps@[d as int]@)[j] == x);
                }
                if t.push(declared_deps@[d as int]@).contains(x) && x != declared_deps@[d as int]@ {
                    let j = choose|j: int| 0 <= j < t.len() + 1 && t.push(declared_deps@[d as int]@)[j] == x;
                    assert(t[j] == x);
                }
                if x == declared_deps@[d as int]@ {
                    assert(t.push(x)[t.len() as int] == x);
                }
                if path_list(unused@).contains(x) && !before.contains(x) {
                    let j = choose|j: int| 0 <= j < path_list(unused@).len() && path_list(unused@)[j] == x;
                    if j < before.len() {
                        assert(before[j] == x);
                    }
                }
                if before.contains(x) {
                    let j = choose|j: int| 0 <= j < before.len() && before[j] == x;
                    assert(path_list(unused@)[j] == x);
                }
                if path_list(unused@).len() > before.len() {
                    assert(path_list(unused@)[before.len() as int] == declared_deps@[d as int]@);
                }
            }
        }
        d = d + 1;
    }
    let ghost rv = path_list(resolved@);
    assert(rv.take(resolved@.len() as int) =~= rv);
    assert(path_list(declared_deps@).take(declared_deps@.len() as int) =~= path_list(declared_deps@));
    proof {
        assert forall|x: Seq<char>| rv.contains(x) <==> exists|k: int|
            0 <= k < frequency_analysis@.len() && x == package_for(mapping.fixed(), mapping.learned(), (#[trigger] frequency_analysis@[k]).package_name@) by {
            if rv.contains(x) {
                let j = choose|j: int| 0 <= j < rv.len() && rv[j] == x;
                assert(resolved@[j]@ == x);
            }
            if exists|k: int| 0 <= k < frequency_analysis@.len() && x == package_for(mapping.fixed(), mapping.learned(), (#[trigger] frequency_analysis@[k]).package_name@) {
                let k = choose|k: int| 0 <= k < frequency_analysis@.len() && x == package_for(mapping.fixed(), mapping.learned(), (#[trigger] frequency_analysis@[k]).package_name@);
                assert(rv[k] == resolved@[k]@);
            }
        }
    }
    let undeclared = sorted_unique(undeclared);
    let unused = sorted_unique(unused);
    (undeclared, unused)
}

/// External-dependency analysis: package usage (see `collect_package_usage`)
/// and its comparison with the declared dependencies.
pub fn analyze_external_dependencies(
    graph: &DependencyGraph,
    used_externals: &[String],
    declared_deps: &[String],
    stdlib: &[String],
    mapping: &PackageImportMapping,
) -> (r: Result<ExternalAnalysisResult, GraphError>)
    requires
        graph.wf(),
    ensures
        r matches Ok(res) && res.summary.total_used_packages == res.frequency_analysis@.len()
            && res.declared_externals_count == used_externals@.len() && usage_ok(path_list(stdlib@), res.frequency_analysis@)
            && usage_complete(graph.ids(), graph.edges(), path_list(used_externals@), path_list(stdlib@), package_names(res.frequency_analysis@))
            && users_exact(graph.ids(), graph.edges(), path_list(used_externals@), path_list(stdlib@), res.frequency_analysis@)
            && gaps_ok(res.frequency_analysis@, path_list(declared_deps@), mapping.fixed(), mapping.learned(), res.undeclared_dependencies@, res.unused_dependencies@),
{
    let frequency_analysis = collect_package_usage(graph, used_externals, stdlib);
    let (undeclared_dependencies, unused_dependencies) = analyze_dependency_gaps(
        frequency_analysis.as_slice(),
        declared_deps,
        mapping,
    );
    let summary = ExternalDependencySummary { total_used_packages: frequency_analysis.len() };
    Ok(
        ExternalAnalysisResult {
            frequency_analysis,
            summary,
            undeclared_dependencies,
            unused_dependencies,
            declared_externals_count: used_externals.len(),
        },
    )
}

/// Lines for the packages with usage in `[lo, hi)`.
pub open spec fn tier_lines(ds: Seq<DependencyUsage>, lo: usize, hi: usize) -> Seq<char>
    decreases ds.len(),
{
    if ds.len() == 0 {
        Seq::empty()
    } else {
        let d = ds.last();
        tier_lines(ds.drop_last(), lo, hi) + if lo <= d.usage_count && d.usage_count < hi {
            "  "@ + d.package_name@ + " (used by "@ + crate::text::decimal(d.usage_count as nat) + " modules)\n"@
        } else {
            Seq::empty()
        }
    }
}

/// A titled usage tier; empty when no package falls in it.
pub open spec fn usage_tier(ds: Seq<DependencyUsage>, lo: usize, hi: usize, title: Seq<char>) -> Seq<char> {
    if tier_lines(ds, lo, hi).len() == 0 {
        Seq::empty()
    } else {
        title + tier_lines(ds, lo, hi) + "\n"@
    }
}

/// One indented line per name.
pub open spec fn name_lines(ns: Seq<Seq<char>>) -> Seq<char>
    decreases ns.len(),
{
    if ns.len() == 0 {
        Seq::empty()
    } else {
        name_lines(ns.drop_last()) + "  "@ + ns.last() + "\n"@
    }
}

fn push_name_lines(out: &mut String, v: &Vec<String>)
    ensures
        final(out)@ == old(out)@ + name_lines(path_list(v@)),
{
    let ghost start = out@;
    let ghost pv = path_list(v@);
    let mut i: usize = 0;
    assert(pv.take(0) =~= Seq::<Seq<char>>::empty());
    while i < v.len()
        invariant
            pv == path_list(v@),
            i <= pv.len(),
            out@ == start + name_lines(pv.take(i as int)),
        decreases pv.len() - i,
    {
        assert(pv.take(i + 1).drop_last() =~= pv.take(i as int));
        out.append("  ");
        out.append(v[i].as_str());
        out.append("\n");
        assert(out@ =~= start + name_lines(pv.take(i + 1)));
        i = i + 1;
    }
    assert(pv.take(i as int) =~= pv);
}

fn push_usage_tier(out: &mut String, deps: &Vec<DependencyUsage>, lo: usize, hi: usize, title: &str)
    ensures
        final(out)@ == old(out)@ + usage_tier(deps@, lo, hi, title@),
{
    let ghost start = out@;
    let ghost ds = deps@;
    let mut lines = String::new();
    let mut i: usize = 0;
    assert(ds.take(0) =~= Seq::<DependencyUsage>::empty());
    while i < deps.len()
        invariant
            ds == deps@,
            i <= ds.len(),
            lines@ == tier_lines(ds.take(i as int), lo, hi),
        decreases ds.len() - i,
    {
        assert(ds.take(i + 1).drop_last() =~= ds.take(i as int));
        assert(ds.take(i + 1).last() == ds[i as int]);
        let ghost before = lines@;
        if deps[i].usage_count >= lo && deps[i].usage_count < hi {
            lines.append("  ");
            lines.append(deps[i].package_name.as_str());
            lines.append(" (used by ");
            push_decimal(&mut lines, deps[i].usage_count);
            lines.append(" modules)\n");
        }
        assert(lines@ =~= tier_lines(ds.take(i + 1), lo, hi));
        i = i + 1;
    }
    assert(ds.take(i as int) =~= ds);
    if lines.as_str().unicode_len() > 0 {
        out.append(title);
        out.append(lines.as_str());
        out.append("\n");
    }
    assert(out@ =~= start + usage_tier(ds, lo, hi, title@));
}

/// The summary lines of the external report.
pub open spec fn external_summary(r: ExternalAnalysisResult) -> Seq<char> {
    "=== Summary ===\n"@ + "Total external packages used: "@ + crate::text::decimal(r.summary.total_used_packages as nat)
        + "\n"@ + if r.declared_externals_count > 0 {
        "Manually declared externals: "@ + crate::text::decimal(r.declared_externals_count as nat) + "\n"@
    } else {
        Seq::empty()
    }
}

/// A titled list of package names; empty for no names.
pub open spec fn name_section(title: Seq<char>, note: Seq<char>, ns: Seq<Seq<char>>) -> Seq<char> {
    if ns.len() > 0 {
        title + note + name_lines(ns)
    } else {
        Seq::empty()
    }
}

/// Whether declared and used packages agree.
pub open spec fn sync_status(und: nat, unu: nat) -> Seq<char> {
    "\n=== Dependency Sync Status ===\n"@ + if und > 0 || unu > 0 {
        "Undeclared dependencies: "@ + crate::text::decimal(und) + "\n"@ + "Unused dependencies: "@
            + crate::text::decimal(unu) + "\n"@
    } else {
        "✓ All used dependencies are properly declared in pyproject.toml\n"@
            + "✓ No unused dependencies found\n"@
    }
}

/// The summary, gap lists and sync status closing the external report.
pub open spec fn external_tail(r: ExternalAnalysisResult) -> Seq<char> {
    let und = path_list(r.undeclared_dependencies@);
    let unu = path_list(r.unused_dependencies@);
    external_summary(r) + name_section(
        "\n=== Undeclared Dependencies ===\n"@,
        "(Used in code but not declared in pyproject.toml)\n"@,
        und,
    ) + name_section(
        "\n=== Unused Dependencies ===\n"@,
        "(Declared in pyproject.toml but not used in code)\n"@,
        unu,
    ) + sync_status(und.len(), unu.len())
}

fn push_name_section(out: &mut String, title: &str, note: &str, v: &Vec<String>)
    ensures
        final(out)@ == old(out)@ + name_section(title@, note@, path_list(v@)),
{
    let ghost start = out@;
    if v.len() > 0 {
        out.append(title);
        out.append(note);
        push_name_lines(out, v);
    }
    assert(out@ =~= start + name_section(title@, note@, path_list(v@)));
}

fn push_sync_status(out: &mut String, und: usize, unu: usize)
    ensures
        final(out)@ == old(out)@ + sync_status(und as nat, unu as nat),
{
    let ghost start = out@;
    out.append("\n=== Dependency Sync Status ===\n");
    if und > 0 || unu > 0 {
        out.append("Undeclared dependencies: ");
        push_decimal(out, und);
        out.append("\n");
        out.append("Unused dependencies: ");
        push_decimal(out, unu);
        out.append("\n");
    } else {
        out.append("✓ All used dependencies are properly declared in pyproject.toml\n");
        out.append("✓ No unused dependencies found\n");
    }
    assert(out@ =~= start + sync_status(und as nat, unu as nat));
}

/// The text report of an external-dependency analysis.
pub open spec fn external_report(r: ExternalAnalysisResult) -> Seq<char> {
    let ds = r.frequency_analysis@;
    "External Dependencies Analysis:\n\n"@ + if ds.len() == 0 {
        "No external dependencies found.\n"@
    } else {
        "=== Frequency Analysis ===\n"@ + usage_tier(ds, 30, usize::MAX, "High usage (10+ modules):\n"@)
            + usage_tier(ds, 5, 30, "Medium usage (5-9 modules):\n"@) + usage_tier(
            ds,
            0,
            5,
            "Low usage (1-4 modules):\n"@,
        ) + external_tail(r)
    }
}

fn push_external_tail(out: &mut String, result: &ExternalAnalysisResult)
    ensures
        final(out)@ == old(out)@ + external_tail(*result),
{
    let ghost start = out@;
    out.append("=== Summary ===\n");
    out.append("Total external packages used: ");
    push_decimal(out, result.summary.total_used_packages);
    out.append("\n");
    if result.declared_externals_count > 0 {
        out.append("Manually declared externals: ");
        push_decimal(out, result.declared_externals_count);
        out.append("\n");
    }
    assert(out@ =~= start + external_summary(*result));
    push_name_section(
        out,
        "\n=== Undeclared Dependencies ===\n",
        "(Used in code but not declared in pyproject.toml)\n",
        &result.undeclared_dependencies,
    );
    push_name_section(
        out,
        "\n=== Unused Dependencies ===\n",
        "(Declared in pyproject.toml but not used in code)\n",
        &result.unused_dependencies,
    );
    assert(path_list(result.undeclared_dependencies@).len() == result.undeclared_dependencies@.len());
    assert(path_list(result.unused_dependencies@).len() == result.unused_dependencies@.len());
    push_sync_status(out, result.undeclared_dependencies.len(), result.unused_dependencies.len());
}

/// Formats an external-dependency analysis as text, packages grouped by how
/// widely they are used.
pub fn format_text_grouped(result: &ExternalAnalysisResult) -> (r: String)
    ensures
        r@ == external_report(*result),
{
    let mut output = String::from_str("External Dependencies Analysis:\n\n");
    if result.frequency_analysis.len() == 0 {
        output.append("No external dependencies found.\n");
        return output;
    }
    output.append("=== Frequency Analysis ===\n");
    push_usage_tier(&mut output, &result.frequency_analysis, 30, usize::MAX, "High usage (10+ modules):\n");
    push_usage_tier(&mut output, &result.frequency_analysis, 5, 30, "Medium usage (5-9 modules):\n");
    push_usage_tier(&mut output, &result.frequency_analysis, 0, 5, "Low usage (1-4 modules):\n");
    push_external_tail(&mut output, result);
    output
}

} // verus!

verus! {

/// What one request to the package index came back with.
#[derive(Debug)]
pub enum IndexResponse {
    /// A successful answer listing the package's top-level modules.
    TopLevel(Vec<String>),
    /// A successful answer whose body could not be read.
    Unreadable,
    /// The index refused the request (a 4xx status).
    ClientError,
    /// The request failed in transport or with another status.
    Failed,
}

/// What to do after a request.
#[derive(Debug)]
pub enum IndexStep {
    /// Use these import names.
    Done(Vec<String>),
    /// Wait this many milliseconds and ask again.
    Retry(u64),
    /// Ask again at once.
    RetryNow,
}

/// How many times a package is asked about after the first request.
pub const MAX_INDEX_RETRIES: u32 = 2;

/// The import name guessed from a package name: `-` read as `_`.
pub open spec fn dashes_to_underscores(s: Seq<char>) -> Seq<char> {
    s.map_values(|c: char| if c == '-' { '_' } else { c })
}

/// Relies on `str::replace`: every `-` of `s` is replaced by `_`.
#[verifier::external_body]
fn underscored(s: &str) -> (r: String)
    ensures
        r@ == dashes_to_underscores(s@),
{
    s.replace('-', "_")
}

/// The step after request number `attempt` (from 0) about `package_name`
/// came back as `response`: a non-empty module list is the answer; an empty
/// one, a refusal, or a failure at the last attempt fall back to the
/// package name with `-` read as `_`; an unreadable body is asked again at
/// once, another failure after `100 * (attempt + 1)` milliseconds.
pub fn next_index_step(attempt: u32, package_name: &str, response: IndexResponse) -> (r: IndexStep)
    requires
        attempt <= MAX_INDEX_RETRIES,
    ensures
        ({
            let fallback = seq![dashes_to_underscores(package_name@)];
            match response {
                IndexResponse::TopLevel(v) => if v@.len() > 0 {
                    r == IndexStep::Done(v)
                } else {
                    r matches IndexStep::Done(f) && path_list(f@) == fallback
                },
                IndexResponse::ClientError => r matches IndexStep::Done(f) && path_list(f@) == fallback,
                IndexResponse::Unreadable => if attempt == MAX_INDEX_RETRIES {
                    r matches IndexStep::Done(f) && path_list(f@) == fallback
                } else {
                    r is RetryNow
                },
                IndexResponse::Failed => if attempt == MAX_INDEX_RETRIES {
                    r matches IndexStep::Done(f) && path_list(f@) == fallback
                } else {
                    r matches IndexStep::Retry(w) && w == 100 * (attempt + 1)
                },
            }
        }),
{
    let fallback = || -> (f: Vec<String>)
        ensures
            path_list(f@) == seq![dashes_to_underscores(package_name@)],
        {
            let mut f: Vec<String> = Vec::new();
            f.push(underscored(package_name));
            assert(path_list(f@) =~= seq![dashes_to_underscores(package_name@)]);
            f
        };
    match response {
        IndexResponse::TopLevel(v) => {
            if v.len() > 0 {
                IndexStep::Done(v)
            } else {
                IndexStep::Done(fallback())
            }
        },
        IndexResponse::ClientError => IndexStep::Done(fallback()),
        IndexResponse::Unreadable => {
            if attempt == MAX_INDEX_RETRIES {
                IndexStep::Done(fallback())
            } else {
                IndexStep::RetryNow
            }
        },
        IndexResponse::Failed => {
            if attempt == MAX_INDEX_RETRIES {
                IndexStep::Done(fallback())
            } else {
                IndexStep::Retry(100 * (attempt as u64 + 1))
            }
        },
    }
}

} // verus!
