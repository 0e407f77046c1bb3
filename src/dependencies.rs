//! What a module, together with its submodules, depends on.
use crate::common::{collapsed, entries_view, filter_hierarchical};
use crate::graph::{
    node_of, path_list, transitive_ok, typed_list, DependencyGraph, DependencyType, GraphError,
};
use crate::impact::{affected_lines, find_module_by_name, push_affected_lines, without_tests};
use crate::imports::{ModuleIdentifier, ModuleKey, ModuleOrigin};
use crate::text::{lex_lt, push_decimal, str_lt};
use vstd::prelude::*;

verus! {

/// `j` is the first node with path `p`.
pub open spec fn first_with_path(ids: Seq<ModuleKey>, p: Seq<char>, j: int) -> bool {
    0 <= j < ids.len() && ids[j].1 == p && forall|q: int| 0 <= q < j ==> ids[q].1 != p
}

/// A path counts as external unless the first node with it is internal.
pub open spec fn counts_as_external(ids: Seq<ModuleKey>, p: Seq<char>) -> bool {
    forall|j: int| first_with_path(ids, p, j) ==> ids[j].0 == ModuleOrigin::External
}

/// The entries of `s` whose path counts as external, or as internal.
pub open spec fn by_origin(ids: Seq<ModuleKey>, s: Seq<(Seq<char>, DependencyType)>, external: bool) -> Seq<
    (Seq<char>, DependencyType),
>
    decreases s.len(),
{
    if s.len() == 0 {
        Seq::empty()
    } else {
        let p = by_origin(ids, s.drop_last(), external);
        if counts_as_external(ids, s.last().0) == external {
            p.push(s.last())
        } else {
            p
        }
    }
}

/// Whether the path counts as external.
fn is_external_path(graph: &DependencyGraph, p: &String) -> (r: bool)
    requires
        graph.wf(),
    ensures
        r == counts_as_external(graph.ids(), p@),
{
    match graph.find_by_path(p) {
        None => true,
        Some(j) => {
            let modules = graph.all_modules();
            assert(modules@[j as int]@ == graph.ids()[j as int]);
            assert(first_with_path(graph.ids(), p@, j as int));
            proof {
                assert forall|k: int| first_with_path(graph.ids(), p@, k) implies k == j by {
                    if k < j {
                    } else if j < k {
                        assert(graph.ids()[j as int].1 == p@);
                    }
                }
            }
            modules[j].origin == ModuleOrigin::External
        },
    }
}

/// The strings of `v`, each once, in increasing order.
pub fn sorted_unique(v: Vec<String>) -> (r: Vec<String>)
    ensures
        forall|a: int, b: int| 0 <= a < b < r@.len() ==> lex_lt(r@[a]@, r@[b]@),
        forall|x: Seq<char>| path_list(r@).contains(x) <==> path_list(v@).contains(x),
{
    let mut r: Vec<String> = Vec::new();
    let mut i: usize = 0;
    while i < v.len()
        invariant
            i <= v@.len(),
            forall|a: int, b: int| 0 <= a < b < r@.len() ==> lex_lt(r@[a]@, r@[b]@),
            forall|x: Seq<char>| path_list(r@).contains(x) <==> path_list(v@).take(i as int).contains(x),
        decreases v@.len() - i,
    {
        let ghost x = v@[i as int]@;
        let ghost t = path_list(v@).take(i as int);
        assert(path_list(v@).take(i + 1) =~= t.push(x));
        let mut pos: usize = 0;
        while pos < r.len() && str_lt(&r[pos], &v[i])
            invariant
                pos <= r@.len(),
                forall|a: int| 0 <= a < pos ==> lex_lt(r@[a]@, x),
                i < v@.len(),
                x == v@[i as int]@,
            decreases r@.len() - pos,
        {
            pos = pos + 1;
        }
        let ghost old_r = r@;
        assert(forall|y: Seq<char>| path_list(old_r).contains(y) <==> t.contains(y));
        if pos < r.len() && r[pos] == v[i] {
            proof {
                assert forall|y: Seq<char>| path_list(r@).contains(y) <==> t.push(x).contains(y) by {
                    if y == x {
                        assert(path_list(r@)[pos as int] == x);
                        assert(t.push(x)[t.len() as int] == x);
                    } else if t.push(x).contains(y) {
                        let j = choose|j: int| 0 <= j < t.len() + 1 && t.push(x)[j] == y;
                        assert(t[j] == y);
                        assert(t.contains(y));
                    } else if path_list(r@).contains(y) {
                        assert(t.contains(y));
                        let j = choose|j: int| 0 <= j < t.len() && t[j] == y;
                        assert(t.push(x)[j] == y);
                    }
                }
            }
        } else {
            proof {
                if pos < r@.len() {
                    crate::text::lemma_lex_total(r@[pos as int]@, x);
                }
            }
            r.insert(pos, v[i].clone());
            proof {
                assert forall|a: int, b: int| 0 <= a < b < r@.len() implies lex_lt(r@[a]@, r@[b]@) by {
                    if a < pos && b == pos {
                    } else if a == pos && b > pos {
                        if b - 1 > pos as int {
                            crate::text::lemma_lex_transitive(x, old_r[pos as int]@, old_r[b - 1]@);
                        }
                    } else if a < pos && b > pos {
                        assert(r@[a] == old_r[a] && r@[b] == old_r[b - 1]);
                    } else if b < pos {
                        assert(r@[a] == old_r[a] && r@[b] == old_r[b]);
                    } else {
                        assert(r@[a] == old_r[a - 1] && r@[b] == old_r[b - 1]);
                    }
                }
                assert forall|y: Seq<char>| path_list(r@).contains(y) <==> t.push(x).contains(y) by {
                    if path_list(r@).contains(y) {
                        let k = choose|k: int| 0 <= k < r@.len() && path_list(r@)[k] == y;
                        if k == pos {
                            assert(t.push(x)[t.len() as int] == y);
                        } else {
                            let k2 = if k < pos { k } else { k - 1 };
                            assert(path_list(old_r)[k2] == y);
                            assert(t.contains(y));
                            let j = choose|j: int| 0 <= j < t.len() && t[j] == y;
                            assert(t.push(x)[j] == y);
                        }
                    }
                    if t.push(x).contains(y) {
                        let j = choose|j: int| 0 <= j < t.len() + 1 && t.push(x)[j] == y;
                        if j == t.len() {
                            assert(path_list(r@)[pos as int] == y);
                        } else {
                            assert(t[j] == y);
                            assert(t.contains(y));
                            assert(path_list(old_r).contains(y));
                            let k = choose|k: int| 0 <= k < old_r.len() && path_list(old_r)[k] == y;
                            if k < pos {
                                assert(path_list(r@)[k] == y);
                            } else {
                                assert(path_list(r@)[k + 1] == y);
                            }
                        }
                    }
                }
            }
        }
        i = i + 1;
    }
    assert(path_list(v@).take(i as int) =~= path_list(v@));
    r
}

/// The dependency report of node `start`: from its transitive dependencies
/// `t` with test packages dropped, the external paths (sorted, each once),
/// the internal ones collapsed, and the count of both before either step.
pub open spec fn dependencies_ok(
    ids: Seq<ModuleKey>,
    es: Seq<(usize, usize, DependencyType)>,
    start: usize,
    ext: Seq<Seq<char>>,
    internal: Seq<(Seq<char>, DependencyType, usize)>,
    total: int,
) -> bool {
    exists|t: Seq<(Seq<char>, DependencyType)>|
        #[trigger] transitive_ok(ids, es, start, false, t) && {
            let a = without_tests(t);
            let e = by_origin(ids, a, true);
            let i = by_origin(ids, a, false);
            &&& forall|x: int, y: int| 0 <= x < y < ext.len() ==> lex_lt(ext[x], ext[y])
            &&& forall|p: Seq<char>|
                ext.contains(p) <==> e.map_values(|q: (Seq<char>, DependencyType)| q.0).contains(p)
            &&& collapsed(i, internal)
            &&& total == e.len() + i.len()
        }
}

/// The external and internal dependencies of a module and its submodules.
pub fn get_dependencies_analysis(graph: &DependencyGraph, module_id: &ModuleIdentifier) -> (r:
    Result<(Vec<String>, Vec<(String, DependencyType, usize)>, usize), GraphError>)
    requires
        graph.wf(),
    ensures
        r is Err <==> !graph.ids().contains(module_id@),
        r matches Err(GraphError::NotFound(p)) ==> p@ == module_id.canonical_path@,
        r matches Ok(x) ==> dependencies_ok(
            graph.ids(),
            graph.edges(),
            node_of(graph.ids(), module_id@) as usize,
            path_list(x.0@),
            entries_view(x.1@),
            x.2 as int,
        ),
{
    let all = match graph.get_transitive_dependencies_with_types(module_id) {
        Ok(t) => t,
        Err(e) => {
            return Err(e);
        },
    };
    let ghost t = typed_list(all@);
    let all = drop_tests(all);
    let ghost a = typed_list(all@);
    let ghost ids = graph.ids();
    let mut external: Vec<String> = Vec::new();
    let mut internal: Vec<(String, DependencyType)> = Vec::new();
    let mut i: usize = 0;
    while i < all.len()
        invariant
            graph.wf(),
            ids == graph.ids(),
            a == typed_list(all@),
            i <= a.len(),
            path_list(external@) == by_origin(ids, a.take(i as int), true).map_values(
                |q: (Seq<char>, DependencyType)| q.0,
            ),
            typed_list(internal@) == by_origin(ids, a.take(i as int), false),
            external@.len() + internal@.len() == i,
        decreases a.len() - i,
    {
        assert(a.take(i + 1).drop_last() =~= a.take(i as int));
        assert(a.take(i + 1).last() == (all@[i as int].0@, all@[i as int].1));
        let ext = is_external_path(graph, &all[i].0);
        if ext {
            let ghost old_e = external@;
            external.push(all[i].0.clone());
            assert(path_list(external@) =~= path_list(old_e).push(all@[i as int].0@));
            assert(by_origin(ids, a.take(i + 1), true).map_values(|q: (Seq<char>, DependencyType)| q.0)
                =~= by_origin(ids, a.take(i as int), true).map_values(|q: (Seq<char>, DependencyType)| q.0).push(all@[i as int].0@));
        } else {
            let ghost old_i = internal@;
            internal.push((all[i].0.clone(), all[i].1));
            assert(typed_list(internal@) =~= typed_list(old_i).push(a[i as int]));
        }
        i = i + 1;
    }
    assert(a.take(i as int) =~= a);
    let total = external.len() + internal.len();
    let deduplicated_internal = filter_hierarchical(internal);
    let external = sorted_unique(external);
    proof {
        assert(transitive_ok(ids, graph.edges(), node_of(ids, module_id@) as usize, false, t));
    }
    Ok((external, deduplicated_internal, total))
}

/// Drops the entries whose path belongs to a test package.
fn drop_tests(v: Vec<(String, DependencyType)>) -> (r: Vec<(String, DependencyType)>)
    ensures
        typed_list(r@) == without_tests(typed_list(v@)),
{
    crate::impact::drop_test_modules(v)
}

/// The result of a dependency analysis.
#[derive(Debug)]
pub struct DependencyAnalysisResult {
    /// The module analysed.
    pub target_module: String,
    /// External packages depended on, sorted, each once.
    pub external_dependencies: Vec<String>,
    /// Internal modules depended on, collapsed, with fold counts.
    pub internal_dependencies: Vec<(String, DependencyType, usize)>,
    /// How many dependencies there are before de-duplication and collapsing.
    pub total_dependency_count: usize,
}

/// Dependency analysis of the module with path `module_name`.
pub fn analyze_dependencies(graph: &DependencyGraph, module_name: &str) -> (r: Result<
    DependencyAnalysisResult,
    GraphError,
>)
    requires
        graph.wf(),
    ensures
        r is Err <==> forall|j: int| 0 <= j < graph.ids().len() ==> graph.ids()[j].1 != module_name@,
        r matches Err(GraphError::NotFound(p)) ==> p@ == module_name@,
        r matches Ok(res) ==> res.target_module@ == module_name@ && exists|j: int|
            first_with_path(graph.ids(), module_name@, j) && dependencies_ok(
                graph.ids(),
                graph.edges(),
                j as usize,
                path_list(res.external_dependencies@),
                entries_view(res.internal_dependencies@),
                res.total_dependency_count as int,
            ),
{
    let name = String::from_str(module_name);
    let target = match find_module_by_name(graph, &name) {
        Some(m) => m,
        None => {
            return Err(GraphError::NotFound(name));
        },
    };
    proof {
        let j = choose|j: int|
            0 <= j < graph.ids().len() && graph.ids()[j] == target@ && target@.1 == module_name@ && forall|
                q: int,
            | 0 <= q < j ==> graph.ids()[q].1 != module_name@;
        graph.lemma_node_of(j);
        assert(first_with_path(graph.ids(), module_name@, j));
    }
    match get_dependencies_analysis(graph, &target) {
        Ok((external_dependencies, internal_dependencies, total)) => Ok(
            DependencyAnalysisResult {
                target_module: target.canonical_path,
                external_dependencies,
                internal_dependencies,
                total_dependency_count: total,
            },
        ),
        Err(e) => Err(e),
    }
}

/// One indented line per external package.
pub open spec fn package_lines(ps: Seq<Seq<char>>) -> Seq<char>
    decreases ps.len(),
{
    if ps.len() == 0 {
        Seq::empty()
    } else {
        package_lines(ps.drop_last()) + "  "@ + ps.last() + "\n"@
    }
}

fn push_package_lines(out: &mut String, ps: &Vec<String>)
    ensures
        final(out)@ == old(out)@ + package_lines(path_list(ps@)),
{
    let ghost start = out@;
    let ghost pv = path_list(ps@);
    let mut i: usize = 0;
    assert(pv.take(0) =~= Seq::<Seq<char>>::empty());
    while i < ps.len()
        invariant
            pv == path_list(ps@),
            i <= pv.len(),
            out@ == start + package_lines(pv.take(i as int)),
        decreases pv.len() - i,
    {
        assert(pv.take(i + 1).drop_last() =~= pv.take(i as int));
        out.append("  ");
        out.append(ps[i].as_str());
        out.append("\n");
        assert(out@ =~= start + package_lines(pv.take(i + 1)));
        i = i + 1;
    }
    assert(pv.take(i as int) =~= pv);
}

/// The closing line of a dependency report.
pub open spec fn dependency_total_line(total: nat, ext: nat, internal: nat) -> Seq<char> {
    "Total: "@ + crate::text::decimal(total) + " dependencies ("@ + crate::text::decimal(ext)
        + " external, "@ + crate::text::decimal(internal) + " internal)\n"@
}

fn push_total_line(out: &mut String, result: &DependencyAnalysisResult)
    ensures
        final(out)@ == old(out)@ + dependency_total_line(
            result.total_dependency_count as nat,
            result.external_dependencies@.len(),
            result.internal_dependencies@.len(),
        ),
{
    let ghost start = out@;
    out.append("Total: ");
    push_decimal(out, result.total_dependency_count);
    out.append(" dependencies (");
    push_decimal(out, result.external_dependencies.len());
    out.append(" external, ");
    push_decimal(out, result.internal_dependencies.len());
    out.append(" internal)\n");
    assert(out@ =~= start + dependency_total_line(
        result.total_dependency_count as nat,
        result.external_dependencies@.len(),
        result.internal_dependencies@.len(),
    ));
}

/// The plain-text report of a dependency analysis.
pub open spec fn dependencies_text(
    t: Seq<char>,
    ext: Seq<Seq<char>>,
    internal: Seq<(Seq<char>, DependencyType, usize)>,
    total: nat,
) -> Seq<char> {
    "Dependencies of '"@ + t + "':\n"@ + (if ext.len() == 0 && internal.len() == 0 {
        "(no dependencies found)\n"@
    } else {
        (if ext.len() > 0 {
            "External packages:\n"@ + package_lines(ext)
        } else {
            Seq::empty()
        }) + (if internal.len() > 0 {
            (if ext.len() > 0 {
                "\n"@
            } else {
                Seq::empty()
            }) + "Internal modules:\n"@ + affected_lines(internal, "  "@)
        } else {
            Seq::empty()
        })
    }) + dependency_total_line(total, ext.len(), internal.len())
}

/// Formats a dependency analysis as plain text.
pub fn format_text(result: &DependencyAnalysisResult) -> (r: String)
    ensures
        r@ == dependencies_text(
            result.target_module@,
            path_list(result.external_dependencies@),
            entries_view(result.internal_dependencies@),
            result.total_dependency_count as nat,
        ),
{
    let mut output = String::from_str("Dependencies of '");
    output.append(result.target_module.as_str());
    output.append("':\n");
    if result.external_dependencies.len() == 0 && result.internal_dependencies.len() == 0 {
        output.append("(no dependencies found)\n");
    } else {
        if result.external_dependencies.len() > 0 {
            output.append("External packages:\n");
            push_package_lines(&mut output, &result.external_dependencies);
        }
        if result.internal_dependencies.len() > 0 {
            if result.external_dependencies.len() > 0 {
                output.append("\n");
            }
            output.append("Internal modules:\n");
            push_affected_lines(&mut output, &result.internal_dependencies, "  ");
        }
    }
    push_total_line(&mut output, result);
    assert(output@ =~= dependencies_text(
        result.target_module@,
        path_list(result.external_dependencies@),
        entries_view(result.internal_dependencies@),
        result.total_dependency_count as nat,
    ));
    output
}

/// The grouped report of a dependency analysis: as `dependencies_text`,
/// with the internal modules listed as a tree.
pub open spec fn dependencies_grouped_text(
    t: Seq<char>,
    ext: Seq<Seq<char>>,
    internal: Seq<(Seq<char>, DependencyType, usize)>,
    total: nat,
) -> Seq<char> {
    "Dependencies of '"@ + t + "':\n"@ + (if ext.len() == 0 && internal.len() == 0 {
        "(no dependencies found)\n"@
    } else {
        (if ext.len() > 0 {
            "External packages:\n"@ + package_lines(ext)
        } else {
            Seq::empty()
        }) + (if internal.len() > 0 {
            (if ext.len() > 0 {
                "\n"@
            } else {
                Seq::empty()
            }) + "Internal modules:\n"@ + crate::common::grouped_listing(internal, internal.len() as int)
        } else {
            Seq::empty()
        })
    }) + dependency_total_line(total, ext.len(), internal.len())
}

/// Formats a dependency analysis with internal modules grouped by package.
pub fn format_text_grouped(result: &DependencyAnalysisResult) -> (r: String)
    requires
        crate::common::total(entries_view(result.internal_dependencies@)) <= usize::MAX,
    ensures
        r@ == dependencies_grouped_text(
            result.target_module@,
            path_list(result.external_dependencies@),
            entries_view(result.internal_dependencies@),
            result.total_dependency_count as nat,
        ),
{
    let mut output = String::from_str("Dependencies of '");
    output.append(result.target_module.as_str());
    output.append("':\n");
    if result.external_dependencies.len() == 0 && result.internal_dependencies.len() == 0 {
        output.append("(no dependencies found)\n");
    } else {
        if result.external_dependencies.len() > 0 {
            output.append("External packages:\n");
            push_package_lines(&mut output, &result.external_dependencies);
        }
        if result.internal_dependencies.len() > 0 {
            if result.external_dependencies.len() > 0 {
                output.append("\n");
            }
            output.append("Internal modules:\n");
            output.append(
                crate::common::format_grouped_modules(
                    result.internal_dependencies.as_slice(),
                ).as_str(),
            );
        }
    }
    push_total_line(&mut output, result);
    assert(output@ =~= dependencies_grouped_text(
        result.target_module@,
        path_list(result.external_dependencies@),
        entries_view(result.internal_dependencies@),
        result.total_dependency_count as nat,
    ));
    output
}

} // verus!
