//! Blast radius: which modules are affected when a module changes.
use crate::common::{collapsed, entries_view, filter_hierarchical, lists_path};
use crate::graph::{
    has_path, labelled, node_of, out_edges, transitive_ok, typed_list, DependencyGraph,
    DependencyType, GraphError,
};
use crate::imports::{ModuleIdentifier, ModuleKey};
use crate::text::{indent_of, is_test_module, is_test_path, join_dots, push_decimal, push_indent, segments_of};
use vstd::prelude::*;

verus! {

/// `s` without the entries whose path belongs to a test package.
pub open spec fn without_tests(s: Seq<(Seq<char>, DependencyType)>) -> Seq<(Seq<char>, DependencyType)>
    decreases s.len(),
{
    if s.len() == 0 {
        Seq::empty()
    } else {
        let p = without_tests(s.drop_last());
        if is_test_path(s.last().0) {
            p
        } else {
            p.push(s.last())
        }
    }
}

/// Node `p` has `Contains` children, and the path of each is listed in `a`.
pub open spec fn all_children_listed(
    ids: Seq<ModuleKey>,
    es: Seq<(usize, usize, DependencyType)>,
    a: Seq<(Seq<char>, DependencyType)>,
    p: usize,
) -> bool {
    let ls = labelled(ids, out_edges(es, p));
    &&& exists|m: int| 0 <= m < ls.len() && (#[trigger] ls[m]).1 == DependencyType::Contains
    &&& forall|m: int|
        0 <= m < ls.len() && (#[trigger] ls[m]).1 == DependencyType::Contains ==> lists_path(
            a,
            ls[m].0,
        )
}

/// Packages among the first `k` nodes, in node order, that are not listed in
/// `a` but whose direct children all are; each path once, typed `Imports`.
pub open spec fn promoted(
    ids: Seq<ModuleKey>,
    es: Seq<(usize, usize, DependencyType)>,
    a: Seq<(Seq<char>, DependencyType)>,
    k: int,
) -> Seq<(Seq<char>, DependencyType)>
    decreases k,
{
    if k <= 0 {
        Seq::empty()
    } else {
        let prev = promoted(ids, es, a, k - 1);
        let path = ids[k - 1].1;
        if all_children_listed(ids, es, a, (k - 1) as usize) && !lists_path(a, path) && !lists_path(
            prev,
            path,
        ) {
            prev.push((path, DependencyType::Imports))
        } else {
            prev
        }
    }
}

/// `d` and `total` are the impact of node `start` (whose path is `path`):
/// its transitive dependents `t`, test packages dropped, fully affected
/// packages added, that list counted into `total` and collapsed into `d`.
pub open spec fn impact_ok(
    ids: Seq<ModuleKey>,
    es: Seq<(usize, usize, DependencyType)>,
    start: usize,
    path: Seq<char>,
    d: Seq<(Seq<char>, DependencyType, usize)>,
    total: int,
) -> bool {
    exists|t: Seq<(Seq<char>, DependencyType)>|
        {
            &&& t.len() >= 1
            &&& t[0] == (path, DependencyType::Is)
            &&& transitive_ok(ids, es, start, true, t.drop_first())
            &&& #[trigger] impact_from(ids, es, t, d, total)
        }
}

/// `d` and `total` follow from the transitive dependents `t`.
pub open spec fn impact_from(
    ids: Seq<ModuleKey>,
    es: Seq<(usize, usize, DependencyType)>,
    t: Seq<(Seq<char>, DependencyType)>,
    d: Seq<(Seq<char>, DependencyType, usize)>,
    total: int,
) -> bool {
    let a = without_tests(t);
    let l = a + promoted(ids, es, a, ids.len() as int);
    total == l.len() && collapsed(l, d)
}

/// Drops the entries whose path belongs to a test package.
pub fn drop_test_modules(v: Vec<(String, DependencyType)>) -> (r: Vec<(String, DependencyType)>)
    ensures
        typed_list(r@) == without_tests(typed_list(v@)),
{
    let mut r: Vec<(String, DependencyType)> = Vec::new();
    let mut i: usize = 0;
    while i < v.len()
        invariant
            i <= v@.len(),
            typed_list(r@) == without_tests(typed_list(v@).take(i as int)),
        decreases v@.len() - i,
    {
        assert(typed_list(v@).take(i + 1).drop_last() =~= typed_list(v@).take(i as int));
        if !is_test_module(v[i].0.as_str()) {
            let ghost old_r = r@;
            r.push((v[i].0.clone(), v[i].1));
            assert(typed_list(r@) =~= typed_list(old_r).push(typed_list(v@)[i as int]));
        }
        i = i + 1;
    }
    assert(typed_list(v@).take(i as int) =~= typed_list(v@));
    r
}

/// Packages not yet affected whose direct children are all affected.
fn find_parent_modules_with_all_children_affected(
    graph: &DependencyGraph,
    affected_modules: &Vec<(String, DependencyType)>,
) -> (r: Vec<(String, DependencyType)>)
    requires
        graph.wf(),
    ensures
        typed_list(r@) == promoted(
            graph.ids(),
            graph.edges(),
            typed_list(affected_modules@),
            graph.ids().len() as int,
        ),
{
    let ghost ids = graph.ids();
    let ghost es = graph.edges();
    let ghost a = typed_list(affected_modules@);
    let modules = graph.all_modules();
    let mut r: Vec<(String, DependencyType)> = Vec::new();
    let mut p: usize = 0;
    while p < modules.len()
        invariant
            graph.wf(),
            ids == graph.ids(),
            es == graph.edges(),
            a == typed_list(affected_modules@),
            modules@.map_values(|m: ModuleIdentifier| m@) == ids,
            p <= ids.len(),
            typed_list(r@) == promoted(ids, es, a, p as int),
        decreases ids.len() - p,
    {
        proof {
            graph.lemma_node_of(p as int);
            assert(modules@[p as int]@ == ids[p as int]);
        }
        let children = match graph.get_dependencies_with_types(&modules[p]) {
            Ok(c) => c,
            Err(_) => Vec::new(),
        };
        let ghost ls = labelled(ids, out_edges(es, p));
        assert(typed_list(children@) == ls);
        let mut any = false;
        let mut all = true;
        let mut k: usize = 0;
        while k < children.len()
            invariant
                typed_list(children@) == ls,
                a == typed_list(affected_modules@),
                k <= children@.len(),
                any <==> exists|m: int| 0 <= m < k && (#[trigger] ls[m]).1 == DependencyType::Contains,
                all <==> forall|m: int|
                    0 <= m < k && (#[trigger] ls[m]).1 == DependencyType::Contains ==> lists_path(a, ls[m].0),
            decreases children@.len() - k,
        {
            assert(ls[k as int] == (children@[k as int].0@, children@[k as int].1));
            if children[k].1 == DependencyType::Contains {
                any = true;
                let listed = has_path(affected_modules, 0, &children[k].0);
                assert(listed == lists_path(a, ls[k as int].0)) by {
                    if listed {
                        let q = choose|q: int| 0 <= q < affected_modules@.len() && (#[trigger] affected_modules@[q]).0@ == children@[k as int].0@;
                        assert(a[q].0 == ls[k as int].0);
                    }
                    if lists_path(a, ls[k as int].0) {
                        let q = choose|q: int| 0 <= q < a.len() && (#[trigger] a[q]).0 == ls[k as int].0;
                        assert(affected_modules@[q].0@ == a[q].0);
                    }
                }
                if !listed {
                    all = false;
                }
            }
            k = k + 1;
        }
        let path = &modules[p].canonical_path;
        let in_affected = has_path(affected_modules, 0, path);
        let in_result = has_path(&r, 0, path);
        proof {
            assert(path@ == ids[p as int].1);
            if in_affected {
                let q = choose|q: int| 0 <= q < affected_modules@.len() && (#[trigger] affected_modules@[q]).0@ == path@;
                assert(a[q].0 == path@);
            }
            if lists_path(a, path@) {
                let q = choose|q: int| 0 <= q < a.len() && (#[trigger] a[q]).0 == path@;
                assert(affected_modules@[q].0@ == a[q].0);
            }
            if in_result {
                let q = choose|q: int| 0 <= q < r@.len() && (#[trigger] r@[q]).0@ == path@;
                assert(typed_list(r@)[q].0 == path@);
            }
            if lists_path(typed_list(r@), path@) {
                let q = choose|q: int| 0 <= q < typed_list(r@).len() && (#[trigger] typed_list(r@)[q]).0 == path@;
                assert(r@[q].0@ == path@);
            }
            assert(k == children@.len());
            assert(all_children_listed(ids, es, a, p) == (any && all));
        }
        if any && all && !in_affected && !in_result {
            let ghost old_r = r@;
            r.push((path.clone(), DependencyType::Imports));
            assert(typed_list(r@) =~= typed_list(old_r).push((ids[p as int].1, DependencyType::Imports)));
        }
        p = p + 1;
    }
    r
}

/// The collapsed list of modules affected by a change to `module_id`, and
/// how many there were before collapsing.
pub fn get_impact_analysis(graph: &DependencyGraph, module_id: &ModuleIdentifier) -> (r: Result<
    (Vec<(String, DependencyType, usize)>, usize),
    GraphError,
>)
    requires
        graph.wf(),
    ensures
        r is Err <==> !graph.ids().contains(module_id@),
        r matches Err(GraphError::NotFound(p)) ==> p@ == module_id.canonical_path@,
        r matches Ok(x) ==> impact_ok(
            graph.ids(),
            graph.edges(),
            node_of(graph.ids(), module_id@) as usize,
            module_id.canonical_path@,
            entries_view(x.0@),
            x.1 as int,
        ),
{
    let affected = match graph.get_transitive_dependents_with_types(module_id) {
        Ok(t) => t,
        Err(e) => {
            return Err(e);
        },
    };
    let ghost t = typed_list(affected@);
    let mut affected = drop_test_modules(affected);
    let mut parents = find_parent_modules_with_all_children_affected(graph, &affected);
    let ghost a = typed_list(affected@);
    let ghost pr = typed_list(parents@);
    affected.append(&mut parents);
    assert(typed_list(affected@) =~= a + pr);
    let total = affected.len();
    let deduplicated = filter_hierarchical(affected);
    assert(impact_from(graph.ids(), graph.edges(), t, entries_view(deduplicated@), total as int));
    Ok((deduplicated, total))
}

/// The result of an impact analysis.
#[derive(Debug)]
pub struct ImpactAnalysisResult {
    /// The module analysed.
    pub target_module: String,
    /// Affected modules, collapsed, with their fold counts.
    pub affected_modules: Vec<(String, DependencyType, usize)>,
    /// How many modules are affected before collapsing.
    pub total_affected_count: usize,
}

/// The first module with path `module_name`, as an identifier.
pub fn find_module_by_name(graph: &DependencyGraph, module_name: &String) -> (r: Option<
    ModuleIdentifier,
>)
    requires
        graph.wf(),
    ensures
        r is None <==> forall|j: int| 0 <= j < graph.ids().len() ==> graph.ids()[j].1 != module_name@,
        r matches Some(m) ==> exists|j: int|
            0 <= j < graph.ids().len() && graph.ids()[j] == m@ && m@.1 == module_name@ && forall|
                q: int,
            | 0 <= q < j ==> graph.ids()[q].1 != module_name@,
{
    match graph.find_by_path(module_name) {
        None => None,
        Some(j) => {
            let modules = graph.all_modules();
            assert(modules@[j as int]@ == graph.ids()[j as int]);
            Some(modules[j].clone())
        },
    }
}

/// Impact analysis of the module with path `module_name`.
pub fn analyze_impact(graph: &DependencyGraph, module_name: &str) -> (r: Result<
    ImpactAnalysisResult,
    GraphError,
>)
    requires
        graph.wf(),
    ensures
        r is Err <==> forall|j: int| 0 <= j < graph.ids().len() ==> graph.ids()[j].1 != module_name@,
        r matches Err(GraphError::NotFound(p)) ==> p@ == module_name@,
        r matches Ok(res) ==> res.target_module@ == module_name@ && exists|j: int|
            0 <= j < graph.ids().len() && graph.ids()[j].1 == module_name@ && (forall|q: int|
                0 <= q < j ==> graph.ids()[q].1 != module_name@) && impact_ok(
                graph.ids(),
                graph.edges(),
                j as usize,
                module_name@,
                entries_view(res.affected_modules@),
                res.total_affected_count as int,
            ),
{
    let name = String::from_str(module_name);
    let target = match find_module_by_name(graph, &name) {
        Some(m) => m,
        None => {
            return Err(GraphError::NotFound(name));
        },
    };
    proof {
        let j = choose|j: int|
            0 <= j < graph.ids().len() && graph.ids()[j] == target@ && target@.1 == module_name@ && forall|
                q: int,
            | 0 <= q < j ==> graph.ids()[q].1 != module_name@;
        graph.lemma_node_of(j);
    }
    match get_impact_analysis(graph, &target) {
        Ok((affected_modules, total)) => Ok(
            ImpactAnalysisResult {
                target_module: target.canonical_path,
                affected_modules,
                total_affected_count: total,
            },
        ),
        Err(e) => Err(e),
    }
}

} // verus!

verus! {

/// One line per affected module, with its fold count where above 1.
pub open spec fn affected_lines(es: Seq<(Seq<char>, DependencyType, usize)>, indent: Seq<char>) -> Seq<char>
    decreases es.len(),
{
    if es.len() == 0 {
        Seq::empty()
    } else {
        let e = es.last();
        affected_lines(es.drop_last(), indent) + indent + if e.2 > 1 {
            "("@ + crate::text::decimal(e.2 as nat) + " submodules) "@ + e.0 + "\n"@
        } else {
            e.0 + "\n"@
        }
    }
}

/// Appends `affected_lines` of `es`.
pub fn push_affected_lines(out: &mut String, es: &Vec<(String, DependencyType, usize)>, indent: &str)
    ensures
        final(out)@ == old(out)@ + affected_lines(entries_view(es@), indent@),
{
    let ghost start = out@;
    let ghost ev = entries_view(es@);
    let mut i: usize = 0;
    assert(ev.take(0) =~= Seq::<(Seq<char>, DependencyType, usize)>::empty());
    while i < es.len()
        invariant
            ev == entries_view(es@),
            i <= ev.len(),
            out@ == start + affected_lines(ev.take(i as int), indent@),
        decreases ev.len() - i,
    {
        assert(ev.take(i + 1).drop_last() =~= ev.take(i as int));
        assert(ev.take(i + 1).last() == (es@[i as int].0@, es@[i as int].1, es@[i as int].2));
        out.append(indent);
        if es[i].2 > 1 {
            out.append("(");
            push_decimal(out, es[i].2);
            out.append(" submodules) ");
        }
        out.append(es[i].0.as_str());
        out.append("\n");
        assert(out@ =~= start + affected_lines(ev.take(i + 1), indent@));
        i = i + 1;
    }
    assert(ev.take(i as int) =~= ev);
}

/// The plain-text report of an impact analysis.
pub open spec fn impact_text(t: Seq<char>, es: Seq<(Seq<char>, DependencyType, usize)>, total: nat) -> Seq<
    char,
> {
    "Modules depending on '"@ + t + "':\n"@ + (if es.len() == 0 {
        "(no dependencies found)\n"@
    } else {
        affected_lines(es, Seq::empty())
    }) + "Total: "@ + crate::text::decimal(total) + " modules impacted by "@ + t + "\n"@
}

/// Formats an impact analysis as plain text.
pub fn format_text(result: &ImpactAnalysisResult) -> (r: String)
    ensures
        r@ == impact_text(
            result.target_module@,
            entries_view(result.affected_modules@),
            result.total_affected_count as nat,
        ),
{
    let mut output = String::from_str("Modules depending on '");
    output.append(result.target_module.as_str());
    output.append("':\n");
    if result.affected_modules.len() == 0 {
        output.append("(no dependencies found)\n");
    } else {
        push_affected_lines(&mut output, &result.affected_modules, "");
    }
    output.append("Total: ");
    push_decimal(&mut output, result.total_affected_count);
    output.append(" modules impacted by ");
    output.append(result.target_module.as_str());
    output.append("\n");
    proof {
        reveal_strlit("");
        assert(""@ =~= Seq::<char>::empty());
    }
    assert(output@ =~= impact_text(
        result.target_module@,
        entries_view(result.affected_modules@),
        result.total_affected_count as nat,
    ));
    output
}

/// One line of the grouped impact tree: two spaces per level, a dot below
/// the root, the segment, and the count where above 1.
pub open spec fn tree_line(level: nat, segment: Seq<char>, shown: nat) -> Seq<char> {
    indent_of(level) + (if level > 0 {
        "."@
    } else {
        Seq::empty()
    }) + segment + (if shown > 1 {
        " ("@ + crate::text::decimal(shown) + ")"@
    } else {
        Seq::empty()
    }) + "\n"@
}

/// The count shown beside segment `j` of module `k`: the module's own count
/// for its last segment, otherwise the summed count below the path up to `j`
/// (zero where no module lies below it).
pub open spec fn tree_count(ms: Seq<(Seq<char>, DependencyType, usize)>, k: int, j: nat) -> nat {
    let segs = segments_of(ms[k].0);
    if j == segs.len() - 1 {
        ms[k].2 as nat
    } else {
        let q = join_dots(segs.take(j as int + 1));
        if exists|m: int| 0 <= m < ms.len() && crate::text::is_dotted_descendant(ms[m].0, q) {
            crate::common::prefix_total(ms, q) as nat
        } else {
            0
        }
    }
}

/// The tree lines module `k` contributes for segments `c..i`.
pub open spec fn tree_lines(ms: Seq<(Seq<char>, DependencyType, usize)>, k: int, c: nat, i: nat) -> Seq<char>
    decreases i,
{
    if i <= c {
        Seq::empty()
    } else {
        let j = (i - 1) as nat;
        tree_lines(ms, k, c, j) + tree_line(j, segments_of(ms[k].0)[j as int], tree_count(ms, k, j))
    }
}

/// The tree of the first `n` modules.
pub open spec fn grouped_tree(ms: Seq<(Seq<char>, DependencyType, usize)>, n: int) -> Seq<char>
    decreases n,
{
    if n <= 0 {
        Seq::empty()
    } else {
        grouped_tree(ms, n - 1) + tree_lines(
            ms,
            n - 1,
            crate::common::shared_with_previous(ms, n - 1),
            segments_of(ms[n - 1].0).len(),
        )
    }
}

fn push_tree_line(out: &mut String, level: usize, segment: &str, shown: usize)
    ensures
        final(out)@ == old(out)@ + tree_line(level as nat, segment@, shown as nat),
{
    let ghost start = out@;
    push_indent(out, level);
    if level > 0 {
        out.append(".");
    }
    out.append(segment);
    if shown > 1 {
        out.append(" (");
        push_decimal(out, shown);
        out.append(")");
    }
    out.append("\n");
    proof {
        reveal_strlit(".");
    }
    assert(out@ =~= start + tree_line(level as nat, segment@, shown as nat));
}

proof fn lemma_join_take_step(segs: Seq<Seq<char>>, i: int)
    requires
        1 <= i < segs.len(),
    ensures
        join_dots(segs.take(i + 1)) == join_dots(segs.take(i)) + "."@ + segs[i],
{
    assert(segs.take(i + 1).drop_last() =~= segs.take(i));
}

/// The indented tree used by the grouped impact report: a module prints the
/// segments it does not share with the module before it, at a depth of two
/// spaces per level; an intermediate segment shows how many modules lie
/// below it where that is more than one.
#[verifier::rlimit(100)]
fn format_grouped_tree(modules: &Vec<(String, DependencyType, usize)>) -> (r: String)
    requires
        crate::common::total(entries_view(modules@)) <= usize::MAX,
    ensures
        r@ == grouped_tree(entries_view(modules@), modules@.len() as int),
{
    let ghost ms = entries_view(modules@);
    let mut output = String::new();
    let mut current_prefix: Vec<String> = Vec::new();
    let prefix_counts = crate::common::calculate_prefix_counts(modules.as_slice());
    let mut k: usize = 0;
    proof {
        reveal_strlit(".");
    }
    while k < modules.len()
        invariant
            ms == entries_view(modules@),
            k <= ms.len(),
            output@ == grouped_tree(ms, k as int),
            current_prefix@.map_values(|s: String| s@) == if k == 0 {
                Seq::<Seq<char>>::empty()
            } else {
                segments_of(ms[k - 1].0)
            },
            forall|a: int|
                0 <= a < prefix_counts@.len() ==> prefix_counts@[a].1 == crate::common::prefix_total(ms, (#[trigger] prefix_counts@[a]).0@),
            forall|a: int|
                0 <= a < prefix_counts@.len() ==> exists|m: int|
                    0 <= m < modules@.len() && crate::text::is_dotted_descendant(modules@[m].0@, (#[trigger] prefix_counts@[a]).0@),
            forall|m: int, q: Seq<char>|
                0 <= m < modules@.len() && crate::text::is_dotted_descendant(modules@[m].0@, q) ==> exists|a: int|
                    0 <= a < prefix_counts@.len() && (#[trigger] prefix_counts@[a]).0@ == q,
        decreases ms.len() - k,
    {
        let count = modules[k].2;
        let segments = crate::text::split_dots(modules[k].0.as_str());
        let ghost segs = segments@.map_values(|s: String| s@);
        assert(ms[k as int] == (modules@[k as int].0@, modules@[k as int].1, count));
        let common_len = crate::common::find_common_prefix_length(
            current_prefix.as_slice(),
            segments.as_slice(),
        );
        proof {
            crate::common::lemma_shared_prefix(current_prefix@.map_values(|s: String| s@), segs, common_len as nat);
        }
        let ghost c = common_len as nat;
        assert(c == crate::common::shared_with_previous(ms, k as int));
        let ghost head = output@;
        let mut current_path = String::new();
        let mut i: usize = 0;
        while i < segments.len()
            invariant
                ms == entries_view(modules@),
                k < ms.len(),
                ms[k as int].2 == count,
                segs == segments@.map_values(|s: String| s@),
                segs == segments_of(ms[k as int].0),
                segs.len() >= 1,
                i <= segs.len(),
                c == common_len,
                common_len <= segs.len(),
                output@ == head + tree_lines(ms, k as int, c, if i < c { c } else { i as nat }),
                i > 0 ==> current_path@ == join_dots(segs.take(i as int)),
                forall|a: int|
                    0 <= a < prefix_counts@.len() ==> prefix_counts@[a].1 == crate::common::prefix_total(ms, (#[trigger] prefix_counts@[a]).0@),
                forall|a: int|
                    0 <= a < prefix_counts@.len() ==> exists|m: int|
                        0 <= m < modules@.len() && crate::text::is_dotted_descendant(modules@[m].0@, (#[trigger] prefix_counts@[a]).0@),
                forall|m: int, q: Seq<char>|
                    0 <= m < modules@.len() && crate::text::is_dotted_descendant(modules@[m].0@, q) ==> exists|a: int|
                        0 <= a < prefix_counts@.len() && (#[trigger] prefix_counts@[a]).0@ == q,
            decreases segs.len() - i,
        {
            if i == 0 {
                current_path = segments[i].clone();
                assert(segs.take(1) =~= seq![segs[0]]);
            } else {
                current_path.append(".");
                current_path.append(segments[i].as_str());
                proof {
                    lemma_join_take_step(segs, i as int);
                }
            }
            let ghost q = current_path@;
            assert(q == join_dots(segs.take(i + 1)));
            if i >= common_len {
                let shown = if i == segments.len() - 1 {
                    count
                } else {
                    match lookup(&prefix_counts, &current_path) {
                        Some(v) => {
                            proof {
                                let a = choose|a: int| 0 <= a < prefix_counts@.len() && prefix_counts@[a].0@ == q && prefix_counts@[a].1 == v;
                                let m = choose|m: int| 0 <= m < modules@.len() && crate::text::is_dotted_descendant(modules@[m].0@, prefix_counts@[a].0@);
                                assert(ms[m].0 == modules@[m].0@);
                            }
                            v
                        },
                        None => {
                            proof {
                                if exists|m: int| 0 <= m < ms.len() && crate::text::is_dotted_descendant(ms[m].0, q) {
                                    let m = choose|m: int| 0 <= m < ms.len() && crate::text::is_dotted_descendant(ms[m].0, q);
                                    assert(ms[m].0 == modules@[m].0@);
                                    let a = choose|a: int| 0 <= a < prefix_counts@.len() && (#[trigger] prefix_counts@[a]).0@ == q;
                                }
                            }
                            0
                        },
                    }
                };
                assert(shown as nat == tree_count(ms, k as int, i as nat));
                push_tree_line(&mut output, i, segments[i].as_str(), shown);
                assert(output@ =~= head + tree_lines(ms, k as int, c, (i + 1) as nat));
            }
            i = i + 1;
        }
        assert(output@ == grouped_tree(ms, k + 1));
        current_prefix = segments;
        k = k + 1;
    }
    output
}

/// The value recorded for `key`, if any.
fn lookup(counts: &Vec<(String, usize)>, key: &String) -> (r: Option<usize>)
    ensures
        r matches Some(c) ==> exists|a: int|
            0 <= a < counts@.len() && counts@[a].0@ == key@ && counts@[a].1 == c,
        r is None ==> forall|a: int| 0 <= a < counts@.len() ==> counts@[a].0@ != key@,
{
    let mut a: usize = 0;
    while a < counts.len()
        invariant
            a <= counts@.len(),
            forall|b: int| 0 <= b < a ==> counts@[b].0@ != key@,
        decreases counts@.len() - a,
    {
        if counts[a].0 == *key {
            return Some(counts[a].1);
        }
        a = a + 1;
    }
    None
}

/// Formats an impact analysis with the affected modules grouped by package.
pub fn format_text_grouped(result: &ImpactAnalysisResult) -> (r: String)
    requires
        crate::common::total(entries_view(result.affected_modules@)) <= usize::MAX,
    ensures
        r@ == "Modules depending on '"@ + result.target_module@ + "':\n"@ + (if result.affected_modules@.len() == 0 {
            "(no dependencies found)\n"@
        } else {
            grouped_tree(entries_view(result.affected_modules@), result.affected_modules@.len() as int)
        }) + "Total: "@ + crate::text::decimal(result.total_affected_count as nat) + " modules affected\n"@,
{
    let mut output = String::from_str("Modules depending on '");
    output.append(result.target_module.as_str());
    output.append("':\n");
    if result.affected_modules.len() == 0 {
        output.append("(no dependencies found)\n");
    } else {
        output.append(format_grouped_tree(&result.affected_modules).as_str());
    }
    output.append("Total: ");
    push_decimal(&mut output, result.total_affected_count);
    output.append(" modules affected\n");
    assert(output@ =~= "Modules depending on '"@ + result.target_module@ + "':\n"@ + (if result.affected_modules@.len() == 0 {
            "(no dependencies found)\n"@
        } else {
            grouped_tree(entries_view(result.affected_modules@), result.affected_modules@.len() as int)
        }) + "Total: "@ + crate::text::decimal(result.total_affected_count as nat) + " modules affected\n"@);
    output
}

} // verus!
