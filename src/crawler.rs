//! Assembling the graph from per-file scan results.
use crate::graph::{DependencyGraph, DependencyType, MAX_INDEX};
use crate::imports::ModuleIdentifier;
use vstd::prelude::*;

verus! {

/// Nodes and edges a list of scanned units can add at most: one node per
/// unit and one node and one edge per import.
pub open spec fn units_size(units: Seq<(ModuleIdentifier, Vec<ModuleIdentifier>)>) -> nat
    decreases units.len(),
{
    if units.len() == 0 {
        0
    } else {
        units_size(units.drop_last()) + 1 + units.last().1@.len()
    }
}

/// The identities a list of units names, in order: each unit's module,
/// then its imports.
pub open spec fn unit_keys(units: Seq<(ModuleIdentifier, Vec<ModuleIdentifier>)>) -> Seq<crate::imports::ModuleKey>
    decreases units.len(),
{
    if units.len() == 0 {
        Seq::empty()
    } else {
        unit_keys(units.drop_last()) + seq![units.last().0@] + units.last().1@.map_values(|m: ModuleIdentifier| m@)
    }
}

/// The number of imports of a list of units.
pub open spec fn import_total(units: Seq<(ModuleIdentifier, Vec<ModuleIdentifier>)>) -> nat
    decreases units.len(),
{
    if units.len() == 0 {
        0
    } else {
        import_total(units.drop_last()) + units.last().1@.len()
    }
}

/// Module `a` imports module `b` in `g`: an `Imports` edge joins their nodes.
pub open spec fn has_import_edge(g: &DependencyGraph, a: crate::imports::ModuleKey, b: crate::imports::ModuleKey) -> bool {
    exists|e: int|
        0 <= e < g.edges().len() && g.edges()[e].2 == DependencyType::Imports && g.ids()[g.edges()[e].0 as int] == a
            && g.ids()[g.edges()[e].1 as int] == b
}

proof fn lemma_units_size_prefix(units: Seq<(ModuleIdentifier, Vec<ModuleIdentifier>)>, i: int)
    requires
        0 <= i < units.len(),
    ensures
        units_size(units.take(i + 1)) == units_size(units.take(i)) + 1 + units[i].1@.len(),
        units_size(units.take(i + 1)) <= units_size(units),
{
    assert(units.take(i + 1).drop_last() =~= units.take(i));
    lemma_units_size_mono(units, i + 1);
}

proof fn lemma_units_size_mono(units: Seq<(ModuleIdentifier, Vec<ModuleIdentifier>)>, k: int)
    requires
        0 <= k <= units.len(),
    ensures
        units_size(units.take(k)) <= units_size(units),
    decreases units.len(),
{
    if k == units.len() {
        assert(units.take(k) =~= units);
    } else {
        lemma_units_size_mono(units.drop_last(), k);
        assert(units.drop_last().take(k) =~= units.take(k));
    }
}

/// Builds the graph of a scan: each unit's module, the modules it imports,
/// and an `Imports` edge from it to each of them.
pub fn build_dependency_graph(units: Vec<(ModuleIdentifier, Vec<ModuleIdentifier>)>) -> (r: DependencyGraph)
    requires
        units_size(units@) < MAX_INDEX,
    ensures
        r.wf(),
        r.ids() == crate::graph::ids_from(Seq::empty(), unit_keys(units@)),
        r.edges().len() == import_total(units@),
        forall|e: int| 0 <= e < r.edges().len() ==> (#[trigger] r.edges()[e]).2 == DependencyType::Imports,
        forall|u: int| 0 <= u < units@.len() ==> r.ids().contains((#[trigger] units@[u]).0@),
        forall|u: int, d: int|
            0 <= u < units@.len() && 0 <= d < units@[u].1@.len() ==> has_import_edge(
                &r,
                units@[u].0@,
                (#[trigger] units@[u].1@[d])@,
            ),
{
    let mut graph = DependencyGraph::new();
    let mut i: usize = 0;
    while i < units.len()
        invariant
            graph.wf(),
            units_size(units@) < MAX_INDEX,
            i <= units@.len(),
            graph.ids().len() <= units_size(units@.take(i as int)),
            graph.edges().len() <= units_size(units@.take(i as int)),
            forall|u: int| 0 <= u < i ==> graph.ids().contains((#[trigger] units@[u]).0@),
            forall|u: int, d: int|
                0 <= u < i && 0 <= d < units@[u].1@.len() ==> has_import_edge(&graph, units@[u].0@, (#[trigger] units@[u].1@[d])@),
            graph.ids() == crate::graph::ids_from(Seq::empty(), unit_keys(units@.take(i as int))),
            graph.edges().len() == import_total(units@.take(i as int)),
            forall|e: int| 0 <= e < graph.edges().len() ==> (#[trigger] graph.edges()[e]).2 == DependencyType::Imports,
        decreases units@.len() - i,
    {
        proof {
            lemma_units_size_prefix(units@, i as int);
        }
        let module_id = &units[i].0;
        let deps = &units[i].1;
        let ghost ids0 = graph.ids();
        let ghost es0 = graph.edges();
        let ghost base = unit_keys(units@.take(i as int)) + seq![units@[i as int].0@];
        let ghost dks = units@[i as int].1@.map_values(|m: ModuleIdentifier| m@);
        proof {
            graph.lemma_wf();
            assert(units@.take(i + 1).drop_last() =~= units@.take(i as int));
            assert(units@.take(i + 1).last() == units@[i as int]);
            assert(unit_keys(units@.take(i as int)).push(units@[i as int].0@) =~= base);
        }
        graph.add_module(module_id.clone());
        assert(base.drop_last() =~= unit_keys(units@.take(i as int)));
        assert(graph.ids() == crate::graph::ids_from(Seq::empty(), base + dks.take(0))) by {
            assert(base + dks.take(0) =~= base);
        }
        let mut j: usize = 0;
        while j < deps.len()
            invariant
                graph.wf(),
                units_size(units@) < MAX_INDEX,
                i < units@.len(),
                module_id == &units@[i as int].0,
                deps == &units@[i as int].1,
                units_size(units@.take(i + 1)) == units_size(units@.take(i as int)) + 1 + deps@.len(),
                units_size(units@.take(i + 1)) <= units_size(units@),
                j <= deps@.len(),
                graph.ids().len() <= units_size(units@.take(i as int)) + 1 + j,
                graph.edges().len() <= units_size(units@.take(i as int)) + j,
                graph.ids().len() >= ids0.len(),
                graph.ids().subrange(0, ids0.len() as int) == ids0,
                graph.edges().len() >= es0.len(),
                graph.edges().subrange(0, es0.len() as int) == es0,
                graph.ids().contains(module_id@),
                forall|d: int| 0 <= d < j ==> has_import_edge(&graph, module_id@, (#[trigger] deps@[d])@),
                dks == deps@.map_values(|m: ModuleIdentifier| m@),
                graph.ids() == crate::graph::ids_from(Seq::empty(), base + dks.take(j as int)),
                graph.edges().len() == import_total(units@.take(i as int)) + j,
                forall|e: int| 0 <= e < graph.edges().len() ==> (#[trigger] graph.edges()[e]).2 == DependencyType::Imports,
            decreases deps@.len() - j,
        {
            let ghost ids1 = graph.ids();
            let ghost es1 = graph.edges();
            proof {
                graph.lemma_wf();
            }
            let dep = &deps[j];
            graph.add_module(dep.clone());
            proof {
                assert((base + dks.take(j + 1)).drop_last() =~= base + dks.take(j as int));
                assert((base + dks.take(j + 1)).last() == dep@);
            }
            let ghost ids2 = graph.ids();
            proof {
                assert(ids2.subrange(0, ids1.len() as int) =~= ids1);
                assert(ids2.contains(module_id@)) by {
                    let q = choose|q: int| 0 <= q < ids1.len() && ids1[q] == module_id@;
                    assert(ids2[q] == ids1[q]);
                }
            }
            let _ = graph.add_dependency(module_id, dep, DependencyType::Imports);
            proof {
                let es2 = graph.edges();
                let g = &graph;
                assert(es2 == es1.push((crate::graph::node_of(ids2, module_id@) as usize, crate::graph::node_of(ids2, dep@) as usize, DependencyType::Imports)));
                assert(has_import_edge(g, module_id@, dep@)) by {
                    assert(es2[es1.len() as int].2 == DependencyType::Imports);
                }
                assert forall|e: int| 0 <= e < es2.len() implies (#[trigger] es2[e]).2 == DependencyType::Imports by {
                    if e < es1.len() {
                        assert(es2[e] == es1[e]);
                    }
                }
                assert forall|d: int| 0 <= d < j + 1 implies has_import_edge(g, module_id@, (#[trigger] deps@[d])@) by {
                    if d < j {
                        assert(has_import_edge(&graph, module_id@, deps@[d]@)) by {
                            let e = choose|e: int| 0 <= e < es1.len() && es1[e].2 == DependencyType::Imports && ids1[es1[e].0 as int] == module_id@ && ids1[es1[e].1 as int] == deps@[d]@;
                            assert(es2[e] == es1[e]);
                            assert(es1[e].0 < ids1.len() && es1[e].1 < ids1.len());
                            assert(ids2[es1[e].0 as int] == ids1[es1[e].0 as int]);
                            assert(ids2[es1[e].1 as int] == ids1[es1[e].1 as int]);
                        }
                    }
                }
                assert(graph.ids().subrange(0, ids0.len() as int) =~= ids0) by {
                    assert forall|q: int| 0 <= q < ids0.len() implies graph.ids()[q] == ids0[q] by {
                        assert(ids1.subrange(0, ids0.len() as int)[q] == ids0[q]);
                    }
                }
                assert(graph.edges().subrange(0, es0.len() as int) =~= es0) by {
                    assert forall|q: int| 0 <= q < es0.len() implies graph.edges()[q] == es0[q] by {
                        assert(es1.subrange(0, es0.len() as int)[q] == es0[q]);
                    }
                }
            }
            j = j + 1;
        }
        proof {
            let ids3 = graph.ids();
            let es3 = graph.edges();
            assert(dks.take(deps@.len() as int) =~= dks);
            assert(unit_keys(units@.take(i + 1)) =~= base + dks);
            assert forall|u: int| 0 <= u < i + 1 implies graph.ids().contains((#[trigger] units@[u]).0@) by {
                if u < i {
                    let q = choose|q: int| 0 <= q < ids0.len() && ids0[q] == units@[u].0@;
                    assert(ids3[q] == ids0[q]);
                }
            }
            assert forall|u: int, d: int|
                0 <= u < i + 1 && 0 <= d < units@[u].1@.len() implies has_import_edge(&graph, units@[u].0@, (#[trigger] units@[u].1@[d])@) by {
                if u < i {
                    let e = choose|e: int| 0 <= e < es0.len() && es0[e].2 == DependencyType::Imports && ids0[es0[e].0 as int] == units@[u].0@ && ids0[es0[e].1 as int] == units@[u].1@[d]@;
                    assert(es0[e].0 < ids0.len() && es0[e].1 < ids0.len());
                    assert(es3[e] == es0[e]);
                    assert(ids3[es0[e].0 as int] == ids0[es0[e].0 as int]);
                    assert(ids3[es0[e].1 as int] == ids0[es0[e].1 as int]);
                }
            }
        }
        i = i + 1;
    }
    proof {
        assert(units@.take(i as int) =~= units@);
    }
    graph
}

} // verus!
