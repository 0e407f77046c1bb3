//! Pressure points: internal modules with the widest blast radius.
use crate::common::entries_view;
use crate::graph::{DependencyGraph, GraphError};
use crate::impact::{get_impact_analysis, impact_ok};
use crate::imports::{ModuleIdentifier, ModuleOrigin};
use crate::text::{decimal, push_decimal};
use vstd::prelude::*;

verus! {

/// The result of a pressure analysis.
#[derive(Debug)]
pub struct PressureAnalysisResult {
    /// Modules with their collapsed dependent counts, highest first.
    pub pressure_modules: Vec<(String, usize)>,
}

/// Node `j` is internal with path `p`, and `c` is the length of a collapsed
/// impact list of it.
pub open spec fn pressure_entry_ok(
    ids: Seq<crate::imports::ModuleKey>,
    es: Seq<(usize, usize, crate::graph::DependencyType)>,
    p: Seq<char>,
    c: usize,
) -> bool {
    exists|j: int, d: Seq<(Seq<char>, crate::graph::DependencyType, usize)>, total: int|
        0 <= j < ids.len() && ids[j].0 == ModuleOrigin::Internal && ids[j].1 == p && #[trigger] impact_ok(
            ids,
            es,
            j as usize,
            p,
            d,
            total,
        ) && d.len() == c
}

/// Entry `(p, c)` is listed in `pm`.
pub open spec fn listed(pm: Seq<(String, usize)>, p: Seq<char>, c: usize) -> bool {
    exists|k: int| 0 <= k < pm.len() && pm[k].0@ == p && pm[k].1 == c
}

/// Internal node `j` has a collapsed impact list `d` for which it is listed
/// with `d`'s length exactly when that length is above 1.
pub open spec fn node_accounted(
    ids: Seq<crate::imports::ModuleKey>,
    es: Seq<(usize, usize, crate::graph::DependencyType)>,
    j: int,
    pm: Seq<(String, usize)>,
) -> bool {
    exists|d: Seq<(Seq<char>, crate::graph::DependencyType, usize)>, total: int|
        #[trigger] impact_ok(ids, es, j as usize, ids[j].1, d, total) && (d.len() > 1 ==> listed(pm, ids[j].1, d.len() as usize))
}

/// Some internal node before `i` has path `p`.
pub open spec fn from_internal_node(ids: Seq<crate::imports::ModuleKey>, i: int, p: Seq<char>) -> bool {
    exists|j: int| 0 <= j < i && ids[j].0 == ModuleOrigin::Internal && ids[j].1 == p
}

/// Inserts `e` after every entry whose count is at least its own.
fn insert_by_count(v: &mut Vec<(String, usize)>, e: (String, usize)) -> (pos: usize)
    requires
        forall|a: int, b: int| 0 <= a < b < old(v)@.len() ==> old(v)@[a].1 >= old(v)@[b].1,
    ensures
        forall|a: int, b: int| 0 <= a < b < final(v)@.len() ==> final(v)@[a].1 >= final(v)@[b].1,
        pos <= old(v)@.len(),
        final(v)@ == old(v)@.insert(pos as int, e),
{
    let mut pos: usize = 0;
    while pos < v.len() && v[pos].1 >= e.1
        invariant
            pos <= v@.len(),
            forall|a: int| 0 <= a < pos ==> v@[a].1 >= e.1,
        decreases v@.len() - pos,
    {
        pos = pos + 1;
    }
    let ghost old_v = v@;
    v.insert(pos, e);
    proof {
        assert forall|a: int, b: int| 0 <= a < b < v@.len() implies v@[a].1 >= v@[b].1 by {
            if a < pos && b == pos {
                assert(v@[a] == old_v[a] && v@[b] == e);
            } else if a == pos && b > pos {
                assert(v@[b] == old_v[b - 1]);
                assert(v@[a] == e);
                if pos < old_v.len() {
                    assert(!(old_v[pos as int].1 >= e.1));
                    assert(old_v[pos as int].1 >= old_v[b - 1].1);
                }
            } else if a < pos && b > pos {
                assert(v@[a] == old_v[a] && v@[b] == old_v[b - 1]);
            } else if b < pos {
                assert(v@[a] == old_v[a] && v@[b] == old_v[b]);
            } else {
                assert(v@[a] == old_v[a - 1] && v@[b] == old_v[b - 1]);
            }
        }
    }
    pos
}

/// Internal modules whose collapsed impact list has more than one entry,
/// with its length, highest first; equal counts keep node order.
pub fn analyze_pressure(graph: &DependencyGraph) -> (r: Result<PressureAnalysisResult, GraphError>)
    requires
        graph.wf(),
    ensures
        r matches Ok(res) ==> {
            let pm = res.pressure_modules@;
            &&& forall|a: int, b: int| 0 <= a < b < pm.len() ==> pm[a].1 >= pm[b].1
            &&& forall|k: int|
                0 <= k < pm.len() ==> (#[trigger] pm[k]).1 > 1 && pressure_entry_ok(
                    graph.ids(),
                    graph.edges(),
                    pm[k].0@,
                    pm[k].1,
                )
            &&& forall|j: int|
                0 <= j < graph.ids().len() && (#[trigger] graph.ids()[j]).0 == ModuleOrigin::Internal
                    ==> node_accounted(graph.ids(), graph.edges(), j, pm)
            &&& forall|a: int, b: int| 0 <= a < b < pm.len() ==> pm[a].0@ != pm[b].0@
        },
        r is Ok,
{
    let modules = graph.all_modules();
    let mut pressure_modules: Vec<(String, usize)> = Vec::new();
    let mut i: usize = 0;
    while i < modules.len()
        invariant
            graph.wf(),
            modules@.map_values(|m: ModuleIdentifier| m@) == graph.ids(),
            i <= modules@.len(),
            forall|a: int, b: int|
                0 <= a < b < pressure_modules@.len() ==> pressure_modules@[a].1
                    >= pressure_modules@[b].1,
            forall|k: int|
                0 <= k < pressure_modules@.len() ==> (#[trigger] pressure_modules@[k]).1 > 1
                    && pressure_entry_ok(
                    graph.ids(),
                    graph.edges(),
                    pressure_modules@[k].0@,
                    pressure_modules@[k].1,
                ),
            forall|j: int|
                0 <= j < i && (#[trigger] graph.ids()[j]).0 == ModuleOrigin::Internal
                    ==> node_accounted(graph.ids(), graph.edges(), j, pressure_modules@),
            forall|a: int, b: int|
                0 <= a < b < pressure_modules@.len() ==> pressure_modules@[a].0@ != pressure_modules@[b].0@,
            forall|k: int| 0 <= k < pressure_modules@.len() ==> from_internal_node(graph.ids(), i as int, (#[trigger] pressure_modules@[k]).0@),
        decreases modules@.len() - i,
    {
        proof {
            assert(modules@[i as int]@ == graph.ids()[i as int]);
            graph.lemma_node_of(i as int);
        }
        let ghost before = pressure_modules@;
        if modules[i].origin == ModuleOrigin::Internal {
            match get_impact_analysis(graph, &modules[i]) {
                Ok((affected, total)) => {
                    let dependent_count = affected.len();
                    proof {
                        assert(impact_ok(graph.ids(), graph.edges(), i, graph.ids()[i as int].1, entries_view(affected@), total as int));
                    }
                    if dependent_count > 1 {
                        let ghost old_p = pressure_modules@;
                        let e = (modules[i].canonical_path.clone(), dependent_count);
                        proof {
                            assert(impact_ok(graph.ids(), graph.edges(), i, e.0@, entries_view(affected@), total as int));
                            assert(pressure_entry_ok(graph.ids(), graph.edges(), e.0@, e.1));
                        }
                        let ghost ev = e;
                        let pos = insert_by_count(&mut pressure_modules, e);
                        proof {
                            assert forall|k: int| 0 <= k < pressure_modules@.len() implies (#[trigger] pressure_modules@[k]).1 > 1
                                && pressure_entry_ok(graph.ids(), graph.edges(), pressure_modules@[k].0@, pressure_modules@[k].1) by {
                                if k < pos {
                                    assert(pressure_modules@[k] == old_p[k]);
                                } else if k > pos {
                                    assert(pressure_modules@[k] == old_p[k - 1]);
                                } else {
                                    assert(pressure_modules@[k] == ev);
                                }
                            }
                            graph.lemma_wf();
                            assert forall|k: int| 0 <= k < old_p.len() implies old_p[k].0@ != ev.0@ by {
                                assert(from_internal_node(graph.ids(), i as int, old_p[k].0@));
                                let j = choose|j: int| 0 <= j < i && graph.ids()[j].0 == ModuleOrigin::Internal && graph.ids()[j].1 == old_p[k].0@;
                                assert(graph.ids()[i as int].1 == ev.0@);
                                if old_p[k].0@ == ev.0@ {
                                    assert(graph.ids()[j] == graph.ids()[i as int]);
                                }
                            }
                            assert forall|a: int, b: int|
                                0 <= a < b < pressure_modules@.len() implies pressure_modules@[a].0@ != pressure_modules@[b].0@ by {
                                let a2 = if a < pos { a } else { a - 1 };
                                let b2 = if b < pos { b } else { b - 1 };
                                if a == pos {
                                    assert(pressure_modules@[b] == old_p[b2]);
                                } else if b == pos {
                                    assert(pressure_modules@[a] == old_p[a2]);
                                } else {
                                    assert(pressure_modules@[a] == old_p[a2] && pressure_modules@[b] == old_p[b2]);
                                }
                            }
                            assert forall|k: int| 0 <= k < pressure_modules@.len() implies from_internal_node(graph.ids(), i + 1, (#[trigger] pressure_modules@[k]).0@) by {
                                if k < pos {
                                    assert(pressure_modules@[k] == old_p[k]);
                                    assert(from_internal_node(graph.ids(), i as int, old_p[k].0@));
                                } else if k > pos {
                                    assert(pressure_modules@[k] == old_p[k - 1]);
                                    assert(from_internal_node(graph.ids(), i as int, old_p[k - 1].0@));
                                } else {
                                    assert(pressure_modules@[k] == ev);
                                    assert(graph.ids()[i as int].1 == ev.0@);
                                }
                            }
                            assert forall|j: int|
                                0 <= j < i + 1 && (#[trigger] graph.ids()[j]).0 == ModuleOrigin::Internal
                                    implies node_accounted(graph.ids(), graph.edges(), j, pressure_modules@) by {
                                if j < i {
                                    let (d, t) = choose|d: Seq<(Seq<char>, crate::graph::DependencyType, usize)>, total: int|
                                        #[trigger] impact_ok(graph.ids(), graph.edges(), j as usize, graph.ids()[j].1, d, total) && (d.len() > 1 ==> listed(old_p, graph.ids()[j].1, d.len() as usize));
                                    assert(impact_ok(graph.ids(), graph.edges(), j as usize, graph.ids()[j].1, d, t));
                                    if d.len() > 1 {
                                        let k = choose|k: int| 0 <= k < old_p.len() && old_p[k].0@ == graph.ids()[j].1 && old_p[k].1 == d.len() as usize;
                                        let k2 = if k < pos { k } else { k + 1 };
                                        assert(pressure_modules@[k2] == old_p[k]);
                                    }
                                } else {
                                    assert(pressure_modules@[pos as int] == ev);
                                    assert(listed(pressure_modules@, graph.ids()[j].1, entries_view(affected@).len() as usize));
                                }
                            }
                        }
                    } else {
                        proof {
                            assert(node_accounted(graph.ids(), graph.edges(), i as int, pressure_modules@));
                        }
                    }
                },
                Err(_) => {},
            }
        }
        proof {
            assert forall|k: int| 0 <= k < pressure_modules@.len() implies from_internal_node(graph.ids(), i + 1, (#[trigger] pressure_modules@[k]).0@) by {
                assert(from_internal_node(graph.ids(), i as int, pressure_modules@[k].0@) || from_internal_node(graph.ids(), i + 1, pressure_modules@[k].0@));
                if from_internal_node(graph.ids(), i as int, pressure_modules@[k].0@) {
                    let j = choose|j: int| 0 <= j < i && graph.ids()[j].0 == ModuleOrigin::Internal && graph.ids()[j].1 == pressure_modules@[k].0@;
                }
            }
        }
        i = i + 1;
    }
    Ok(PressureAnalysisResult { pressure_modules })
}

/// One line per module with its dependent count.
pub open spec fn pressure_lines(pm: Seq<(String, usize)>) -> Seq<char>
    decreases pm.len(),
{
    if pm.len() == 0 {
        Seq::empty()
    } else {
        pressure_lines(pm.drop_last()) + "  "@ + pm.last().0@ + " ("@ + decimal(pm.last().1 as nat)
            + " dependents)\n"@
    }
}

/// The plain-text report of a pressure analysis.
pub open spec fn pressure_report(pm: Seq<(String, usize)>) -> Seq<char> {
    if pm.len() == 0 {
        "No modules with dependents found.\n"@
    } else {
        "High-pressure modules (most dependents first):\n"@ + pressure_lines(pm) + "\nTotal: "@ + decimal(
            pm.len(),
        ) + " modules found\n"@
    }
}

/// Formats a pressure analysis as plain text.
pub fn format_text(result: &PressureAnalysisResult) -> (r: String)
    ensures
        r@ == pressure_report(result.pressure_modules@),
{
    if result.pressure_modules.len() == 0 {
        return String::from_str("No modules with dependents found.\n");
    }
    let ghost pm = result.pressure_modules@;
    let mut output = String::from_str("High-pressure modules (most dependents first):\n");
    let ghost head = output@;
    let mut i: usize = 0;
    assert(pm.take(0) =~= Seq::<(String, usize)>::empty());
    while i < result.pressure_modules.len()
        invariant
            pm == result.pressure_modules@,
            i <= pm.len(),
            output@ == head + pressure_lines(pm.take(i as int)),
        decreases pm.len() - i,
    {
        assert(pm.take(i + 1).drop_last() =~= pm.take(i as int));
        assert(pm.take(i + 1).last() == pm[i as int]);
        output.append("  ");
        output.append(result.pressure_modules[i].0.as_str());
        output.append(" (");
        push_decimal(&mut output, result.pressure_modules[i].1);
        output.append(" dependents)\n");
        assert(output@ =~= head + pressure_lines(pm.take(i + 1)));
        i = i + 1;
    }
    assert(pm.take(i as int) =~= pm);
    output.append("\nTotal: ");
    push_decimal(&mut output, result.pressure_modules.len());
    output.append(" modules found\n");
    assert(output@ =~= pressure_report(pm));
    output
}

} // verus!
