//! Instability: how much a module depends on others compared with how much
//! others depend on it.
use crate::graph::{in_edges, out_edges, path_list, DependencyGraph, GraphError};
use crate::imports::{ModuleIdentifier, ModuleKey, ModuleOrigin};
use vstd::prelude::*;

verus! {

/// Numerator of the instability `Ce / (Ca + Ce)`; zero when both are zero.
pub open spec fn instability_num(ca: nat, ce: nat) -> nat {
    if ca + ce == 0 {
        0
    } else {
        ce
    }
}

/// Denominator of the instability; one when both couplings are zero.
pub open spec fn instability_den(ca: nat, ce: nat) -> nat {
    if ca + ce == 0 {
        1
    } else {
        ca + ce
    }
}

/// The instability of a module as a fraction `(numerator, denominator)`.
pub fn instability_ratio(ca: usize, ce: usize) -> (r: (usize, usize))
    requires
        ca + ce <= usize::MAX,
    ensures
        r.0 == instability_num(ca as nat, ce as nat),
        r.1 == instability_den(ca as nat, ce as nat),
{
    if ca + ce == 0 {
        (0, 1)
    } else {
        (ce, ca + ce)
    }
}

/// Instability lies between 0 and 1, and it is 0 for a module with neither
/// dependents nor dependencies.
pub proof fn law_instability_bounds(ca: nat, ce: nat)
    ensures
        instability_den(ca, ce) > 0,
        instability_num(ca, ce) <= instability_den(ca, ce),
        ca == 0 && ce == 0 ==> instability_num(ca, ce) == 0,
{
}

/// `x` orders before or with `y` by decreasing instability.
pub open spec fn unstable_first(x: (usize, usize), y: (usize, usize)) -> bool {
    instability_num(x.0 as nat, x.1 as nat) * instability_den(y.0 as nat, y.1 as nat)
        >= instability_num(y.0 as nat, y.1 as nat) * instability_den(x.0 as nat, x.1 as nat)
}

fn more_or_equally_unstable(x: (usize, usize), y: (usize, usize)) -> (r: bool)
    requires
        x.0 + x.1 <= usize::MAX,
        y.0 + y.1 <= usize::MAX,
    ensures
        r == unstable_first(x, y),
{
    let (xn, xd) = instability_ratio(x.0, x.1);
    let (yn, yd) = instability_ratio(y.0, y.1);
    assert(usize::MAX <= 18446744073709551615);
    assert((xn as int) * (yd as int) <= 340282366920938463463374607431768211455) by (nonlinear_arith)
        requires
            0 <= xn <= 18446744073709551615,
            0 <= yd <= 18446744073709551615,
    ;
    assert((yn as int) * (xd as int) <= 340282366920938463463374607431768211455) by (nonlinear_arith)
        requires
            0 <= yn <= 18446744073709551615,
            0 <= xd <= 18446744073709551615,
    ;
    (xn as u128) * (yd as u128) >= (yn as u128) * (xd as u128)
}

/// Node `j` is internal with path `p`, `ca` incoming and `ce` outgoing edges.
pub open spec fn coupling_ok(
    ids: Seq<ModuleKey>,
    es: Seq<(usize, usize, crate::graph::DependencyType)>,
    e: (Seq<char>, usize, usize),
) -> bool {
    exists|j: int|
        0 <= j < ids.len() && ids[j].0 == ModuleOrigin::Internal && ids[j].1 == e.0
            && #[trigger] in_edges(es, j as usize).len() == e.1 && out_edges(es, j as usize).len() == e.2
}

/// Internal node `j` is listed in `v` with its path and couplings.
pub open spec fn node_scored(
    ids: Seq<ModuleKey>,
    es: Seq<(usize, usize, crate::graph::DependencyType)>,
    j: int,
    v: Seq<(String, usize, usize)>,
) -> bool {
    exists|k: int|
        0 <= k < v.len() && v[k].0@ == ids[j].1 && v[k].1 == in_edges(es, j as usize).len() && v[k].2
            == out_edges(es, j as usize).len()
}

/// The number of internal modules.
pub open spec fn internal_count(ids: Seq<ModuleKey>) -> nat
    decreases ids.len(),
{
    if ids.len() == 0 {
        0
    } else {
        internal_count(ids.drop_last()) + if ids.last().0 == ModuleOrigin::Internal {
            1nat
        } else {
            0
        }
    }
}

/// For each internal module its path, afferent coupling `Ca` (direct
/// dependents) and efferent coupling `Ce` (direct dependencies), most
/// unstable first; equal instabilities keep node order.
pub fn coupling_scores(graph: &DependencyGraph) -> (r: Result<Vec<(String, usize, usize)>, GraphError>)
    requires
        graph.wf(),
        graph.edges().len() <= usize::MAX / 2,
    ensures
        r matches Ok(v) ==> {
            &&& v@.len() == internal_count(graph.ids())
            &&& forall|a: int, b: int|
                0 <= a < b < v@.len() ==> unstable_first((v@[a].1, v@[a].2), (v@[b].1, v@[b].2))
            &&& forall|k: int|
                0 <= k < v@.len() ==> coupling_ok(
                    graph.ids(),
                    graph.edges(),
                    ((#[trigger] v@[k]).0@, v@[k].1, v@[k].2),
                )
            &&& forall|j: int|
                0 <= j < graph.ids().len() && (#[trigger] graph.ids()[j]).0 == ModuleOrigin::Internal
                    ==> node_scored(graph.ids(), graph.edges(), j, v@)
        },
        r is Ok,
{
    let modules = graph.all_modules();
    let mut v: Vec<(String, usize, usize)> = Vec::new();
    let mut i: usize = 0;
    while i < modules.len()
        invariant
            graph.wf(),
            graph.edges().len() <= usize::MAX / 2,
            modules@.map_values(|m: ModuleIdentifier| m@) == graph.ids(),
            i <= modules@.len(),
            v@.len() == internal_count(graph.ids().take(i as int)),
            forall|k: int| 0 <= k < v@.len() ==> (#[trigger] v@[k]).1 + v@[k].2 <= usize::MAX,
            forall|a: int, b: int|
                0 <= a < b < v@.len() ==> unstable_first((v@[a].1, v@[a].2), (v@[b].1, v@[b].2)),
            forall|k: int|
                0 <= k < v@.len() ==> coupling_ok(
                    graph.ids(),
                    graph.edges(),
                    ((#[trigger] v@[k]).0@, v@[k].1, v@[k].2),
                ),
            forall|j: int|
                0 <= j < i && (#[trigger] graph.ids()[j]).0 == ModuleOrigin::Internal
                    ==> node_scored(graph.ids(), graph.edges(), j, v@),
        decreases modules@.len() - i,
    {
        proof {
            assert(modules@[i as int]@ == graph.ids()[i as int]);
            graph.lemma_node_of(i as int);
            assert(graph.ids().take(i + 1).drop_last() =~= graph.ids().take(i as int));
        }
        if modules[i].origin == ModuleOrigin::Internal {
            let ghost es = graph.edges();
            let ca = match graph.get_dependents(&modules[i]) {
                Ok(d) => {
                    assert(path_list(d@).len() == d@.len());
                    d.len()
                },
                Err(_) => 0,
            };
            let ce = match graph.get_dependencies(&modules[i]) {
                Ok(d) => {
                    assert(path_list(d@).len() == d@.len());
                    d.len()
                },
                Err(_) => 0,
            };
            assert(ca == in_edges(es, i).len());
            assert(ce == out_edges(es, i).len());
            proof {
                lemma_edge_lists_bounded(graph.edges(), i);
            }
            let ghost ev = (modules@[i as int].canonical_path@, ca, ce);
            assert(coupling_ok(graph.ids(), graph.edges(), ev));
            let mut pos: usize = 0;
            while pos < v.len() && more_or_equally_unstable((v[pos].1, v[pos].2), (ca, ce))
                invariant
                    pos <= v@.len(),
                    ca + ce <= usize::MAX,
                    forall|k: int| 0 <= k < v@.len() ==> (#[trigger] v@[k]).1 + v@[k].2 <= usize::MAX,
                    forall|a: int| 0 <= a < pos ==> unstable_first((v@[a].1, v@[a].2), (ca, ce)),
                decreases v@.len() - pos,
            {
                pos = pos + 1;
            }
            let ghost old_v = v@;
            v.insert(pos, (modules[i].canonical_path.clone(), ca, ce));
            proof {
                let ps = pairs_of(old_v);
                assert forall|x: int, y: int| 0 <= x < y < ps.len() implies unstable_first(ps[x], ps[y]) by {}
                lemma_unstable_insert(ps, pos as int, (ca, ce));
                assert(pairs_of(v@) =~= ps.insert(pos as int, (ca, ce)));
                assert forall|a: int, b: int| 0 <= a < b < v@.len() implies unstable_first((v@[a].1, v@[a].2), (v@[b].1, v@[b].2)) by {
                    assert(pairs_of(v@)[a] == (v@[a].1, v@[a].2));
                    assert(pairs_of(v@)[b] == (v@[b].1, v@[b].2));
                }
                assert forall|k: int| 0 <= k < v@.len() implies coupling_ok(graph.ids(), graph.edges(), ((#[trigger] v@[k]).0@, v@[k].1, v@[k].2)) by {
                    if k < pos {
                        assert(v@[k] == old_v[k]);
                    } else if k > pos {
                        assert(v@[k] == old_v[k - 1]);
                    }
                }
                assert forall|j: int|
                    0 <= j < i + 1 && (#[trigger] graph.ids()[j]).0 == ModuleOrigin::Internal
                        implies node_scored(graph.ids(), graph.edges(), j, v@) by {
                    if j < i {
                        let k = choose|k: int|
                            0 <= k < old_v.len() && old_v[k].0@ == graph.ids()[j].1 && old_v[k].1 == in_edges(graph.edges(), j as usize).len() && old_v[k].2
                                == out_edges(graph.edges(), j as usize).len();
                        let k2 = if k < pos { k } else { k + 1 };
                        assert(v@[k2] == old_v[k]);
                    } else {
                        assert(v@[pos as int].0@ == graph.ids()[j].1);
                    }
                }
                assert forall|k: int| 0 <= k < v@.len() implies (#[trigger] v@[k]).1 + v@[k].2 <= usize::MAX by {
                    if k < pos {
                        assert(v@[k] == old_v[k]);
                    } else if k > pos {
                        assert(v@[k] == old_v[k - 1]);
                    }
                }
            }
        }
        i = i + 1;
    }
    assert(graph.ids().take(i as int) =~= graph.ids());
    Ok(v)
}

proof fn lemma_edge_lists_bounded(es: Seq<(usize, usize, crate::graph::DependencyType)>, n: usize)
    ensures
        in_edges(es, n).len() + out_edges(es, n).len() <= 2 * es.len(),
    decreases es.len(),
{
    if es.len() > 0 {
        lemma_edge_lists_bounded(es.drop_last(), n);
    }
}

proof fn lemma_unstable_transitive(x: (usize, usize), y: (usize, usize), z: (usize, usize))
    requires
        unstable_first(x, y),
        unstable_first(y, z),
    ensures
        unstable_first(x, z),
{
    let xn = instability_num(x.0 as nat, x.1 as nat) as int;
    let xd = instability_den(x.0 as nat, x.1 as nat) as int;
    let yn = instability_num(y.0 as nat, y.1 as nat) as int;
    let yd = instability_den(y.0 as nat, y.1 as nat) as int;
    let zn = instability_num(z.0 as nat, z.1 as nat) as int;
    let zd = instability_den(z.0 as nat, z.1 as nat) as int;
    assert(xd > 0 && yd > 0 && zd > 0 && xn >= 0 && yn >= 0 && zn >= 0);
    assert(xn * yd >= yn * xd);
    assert(yn * zd >= zn * yd);
    assert(xn * zd >= zn * xd) by (nonlinear_arith)
        requires
            xn * yd >= yn * xd,
            yn * zd >= zn * yd,
            xd > 0,
            yd > 0,
            zd > 0,
            xn >= 0,
            yn >= 0,
            zn >= 0,
    {
        assert(xn * yd * zd >= yn * xd * zd);
        assert(yn * zd * xd >= zn * yd * xd);
        assert(xn * zd * yd >= zn * xd * yd);
    }
}

/// Inserting `e` at `pos`, after every pair at least as unstable and before
/// the first less unstable one, keeps the order.
proof fn lemma_unstable_insert(ps: Seq<(usize, usize)>, pos: int, e: (usize, usize))
    requires
        0 <= pos <= ps.len(),
        forall|x: int, y: int| 0 <= x < y < ps.len() ==> unstable_first(ps[x], ps[y]),
        forall|x: int| 0 <= x < pos ==> unstable_first(ps[x], e),
        pos < ps.len() ==> !unstable_first(ps[pos], e),
    ensures
        forall|x: int, y: int|
            0 <= x < y < ps.len() + 1 ==> unstable_first(ps.insert(pos, e)[x], ps.insert(pos, e)[y]),
{
    let q = ps.insert(pos, e);
    assert forall|x: int, y: int| 0 <= x < y < ps.len() + 1 implies unstable_first(q[x], q[y]) by {
        if x < pos && y == pos {
        } else if x == pos && y > pos {
            assert(unstable_first(e, ps[pos]));
            if y - 1 > pos {
                lemma_unstable_transitive(e, ps[pos], ps[y - 1]);
            }
        } else if x < pos && y > pos {
            assert(q[x] == ps[x] && q[y] == ps[y - 1]);
        } else if y < pos {
            assert(q[x] == ps[x] && q[y] == ps[y]);
        } else {
            assert(q[x] == ps[x - 1] && q[y] == ps[y - 1]);
        }
    }
}

/// The coupling pairs of a list of scores.
pub open spec fn pairs_of(v: Seq<(String, usize, usize)>) -> Seq<(usize, usize)> {
    v.map_values(|e: (String, usize, usize)| (e.1, e.2))
}

} // verus!
