//! The dependency graph: modules as nodes, typed edges between them.
use crate::imports::{ModuleIdentifier, ModuleKey};
use petgraph::visit::EdgeRef;
use petgraph::Graph;
use vstd::prelude::*;

verus! {

/// The kind of relationship an edge records.
#[derive(Debug, Clone, Copy, PartialEq, Eq, Hash, Structural)]
pub enum DependencyType {
    /// The source module imports the target.
    Imports,
    /// The source module is the direct child of the target package.
    IncludedIn,
    /// The source package is the direct parent of the target module.
    Contains,
    /// The module itself; never stored as an edge.
    Is,
}

#[verifier::external_type_specification]
#[verifier::external_body]
#[verifier::reject_recursive_types(N)]
#[verifier::reject_recursive_types(E)]
#[verifier::reject_recursive_types(Ty)]
#[verifier::reject_recursive_types(Ix)]
pub struct ExGraph<N, E, Ty, Ix>(Graph<N, E, Ty, Ix>);

#[verifier::external_type_specification]
#[verifier::external_body]
pub struct ExDirected(petgraph::Directed);

/// The node weights of a petgraph graph, by node index.
pub uninterp spec fn pg_nodes(g: Graph<String, DependencyType>) -> Seq<Seq<char>>;

/// The edges of a petgraph graph, by edge index: source, target, weight.
pub uninterp spec fn pg_edges(g: Graph<String, DependencyType>) -> Seq<(usize, usize, DependencyType)>;

/// Largest node or edge count a graph with 32-bit indices accepts.
pub const MAX_INDEX: usize = 4294967295;

/// Relies on petgraph's `Graph::new`: an empty graph.
#[verifier::external_body]
fn pg_new() -> (g: Graph<String, DependencyType>)
    ensures
        pg_nodes(g) == Seq::<Seq<char>>::empty(),
        pg_edges(g) == Seq::<(usize, usize, DependencyType)>::empty(),
{
    Graph::new()
}

/// Relies on petgraph's `Graph::add_node`: appends a node, whose index is the
/// old node count (it panics only at the index type's maximum).
#[verifier::external_body]
fn pg_add_node(g: &mut Graph<String, DependencyType>, w: String) -> (r: usize)
    requires
        pg_nodes(*old(g)).len() < MAX_INDEX,
    ensures
        pg_nodes(*final(g)) == pg_nodes(*old(g)).push(w@),
        pg_edges(*final(g)) == pg_edges(*old(g)),
        r == pg_nodes(*old(g)).len(),
{
    g.add_node(w).index()
}

/// Relies on petgraph's `Graph::add_edge`: appends an edge (it panics only on a
/// missing endpoint or at the index type's maximum).
#[verifier::external_body]
fn pg_add_edge(g: &mut Graph<String, DependencyType>, a: usize, b: usize, w: DependencyType)
    requires
        a < pg_nodes(*old(g)).len(),
        b < pg_nodes(*old(g)).len(),
        pg_edges(*old(g)).len() < MAX_INDEX,
    ensures
        pg_nodes(*final(g)) == pg_nodes(*old(g)),
        pg_edges(*final(g)) == pg_edges(*old(g)).push((a, b, w)),
{
    g.add_edge(petgraph::graph::NodeIndex::new(a), petgraph::graph::NodeIndex::new(b), w);
}

/// Relies on petgraph's `Graph::node_weight`: the weight of an existing node.
#[verifier::external_body]
fn pg_node_weight(g: &Graph<String, DependencyType>, a: usize) -> (r: Option<&String>)
    requires
        a < pg_nodes(*g).len(),
    ensures
        r is Some && r->0@ == pg_nodes(*g)[a as int],
{
    g.node_weight(petgraph::graph::NodeIndex::new(a))
}

/// Edges leaving `n`, newest first: each as (target, weight).
pub open spec fn out_edges(es: Seq<(usize, usize, DependencyType)>, n: usize) -> Seq<
    (usize, DependencyType),
>
    decreases es.len(),
{
    if es.len() == 0 {
        Seq::empty()
    } else {
        let e = es.last();
        let rest = out_edges(es.drop_last(), n);
        if e.0 == n {
            seq![(e.1, e.2)] + rest
        } else {
            rest
        }
    }
}

/// Edges entering `n`, newest first: each as (source, weight).
pub open spec fn in_edges(es: Seq<(usize, usize, DependencyType)>, n: usize) -> Seq<
    (usize, DependencyType),
>
    decreases es.len(),
{
    if es.len() == 0 {
        Seq::empty()
    } else {
        let e = es.last();
        let rest = in_edges(es.drop_last(), n);
        if e.1 == n {
            seq![(e.0, e.2)] + rest
        } else {
            rest
        }
    }
}

/// Relies on petgraph's `Graph::edges`: on a directed graph it walks the
/// outgoing list of `a`, which `add_edge` extends at its head.
#[verifier::external_body]
fn pg_edges_out(g: &Graph<String, DependencyType>, a: usize) -> (r: Vec<(usize, DependencyType)>)
    requires
        a < pg_nodes(*g).len(),
    ensures
        r@ == out_edges(pg_edges(*g), a),
{
    g.edges(petgraph::graph::NodeIndex::new(a)).map(|e| (e.target().index(), *e.weight())).collect()
}

/// Relies on petgraph's `Graph::edges_directed` with `Incoming`: it walks the
/// incoming list of `a`, which `add_edge` extends at its head.
#[verifier::external_body]
fn pg_edges_in(g: &Graph<String, DependencyType>, a: usize) -> (r: Vec<(usize, DependencyType)>)
    requires
        a < pg_nodes(*g).len(),
    ensures
        r@ == in_edges(pg_edges(*g), a),
{
    g.edges_directed(petgraph::graph::NodeIndex::new(a), petgraph::Direction::Incoming).map(
        |e| (e.source().index(), *e.weight()),
    ).collect()
}

} // verus!

verus! {

/// The paths of a list of strings.
pub open spec fn path_list(v: Seq<String>) -> Seq<Seq<char>> {
    v.map_values(|s: String| s@)
}

/// A list of (path, type) pairs as plain values.
pub open spec fn typed_list(v: Seq<(String, DependencyType)>) -> Seq<(Seq<char>, DependencyType)> {
    v.map_values(|p: (String, DependencyType)| (p.0@, p.1))
}

/// The node that holds module `k`, where there is one.
pub open spec fn node_of(ids: Seq<ModuleKey>, k: ModuleKey) -> int {
    choose|i: int| 0 <= i < ids.len() && ids[i] == k
}

/// Neighbour lists with each node replaced by its path.
pub open spec fn labelled(ids: Seq<ModuleKey>, ns: Seq<(usize, DependencyType)>) -> Seq<
    (Seq<char>, DependencyType),
> {
    ns.map_values(|p: (usize, DependencyType)| (ids[p.0 as int].1, p.1))
}

/// Failure of a graph operation.
#[derive(Debug, PartialEq, Eq)]
pub enum GraphError {
    /// No module with this canonical path is in the graph.
    NotFound(String),
}

impl GraphError {
    /// A sentence describing the failure.
    pub fn message(&self) -> (r: String)
        ensures
            self matches GraphError::NotFound(p) ==> r@ == "Module '"@ + p@ + "' not found"@,
    {
        match self {
            GraphError::NotFound(p) => {
                let mut s = String::from_str("Module '");
                s.append(p.as_str());
                s.append("' not found");
                s
            },
        }
    }
}

/// A directed graph of modules whose edges carry a `DependencyType`.
///
/// Node `i` of the underlying petgraph graph holds the path of
/// `modules[i]`; the vector is the lookup index from identifiers to nodes.
#[derive(Debug)]
pub struct DependencyGraph {
    graph: Graph<String, DependencyType>,
    modules: Vec<ModuleIdentifier>,
}

impl DependencyGraph {
    /// The modules, by node index.
    pub closed spec fn ids(&self) -> Seq<ModuleKey> {
        self.modules@.map_values(|m: ModuleIdentifier| m@)
    }

    /// The edges, in the order they were added: source, target, type.
    pub closed spec fn edges(&self) -> Seq<(usize, usize, DependencyType)> {
        pg_edges(self.graph)
    }

    /// Identifiers are unique, every node is indexed, every edge joins nodes.
    pub closed spec fn wf(&self) -> bool {
        &&& pg_nodes(self.graph).len() == self.modules@.len()
        &&& forall|i: int|
            0 <= i < self.modules@.len() ==> pg_nodes(self.graph)[i]
                == #[trigger] self.modules@[i].canonical_path@
        &&& forall|i: int, j: int|
            0 <= i < j < self.modules@.len() ==> self.modules@[i]@ != self.modules@[j]@
        &&& forall|k: int|
            0 <= k < pg_edges(self.graph).len() ==> (#[trigger] pg_edges(self.graph)[k]).0
                < self.modules@.len() && pg_edges(self.graph)[k].1 < self.modules@.len()
    }

    /// What well-formedness gives a reader of `ids` and `edges`.
    pub proof fn lemma_wf(&self)
        requires
            self.wf(),
        ensures
            forall|i: int, j: int|
                0 <= i < self.ids().len() && 0 <= j < self.ids().len() && self.ids()[i]
                    == self.ids()[j] ==> i == j,
            forall|k: int|
                0 <= k < self.edges().len() ==> (#[trigger] self.edges()[k]).0 < self.ids().len()
                    && self.edges()[k].1 < self.ids().len(),
    {
        assert forall|i: int, j: int|
            0 <= i < self.ids().len() && 0 <= j < self.ids().len() && self.ids()[i]
                == self.ids()[j] implies i == j by {
            if i < j {
                assert(self.modules@[i]@ != self.modules@[j]@);
            } else if j < i {
                assert(self.modules@[j]@ != self.modules@[i]@);
            }
        }
    }

    /// An empty graph.
    pub fn new() -> (r: DependencyGraph)
        ensures
            r.wf(),
            r.ids() == Seq::<ModuleKey>::empty(),
            r.edges() == Seq::<(usize, usize, DependencyType)>::empty(),
    {
        let r = DependencyGraph { graph: pg_new(), modules: Vec::new() };
        assert(r.ids() =~= Seq::<ModuleKey>::empty());
        r
    }

    /// The node of `module_id`, if it is in the graph.
    fn find_node(&self, module_id: &ModuleIdentifier) -> (r: Option<usize>)
        requires
            self.wf(),
        ensures
            r is None <==> !self.ids().contains(module_id@),
            r matches Some(i) ==> i < self.ids().len() && self.ids()[i as int] == module_id@ && i
                == node_of(self.ids(), module_id@),
    {
        let mut i: usize = 0;
        while i < self.modules.len()
            invariant
                self.wf(),
                i <= self.modules@.len(),
                forall|j: int| 0 <= j < i ==> self.ids()[j] != module_id@,
            decreases self.modules@.len() - i,
        {
            if self.modules[i] == *module_id {
                proof {
                    self.lemma_wf();
                    assert(self.ids()[i as int] == module_id@);
                    let c = node_of(self.ids(), module_id@);
                    assert(0 <= c < self.ids().len() && self.ids()[c] == module_id@);
                }
                return Some(i);
            }
            i = i + 1;
        }
        None
    }

    /// Adds a module if it is not yet present; returns its node either way.
    pub fn add_module(&mut self, module_id: ModuleIdentifier) -> (r: usize)
        requires
            old(self).wf(),
            old(self).ids().len() < MAX_INDEX,
        ensures
            final(self).wf(),
            final(self).edges() == old(self).edges(),
            old(self).ids().contains(module_id@) ==> final(self).ids() == old(self).ids() && r
                == node_of(old(self).ids(), module_id@),
            !old(self).ids().contains(module_id@) ==> final(self).ids() == old(self).ids().push(
                module_id@,
            ) && r == old(self).ids().len(),
            final(self).ids()[r as int] == module_id@,
            final(self).ids() == ids_step(old(self).ids(), module_id@),
    {
        match self.find_node(&module_id) {
            Some(i) => i,
            None => {
                let ghost old_ids = self.ids();
                let label = module_id.canonical_path.clone();
                let i = pg_add_node(&mut self.graph, label);
                self.modules.push(module_id);
                proof {
                    assert(self.ids() =~= old_ids.push(module_id@));
                    assert forall|a: int, b: int|
                        0 <= a < b < self.modules@.len() implies self.modules@[a]@
                        != self.modules@[b]@ by {
                        if b == self.modules@.len() - 1 {
                            assert(self.ids()[a] == old_ids[a]);
                            assert(old_ids.contains(self.ids()[a]));
                        } else {
                            assert(self.ids()[a] == old_ids[a] && self.ids()[b] == old_ids[b]);
                        }
                    }
                }
                i
            },
        }
    }

    /// Adds an edge `from_module -> to_module`; both must already be present.
    pub fn add_dependency(
        &mut self,
        from_module: &ModuleIdentifier,
        to_module: &ModuleIdentifier,
        dependency_type: DependencyType,
    ) -> (r: Result<(), GraphError>)
        requires
            old(self).wf(),
            old(self).edges().len() < MAX_INDEX,
        ensures
            final(self).wf(),
            final(self).ids() == old(self).ids(),
            r is Ok <==> old(self).ids().contains(from_module@) && old(self).ids().contains(
                to_module@,
            ),
            r is Ok ==> final(self).edges() == old(self).edges().push(
                (
                    node_of(old(self).ids(), from_module@) as usize,
                    node_of(old(self).ids(), to_module@) as usize,
                    dependency_type,
                ),
            ),
            r is Err ==> final(self).edges() == old(self).edges(),
            !old(self).ids().contains(from_module@) ==> (r matches Err(GraphError::NotFound(p))
                && p@ == from_module.canonical_path@),
            old(self).ids().contains(from_module@) && !old(self).ids().contains(to_module@) ==> (r
                matches Err(GraphError::NotFound(p)) && p@ == to_module.canonical_path@),
    {
        let a = match self.find_node(from_module) {
            Some(a) => a,
            None => {
                return Err(GraphError::NotFound(from_module.canonical_path.clone()));
            },
        };
        let b = match self.find_node(to_module) {
            Some(b) => b,
            None => {
                return Err(GraphError::NotFound(to_module.canonical_path.clone()));
            },
        };
        let ghost old_g = self.graph;
        pg_add_edge(&mut self.graph, a, b, dependency_type);
        proof {
            assert forall|k: int| 0 <= k < pg_edges(self.graph).len() implies (#[trigger] pg_edges(
                self.graph,
            )[k]).0 < self.modules@.len() && pg_edges(self.graph)[k].1 < self.modules@.len() by {
                if k < pg_edges(old_g).len() {
                    assert(pg_edges(self.graph)[k] == pg_edges(old_g)[k]);
                }
            }
        }
        Ok(())
    }

    /// The number of modules.
    pub fn module_count(&self) -> (r: usize)
        requires
            self.wf(),
        ensures
            r == self.ids().len(),
    {
        self.modules.len()
    }

    /// The number of edges.
    pub fn dependency_count(&self) -> (r: usize)
        requires
            self.wf(),
        ensures
            r == self.edges().len(),
    {
        pg_edge_count(&self.graph)
    }

    /// All modules, by node index.
    pub fn all_modules(&self) -> (r: &Vec<ModuleIdentifier>)
        requires
            self.wf(),
        ensures
            r@.map_values(|m: ModuleIdentifier| m@) == self.ids(),
    {
        &self.modules
    }
}

/// Relies on petgraph's `Graph::edge_count`: the number of edges.
#[verifier::external_body]
fn pg_edge_count(g: &Graph<String, DependencyType>) -> (r: usize)
    ensures
        r == pg_edges(*g).len(),
{
    g.edge_count()
}

} // verus!

verus! {

/// Every neighbour listed for `n` stems from an edge of `es`.
pub proof fn lemma_out_edges_from(es: Seq<(usize, usize, DependencyType)>, n: usize, k: int)
    requires
        0 <= k < out_edges(es, n).len(),
    ensures
        exists|j: int|
            0 <= j < es.len() && #[trigger] es[j] == (n, out_edges(es, n)[k].0, out_edges(
                es,
                n,
            )[k].1),
    decreases es.len(),
{
    let e = es.last();
    let rest = out_edges(es.drop_last(), n);
    if e.0 == n && k == 0 {
        assert(es[es.len() - 1] == (n, out_edges(es, n)[k].0, out_edges(es, n)[k].1));
    } else {
        let k2 = if e.0 == n {
            k - 1
        } else {
            k
        };
        assert(rest[k2] == out_edges(es, n)[k]);
        lemma_out_edges_from(es.drop_last(), n, k2);
        let j = choose|j: int|
            0 <= j < es.drop_last().len() && #[trigger] es.drop_last()[j] == (n, rest[k2].0, rest[k2].1);
        assert(es[j] == es.drop_last()[j]);
    }
}

/// Every edge of `es` leaving `n` is listed among `n`'s neighbours.
pub proof fn lemma_out_edges_complete(es: Seq<(usize, usize, DependencyType)>, n: usize, j: int)
    requires
        0 <= j < es.len(),
        es[j].0 == n,
    ensures
        out_edges(es, n).contains((es[j].1, es[j].2)),
    decreases es.len(),
{
    let rest = out_edges(es.drop_last(), n);
    if j == es.len() - 1 {
        assert(out_edges(es, n)[0] == (es[j].1, es[j].2));
    } else {
        assert(es.drop_last()[j] == es[j]);
        lemma_out_edges_complete(es.drop_last(), n, j);
        let k = choose|k: int| 0 <= k < rest.len() && rest[k] == (es[j].1, es[j].2);
        if es.last().0 == n {
            assert(out_edges(es, n)[k + 1] == rest[k]);
        } else {
            assert(out_edges(es, n)[k] == rest[k]);
        }
    }
}

/// Every neighbour listed as entering `n` stems from an edge of `es`.
pub proof fn lemma_in_edges_from(es: Seq<(usize, usize, DependencyType)>, n: usize, k: int)
    requires
        0 <= k < in_edges(es, n).len(),
    ensures
        exists|j: int|
            0 <= j < es.len() && #[trigger] es[j] == (in_edges(es, n)[k].0, n, in_edges(
                es,
                n,
            )[k].1),
    decreases es.len(),
{
    let e = es.last();
    let rest = in_edges(es.drop_last(), n);
    if e.1 == n && k == 0 {
        assert(es[es.len() - 1] == (in_edges(es, n)[k].0, n, in_edges(es, n)[k].1));
    } else {
        let k2 = if e.1 == n {
            k - 1
        } else {
            k
        };
        assert(rest[k2] == in_edges(es, n)[k]);
        lemma_in_edges_from(es.drop_last(), n, k2);
        let j = choose|j: int|
            0 <= j < es.drop_last().len() && #[trigger] es.drop_last()[j] == (rest[k2].0, n, rest[k2].1);
        assert(es[j] == es.drop_last()[j]);
    }
}

/// `v` is `s` or lies below it through at most `k` `Contains` edges.
pub open spec fn within(es: Seq<(usize, usize, DependencyType)>, s: usize, v: usize, k: nat) -> bool
    decreases k,
{
    if k == 0 {
        v == s
    } else {
        within(es, s, v, (k - 1) as nat) || exists|j: int|
            0 <= j < es.len() && (#[trigger] es[j]).1 == v && es[j].2 == DependencyType::Contains
                && within(es, s, es[j].0, (k - 1) as nat)
    }
}

/// `v` is `s` or lies below it through `Contains` edges.
pub open spec fn contained_in(es: Seq<(usize, usize, DependencyType)>, s: usize, v: usize) -> bool {
    exists|k: nat| within(es, s, v, k)
}

impl DependencyGraph {
    proof fn lemma_neighbours_bounded(&self, n: usize)
        requires
            self.wf(),
        ensures
            forall|k: int|
                0 <= k < out_edges(self.edges(), n).len() ==> (#[trigger] out_edges(
                    self.edges(),
                    n,
                )[k]).0 < self.ids().len(),
            forall|k: int|
                0 <= k < in_edges(self.edges(), n).len() ==> (#[trigger] in_edges(
                    self.edges(),
                    n,
                )[k]).0 < self.ids().len(),
    {
        self.lemma_wf();
        assert forall|k: int| 0 <= k < out_edges(self.edges(), n).len() implies (#[trigger] out_edges(
            self.edges(),
            n,
        )[k]).0 < self.ids().len() by {
            lemma_out_edges_from(self.edges(), n, k);
        }
        assert forall|k: int| 0 <= k < in_edges(self.edges(), n).len() implies (#[trigger] in_edges(
            self.edges(),
            n,
        )[k]).0 < self.ids().len() by {
            lemma_in_edges_from(self.edges(), n, k);
        }
    }

    /// The path of node `i`.
    fn label(&self, i: usize) -> (r: &String)
        requires
            self.wf(),
            i < self.ids().len(),
        ensures
            r@ == self.ids()[i as int].1,
    {
        match pg_node_weight(&self.graph, i) {
            Some(w) => w,
            None => &self.modules[i].canonical_path,
        }
    }

    /// Replaces each node of a neighbour list by its path.
    fn label_all(&self, ns: &Vec<(usize, DependencyType)>) -> (r: Vec<(String, DependencyType)>)
        requires
            self.wf(),
            forall|k: int| 0 <= k < ns@.len() ==> (#[trigger] ns@[k]).0 < self.ids().len(),
        ensures
            typed_list(r@) == labelled(self.ids(), ns@),
    {
        let mut r: Vec<(String, DependencyType)> = Vec::new();
        let mut k: usize = 0;
        while k < ns.len()
            invariant
                self.wf(),
                forall|k: int| 0 <= k < ns@.len() ==> (#[trigger] ns@[k]).0 < self.ids().len(),
                k <= ns@.len(),
                typed_list(r@) == labelled(self.ids(), ns@.take(k as int)),
            decreases ns@.len() - k,
        {
            let (t, w) = ns[k];
            let p = self.label(t).clone();
            let ghost old_r = r@;
            r.push((p, w));
            assert(typed_list(r@) =~= typed_list(old_r).push((p@, w)));
            assert(ns@.take(k + 1) =~= ns@.take(k as int).push(ns@[k as int]));
            assert(typed_list(r@) =~= labelled(self.ids(), ns@.take(k + 1)));
            k = k + 1;
        }
        assert(ns@.take(k as int) =~= ns@);
        r
    }

    /// Outgoing neighbours of `module_id` with edge types, newest edge first.
    pub fn get_dependencies_with_types(&self, module_id: &ModuleIdentifier) -> (r: Result<
        Vec<(String, DependencyType)>,
        GraphError,
    >)
        requires
            self.wf(),
        ensures
            r is Err <==> !self.ids().contains(module_id@),
            r matches Err(GraphError::NotFound(p)) ==> p@ == module_id.canonical_path@,
            r matches Ok(v) ==> typed_list(v@) == labelled(
                self.ids(),
                out_edges(self.edges(), node_of(self.ids(), module_id@) as usize),
            ),
    {
        match self.find_node(module_id) {
            None => Err(GraphError::NotFound(module_id.canonical_path.clone())),
            Some(i) => {
                let ns = pg_edges_out(&self.graph, i);
                proof {
                    self.lemma_neighbours_bounded(i);
                    assert forall|k: int| 0 <= k < ns@.len() implies (#[trigger] ns@[k]).0
                        < self.ids().len() by {
                        assert(ns@[k] == out_edges(self.edges(), i)[k]);
                    }
                }
                Ok(self.label_all(&ns))
            },
        }
    }

    /// Drops the types from a labelled neighbour list.
    fn paths_only(v: Vec<(String, DependencyType)>) -> (r: Vec<String>)
        ensures
            path_list(r@) == typed_list(v@).map_values(|p: (Seq<char>, DependencyType)| p.0),
    {
        let mut r: Vec<String> = Vec::new();
        let mut k: usize = 0;
        while k < v.len()
            invariant
                k <= v@.len(),
                path_list(r@) == typed_list(v@.take(k as int)).map_values(
                    |p: (Seq<char>, DependencyType)| p.0,
                ),
            decreases v@.len() - k,
        {
            let ghost old_r = r@;
            r.push(v[k].0.clone());
            assert(path_list(r@) =~= path_list(old_r).push(v@[k as int].0@));
            assert(v@.take(k + 1) =~= v@.take(k as int).push(v@[k as int]));
            assert(path_list(r@) =~= typed_list(v@.take(k + 1)).map_values(
                |p: (Seq<char>, DependencyType)| p.0,
            ));
            k = k + 1;
        }
        assert(v@.take(k as int) =~= v@);
        r
    }

    /// Paths of the modules `module_id` has edges to, newest edge first.
    pub fn get_dependencies(&self, module_id: &ModuleIdentifier) -> (r: Result<
        Vec<String>,
        GraphError,
    >)
        requires
            self.wf(),
        ensures
            r is Err <==> !self.ids().contains(module_id@),
            r matches Err(GraphError::NotFound(p)) ==> p@ == module_id.canonical_path@,
            r matches Ok(v) ==> path_list(v@) == labelled(
                self.ids(),
                out_edges(self.edges(), node_of(self.ids(), module_id@) as usize),
            ).map_values(|p: (Seq<char>, DependencyType)| p.0),
    {
        match self.get_dependencies_with_types(module_id) {
            Err(e) => Err(e),
            Ok(v) => Ok(Self::paths_only(v)),
        }
    }

    /// Incoming neighbours of `module_id` with edge types, newest edge first.
    pub fn get_dependents_with_types(&self, module_id: &ModuleIdentifier) -> (r: Result<
        Vec<(String, DependencyType)>,
        GraphError,
    >)
        requires
            self.wf(),
        ensures
            r is Err <==> !self.ids().contains(module_id@),
            r matches Err(GraphError::NotFound(p)) ==> p@ == module_id.canonical_path@,
            r matches Ok(v) ==> typed_list(v@) == labelled(
                self.ids(),
                in_edges(self.edges(), node_of(self.ids(), module_id@) as usize),
            ),
    {
        match self.find_node(module_id) {
            None => Err(GraphError::NotFound(module_id.canonical_path.clone())),
            Some(i) => {
                let ns = pg_edges_in(&self.graph, i);
                proof {
                    self.lemma_neighbours_bounded(i);
                    assert forall|k: int| 0 <= k < ns@.len() implies (#[trigger] ns@[k]).0
                        < self.ids().len() by {
                        assert(ns@[k] == in_edges(self.edges(), i)[k]);
                    }
                }
                Ok(self.label_all(&ns))
            },
        }
    }

    /// Paths of the modules with edges to `module_id`, newest edge first.
    pub fn get_dependents(&self, module_id: &ModuleIdentifier) -> (r: Result<
        Vec<String>,
        GraphError,
    >)
        requires
            self.wf(),
        ensures
            r is Err <==> !self.ids().contains(module_id@),
            r matches Err(GraphError::NotFound(p)) ==> p@ == module_id.canonical_path@,
            r matches Ok(v) ==> path_list(v@) == labelled(
                self.ids(),
                in_edges(self.edges(), node_of(self.ids(), module_id@) as usize),
            ).map_values(|p: (Seq<char>, DependencyType)| p.0),
    {
        match self.get_dependents_with_types(module_id) {
            Err(e) => Err(e),
            Ok(v) => Ok(Self::paths_only(v)),
        }
    }
}

} // verus!

verus! {

/// A sequence of distinct indices below `n` has at most `n` elements.
pub proof fn lemma_distinct_bounded(s: Seq<usize>, n: usize)
    requires
        s.no_duplicates(),
        forall|k: int| 0 <= k < s.len() ==> s[k] < n,
    ensures
        s.len() <= n,
{
    let t = s.map_values(|x: usize| x as int);
    assert(t.no_duplicates()) by {
        assert forall|i: int, j: int| 0 <= i < t.len() && 0 <= j < t.len() && i != j implies t[i]
            != t[j] by {
            assert(s[i] != s[j]);
        }
    }
    t.unique_seq_to_set();
    vstd::set_lib::lemma_int_range(0, n as int);
    assert(t.to_set().subset_of(vstd::set_lib::set_int_range(0, n as int)));
    vstd::set_lib::lemma_len_subset(t.to_set(), vstd::set_lib::set_int_range(0, n as int));
}

impl DependencyGraph {
    /// The node `start` and the nodes below it through `Contains` edges, in
    /// breadth-first order; `start` itself only when `include_self` holds.
    pub closed spec fn descendants_ok(
        &self,
        start: usize,
        include_self: bool,
        v: Seq<usize>,
    ) -> bool {
        let es = self.edges();
        &&& v.no_duplicates()
        &&& forall|k: int| 0 <= k < v.len() ==> v[k] < self.ids().len()
        &&& include_self ==> v.len() > 0 && v[0] == start
        &&& forall|k: int| 0 <= k < v.len() ==> contained_in(es, start, #[trigger] v[k])
        &&& forall|j: int|
            0 <= j < es.len() && (#[trigger] es[j]).2 == DependencyType::Contains && (es[j].0
                == start || v.contains(es[j].0)) ==> v.contains(es[j].1)
    }

    #[verifier::rlimit(50)]
    fn descendants_via_contains(&self, start: usize, include_self: bool) -> (r: Vec<usize>)
        requires
            self.wf(),
            start < self.ids().len(),
        ensures
            self.descendants_ok(start, include_self, r@),
    {
        let ghost es = self.edges();
        let n = self.modules.len();
        let mut visited: Vec<bool> = Vec::new();
        while visited.len() < n
            invariant
                visited@.len() <= n,
                forall|x: int| 0 <= x < visited@.len() ==> !visited@[x],
            decreases n - visited@.len(),
        {
            visited.push(false);
        }
        let mut result: Vec<usize> = Vec::new();
        let mut queue: Vec<usize> = Vec::new();
        if include_self {
            visited.set(start, true);
            result.push(start);
        }
        queue.push(start);
        let mut head: usize = 0;
        proof {
            assert forall|x: int| 0 <= x < n implies (visited@[x] <==> result@.contains(x as usize)) by {
                if include_self && x == start {
                    assert(result@[0] == start);
                }
            }
            assert(within(es, start, start, 0));
            if include_self {
                assert(queue@ =~= seq![start] + result@.drop_first());
            } else {
                assert(queue@ =~= seq![start] + result@);
            }
        }
        while head < queue.len()
            invariant
                self.wf(),
                es == self.edges(),
                n == self.ids().len(),
                start < n,
                visited@.len() == n,
                forall|x: int| 0 <= x < n ==> (visited@[x] <==> result@.contains(x as usize)),
                result@.no_duplicates(),
                forall|k: int| 0 <= k < result@.len() ==> result@[k] < n,
                include_self ==> result@.len() > 0 && result@[0] == start,
                include_self ==> queue@ == seq![start] + result@.drop_first(),
                !include_self ==> queue@ == seq![start] + result@,
                head <= queue@.len(),
                forall|k: int| 0 <= k < result@.len() ==> contained_in(es, start, #[trigger] result@[k]),
                forall|j: int|
                    0 <= j < es.len() && (#[trigger] es[j]).2 == DependencyType::Contains
                        && queue@.take(head as int).contains(es[j].0) ==> visited@[es[j].1 as int],
            decreases n + 1 - head,
        {
            proof {
                lemma_distinct_bounded(result@, n);
            }
            let cur = queue[head];
            assert(cur == start || result@.contains(cur)) by {
                if head > 0 {
                    if include_self {
                        assert(queue@[head as int] == result@.drop_first()[head - 1]);
                    } else {
                        assert(queue@[head as int] == result@[head - 1]);
                    }
                }
            }
            let ns = pg_edges_out(&self.graph, cur);
            proof {
                self.lemma_neighbours_bounded(cur);
            }
            let ghost head_before = head;
            let mut k: usize = 0;
            while k < ns.len()
                invariant
                    self.wf(),
                    es == self.edges(),
                    n == self.ids().len(),
                    start < n,
                    cur < n,
                    cur == start || result@.contains(cur),
                    ns@ == out_edges(es, cur),
                    forall|m: int| 0 <= m < ns@.len() ==> (#[trigger] ns@[m]).0 < n,
                    k <= ns@.len(),
                    visited@.len() == n,
                    forall|x: int| 0 <= x < n ==> (visited@[x] <==> result@.contains(x as usize)),
                    result@.no_duplicates(),
                    forall|q: int| 0 <= q < result@.len() ==> result@[q] < n,
                    include_self ==> result@.len() > 0 && result@[0] == start,
                    include_self ==> queue@ == seq![start] + result@.drop_first(),
                    !include_self ==> queue@ == seq![start] + result@,
                    head == head_before,
                    head < queue@.len(),
                    queue@[head as int] == cur,
                    forall|q: int| 0 <= q < result@.len() ==> contained_in(es, start, #[trigger] result@[q]),
                    forall|j: int|
                        0 <= j < es.len() && (#[trigger] es[j]).2 == DependencyType::Contains
                            && queue@.take(head as int).contains(es[j].0) ==> visited@[es[j].1 as int],
                    forall|m: int|
                        0 <= m < k && (#[trigger] ns@[m]).1 == DependencyType::Contains ==> visited@[ns@[m].0 as int],
                decreases ns@.len() - k,
            {
                let (c, w) = ns[k];
                if w == DependencyType::Contains && !visited[c] {
                    proof {
                        lemma_out_edges_from(es, cur, k as int);
                        let j = choose|j: int| 0 <= j < es.len() && #[trigger] es[j] == (cur, ns@[k as int].0, ns@[k as int].1);
                        let d = if cur == start {
                            0nat
                        } else {
                            let q = choose|q: int| 0 <= q < result@.len() && result@[q] == cur;
                            assert(contained_in(es, start, result@[q]));
                            choose|d: nat| within(es, start, cur, d)
                        };
                        assert(within(es, start, cur, d));
                        assert(es[j].1 == c && es[j].2 == DependencyType::Contains && within(es, start, es[j].0, d));
                        assert(within(es, start, c, d + 1));
                        assert(contained_in(es, start, c));
                    }
                    let ghost old_result = result@;
                    let ghost old_queue = queue@;
                    visited.set(c, true);
                    result.push(c);
                    queue.push(c);
                    proof {
                        assert forall|x: int| 0 <= x < n implies (visited@[x] <==> result@.contains(x as usize)) by {
                            if x == c as int {
                                assert(result@[result@.len() - 1] == c);
                            } else {
                                if result@.contains(x as usize) {
                                    let q = choose|q: int| 0 <= q < result@.len() && result@[q] == x as usize;
                                    assert(old_result[q] == x as usize);
                                }
                                if old_result.contains(x as usize) {
                                    let q = choose|q: int| 0 <= q < old_result.len() && old_result[q] == x as usize;
                                    assert(result@[q] == x as usize);
                                }
                            }
                        }
                        assert(!old_result.contains(c));
                        assert forall|a: int, b: int| 0 <= a < result@.len() && 0 <= b < result@.len() && a != b implies result@[a] != result@[b] by {
                            if a == result@.len() - 1 {
                                assert(old_result[b] == result@[b]);
                            } else if b == result@.len() - 1 {
                                assert(old_result[a] == result@[a]);
                            } else {
                                assert(old_result[a] == result@[a] && old_result[b] == result@[b]);
                            }
                        }
                        if include_self {
                            assert(queue@ =~= seq![start] + result@.drop_first());
                        } else {
                            assert(queue@ =~= seq![start] + result@);
                        }
                        assert(queue@.take(head as int) =~= old_queue.take(head as int));
                        assert forall|q: int| 0 <= q < result@.len() implies contained_in(es, start, #[trigger] result@[q]) by {
                            if q < old_result.len() {
                                assert(old_result[q] == result@[q]);
                                assert(contained_in(es, start, old_result[q]));
                            } else {
                                assert(result@[q] == c);
                                assert(contained_in(es, start, c));
                            }
                        }
                        if cur != start {
                            let q = choose|q: int| 0 <= q < old_result.len() && old_result[q] == cur;
                            assert(result@[q] == cur);
                        }
                    }
                }
                k = k + 1;
            }
            proof {
                assert(queue@.take(head + 1) =~= queue@.take(head as int).push(cur));
                assert forall|j: int|
                    0 <= j < es.len() && (#[trigger] es[j]).2 == DependencyType::Contains
                        && queue@.take(head + 1).contains(es[j].0) implies visited@[es[j].1 as int] by {
                    if es[j].0 == cur {
                        lemma_out_edges_complete(es, cur, j);
                        let m = choose|m: int| 0 <= m < ns@.len() && ns@[m] == (es[j].1, es[j].2);
                    } else {
                        let t = queue@.take(head + 1);
                        let q = choose|q: int| 0 <= q < t.len() && t[q] == es[j].0;
                        assert(queue@.take(head as int)[q] == es[j].0);
                    }
                }
            }
            head = head + 1;
        }
        proof {
            assert(queue@.take(head as int) =~= queue@);
            assert forall|j: int|
                0 <= j < es.len() && (#[trigger] es[j]).2 == DependencyType::Contains && (es[j].0
                    == start || result@.contains(es[j].0)) implies result@.contains(es[j].1) by {
                if es[j].0 == start {
                    assert(queue@[0] == start);
                } else {
                    let q = choose|q: int| 0 <= q < result@.len() && result@[q] == es[j].0;
                    if include_self {
                        if q > 0 {
                            assert(queue@[q] == result@.drop_first()[q - 1]);
                        } else {
                            assert(queue@[0] == start);
                        }
                    } else {
                        assert(queue@[q + 1] == result@[q]);
                    }
                }
                assert(visited@[es[j].1 as int]);
            }
        }
        result
    }
}

} // verus!

verus! {

/// Every edge of `es` entering `n` is listed among `n`'s incoming neighbours.
pub proof fn lemma_in_edges_complete(es: Seq<(usize, usize, DependencyType)>, n: usize, j: int)
    requires
        0 <= j < es.len(),
        es[j].1 == n,
    ensures
        in_edges(es, n).contains((es[j].0, es[j].2)),
    decreases es.len(),
{
    let rest = in_edges(es.drop_last(), n);
    if j == es.len() - 1 {
        assert(in_edges(es, n)[0] == (es[j].0, es[j].2));
    } else {
        assert(es.drop_last()[j] == es[j]);
        lemma_in_edges_complete(es.drop_last(), n, j);
        let k = choose|k: int| 0 <= k < rest.len() && rest[k] == (es[j].0, es[j].2);
        if es.last().1 == n {
            assert(in_edges(es, n)[k + 1] == rest[k]);
        } else {
            assert(in_edges(es, n)[k] == rest[k]);
        }
    }
}

/// The end of edge `e` that lies in the subtree being examined.
pub open spec fn near_end(e: (usize, usize, DependencyType), incoming: bool) -> usize {
    if incoming {
        e.1
    } else {
        e.0
    }
}

/// The end of edge `e` that is reported.
pub open spec fn far_end(e: (usize, usize, DependencyType), incoming: bool) -> usize {
    if incoming {
        e.0
    } else {
        e.1
    }
}

/// Entry `x` stems from a non-`Contains` edge whose near end lies in the
/// `Contains` subtree of `start`.
pub open spec fn reported(
    ids: Seq<ModuleKey>,
    es: Seq<(usize, usize, DependencyType)>,
    start: usize,
    incoming: bool,
    x: (Seq<char>, DependencyType),
) -> bool {
    exists|j: int|
        0 <= j < es.len() && (#[trigger] es[j]).2 == x.1 && x.1 != DependencyType::Contains
            && contained_in(es, start, near_end(es[j], incoming)) && ids[far_end(
            es[j],
            incoming,
        ) as int].1 == x.0
}

/// `v` is exactly the de-duplicated list of paths reached through non-`Contains`
/// edges touching the `Contains` subtree of `start` at their near end.
pub open spec fn transitive_ok(
    ids: Seq<ModuleKey>,
    es: Seq<(usize, usize, DependencyType)>,
    start: usize,
    incoming: bool,
    v: Seq<(Seq<char>, DependencyType)>,
) -> bool {
    &&& forall|a: int, b: int| 0 <= a < b < v.len() ==> v[a].0 != v[b].0
    &&& forall|k: int| 0 <= k < v.len() ==> reported(ids, es, start, incoming, #[trigger] v[k])
    &&& forall|j: int|
        0 <= j < es.len() && (#[trigger] es[j]).2 != DependencyType::Contains && contained_in(
            es,
            start,
            near_end(es[j], incoming),
        ) ==> exists|k: int| 0 <= k < v.len() && v[k].0 == ids[far_end(es[j], incoming) as int].1
}

/// Whether some entry of `v` at or after `from` has path `p`.
pub(crate) fn has_path(v: &Vec<(String, DependencyType)>, from: usize, p: &String) -> (r: bool)
    ensures
        r == exists|k: int| from <= k < v@.len() && (#[trigger] v@[k]).0@ == p@,
{
    let mut k = from;
    while k < v.len()
        invariant
            from <= k,
            forall|m: int| from <= m < k ==> v@[m].0@ != p@,
        decreases v@.len() - k,
    {
        if v[k].0 == *p {
            assert(v@[k as int].0@ == p@);
            return true;
        }
        k = k + 1;
    }
    false
}

impl DependencyGraph {
    proof fn lemma_descendants_complete(&self, start: usize, v: Seq<usize>)
        requires
            self.descendants_ok(start, true, v),
        ensures
            forall|x: usize| contained_in(self.edges(), start, x) ==> v.contains(x),
    {
        assert forall|x: usize| contained_in(self.edges(), start, x) implies v.contains(x) by {
            let k = choose|k: nat| within(self.edges(), start, x, k);
            self.lemma_within_listed(start, v, x, k);
        }
    }

    proof fn lemma_within_listed(&self, start: usize, v: Seq<usize>, x: usize, k: nat)
        requires
            self.descendants_ok(start, true, v),
            within(self.edges(), start, x, k),
        ensures
            v.contains(x),
        decreases k,
    {
        let es = self.edges();
        if k == 0 {
            assert(v[0] == start);
        } else if within(es, start, x, (k - 1) as nat) {
            self.lemma_within_listed(start, v, x, (k - 1) as nat);
        } else {
            let j = choose|j: int|
                0 <= j < es.len() && (#[trigger] es[j]).1 == x && es[j].2 == DependencyType::Contains
                    && within(es, start, es[j].0, (k - 1) as nat);
            self.lemma_within_listed(start, v, es[j].0, (k - 1) as nat);
        }
    }

    /// Collects the far ends of the non-`Contains` edges whose near end lies in
    /// the `Contains` subtree of `start`, once per path.
    #[verifier::rlimit(60)]
    fn transitive_neighbours(&self, start: usize, incoming: bool) -> (r: Vec<(String, DependencyType)>)
        requires
            self.wf(),
            start < self.ids().len(),
        ensures
            transitive_ok(self.ids(), self.edges(), start, incoming, typed_list(r@)),
    {
        let ghost es = self.edges();
        let ghost ids = self.ids();
        let nodes = self.descendants_via_contains(start, true);
        proof {
            self.lemma_descendants_complete(start, nodes@);
            self.lemma_wf();
        }
        let mut result: Vec<(String, DependencyType)> = Vec::new();
        let mut i: usize = 0;
        while i < nodes.len()
            invariant
                self.wf(),
                es == self.edges(),
                ids == self.ids(),
                self.descendants_ok(start, true, nodes@),
                i <= nodes@.len(),
                forall|a: int, b: int|
                    0 <= a < b < result@.len() ==> result@[a].0@ != result@[b].0@,
                forall|k: int|
                    0 <= k < result@.len() ==> reported(ids, es, start, incoming, (#[trigger] result@[k].0@, result@[k].1)),
                forall|j: int|
                    0 <= j < es.len() && (#[trigger] es[j]).2 != DependencyType::Contains
                        && nodes@.take(i as int).contains(near_end(es[j], incoming)) ==> exists|k: int|
                        0 <= k < result@.len() && result@[k].0@ == ids[far_end(es[j], incoming) as int].1,
            decreases nodes@.len() - i,
        {
            let d = nodes[i];
            let ns = if incoming {
                pg_edges_in(&self.graph, d)
            } else {
                pg_edges_out(&self.graph, d)
            };
            proof {
                self.lemma_neighbours_bounded(d);
            }
            let ghost ns0 = ns@;
            let mut k: usize = 0;
            while k < ns.len()
                invariant
                    self.wf(),
                    es == self.edges(),
                    ids == self.ids(),
                    self.descendants_ok(start, true, nodes@),
                    i < nodes@.len(),
                    d == nodes@[i as int],
                    incoming ==> ns@ == in_edges(es, d),
                    !incoming ==> ns@ == out_edges(es, d),
                    forall|m: int| 0 <= m < ns@.len() ==> (#[trigger] ns@[m]).0 < ids.len(),
                    k <= ns@.len(),
                    forall|a: int, b: int|
                        0 <= a < b < result@.len() ==> result@[a].0@ != result@[b].0@,
                    forall|q: int|
                        0 <= q < result@.len() ==> reported(ids, es, start, incoming, (#[trigger] result@[q].0@, result@[q].1)),
                    forall|j: int|
                        0 <= j < es.len() && (#[trigger] es[j]).2 != DependencyType::Contains
                            && nodes@.take(i as int).contains(near_end(es[j], incoming)) ==> exists|q: int|
                            0 <= q < result@.len() && result@[q].0@ == ids[far_end(es[j], incoming) as int].1,
                    forall|m: int|
                        0 <= m < k && (#[trigger] ns@[m]).1 != DependencyType::Contains ==> exists|q: int|
                            0 <= q < result@.len() && result@[q].0@ == ids[ns@[m].0 as int].1,
                decreases ns@.len() - k,
            {
                let (o, w) = ns[k];
                if w != DependencyType::Contains {
                    let p = self.label(o);
                    if !has_path(&result, 0, p) {
                        let ghost old_result = result@;
                        proof {
                            let j = if incoming {
                                lemma_in_edges_from(es, d, k as int);
                                choose|j: int| 0 <= j < es.len() && #[trigger] es[j] == (ns@[k as int].0, d, ns@[k as int].1)
                            } else {
                                lemma_out_edges_from(es, d, k as int);
                                choose|j: int| 0 <= j < es.len() && #[trigger] es[j] == (d, ns@[k as int].0, ns@[k as int].1)
                            };
                            assert(contained_in(es, start, nodes@[i as int]));
                            assert(es[j].2 == w && near_end(es[j], incoming) == d && far_end(es[j], incoming) == o);
                        }
                        result.push((p.clone(), w));
                        proof {
                            assert forall|q: int| 0 <= q < result@.len() implies reported(ids, es, start, incoming, (#[trigger] result@[q].0@, result@[q].1)) by {
                                if q < old_result.len() {
                                    assert(result@[q] == old_result[q]);
                                }
                            }
                            assert forall|j: int|
                                0 <= j < es.len() && (#[trigger] es[j]).2 != DependencyType::Contains
                                    && nodes@.take(i as int).contains(near_end(es[j], incoming)) implies exists|q: int|
                                    0 <= q < result@.len() && result@[q].0@ == ids[far_end(es[j], incoming) as int].1 by {
                                let q = choose|q: int| 0 <= q < old_result.len() && old_result[q].0@ == ids[far_end(es[j], incoming) as int].1;
                                assert(result@[q] == old_result[q]);
                            }
                            assert forall|m: int|
                                0 <= m < k + 1 && (#[trigger] ns@[m]).1 != DependencyType::Contains implies exists|q: int|
                                0 <= q < result@.len() && result@[q].0@ == ids[ns@[m].0 as int].1 by {
                                if m < k {
                                    let q = choose|q: int| 0 <= q < old_result.len() && old_result[q].0@ == ids[ns@[m].0 as int].1;
                                    assert(result@[q] == old_result[q]);
                                } else {
                                    assert(result@[old_result.len() as int].0@ == ids[ns@[m].0 as int].1);
                                }
                            }
                        }
                    }
                }
                k = k + 1;
            }
            proof {
                let t = nodes@.take(i + 1);
                assert(t =~= nodes@.take(i as int).push(d));
                assert forall|j: int|
                    0 <= j < es.len() && (#[trigger] es[j]).2 != DependencyType::Contains
                        && t.contains(near_end(es[j], incoming)) implies exists|q: int|
                        0 <= q < result@.len() && result@[q].0@ == ids[far_end(es[j], incoming) as int].1 by {
                    if near_end(es[j], incoming) == d {
                        if incoming {
                            lemma_in_edges_complete(es, d, j);
                        } else {
                            lemma_out_edges_complete(es, d, j);
                        }
                        assert(ns@.contains((far_end(es[j], incoming), es[j].2)));
                        let m = choose|m: int| 0 <= m < ns@.len() && #[trigger] ns@[m] == (far_end(es[j], incoming), es[j].2);
                    } else {
                        let q = choose|q: int| 0 <= q < t.len() && t[q] == near_end(es[j], incoming);
                        assert(nodes@.take(i as int)[q] == near_end(es[j], incoming));
                    }
                }
            }
            i = i + 1;
        }
        proof {
            assert(nodes@.take(i as int) =~= nodes@);
            let v = typed_list(result@);
            assert forall|k: int| 0 <= k < v.len() implies reported(ids, es, start, incoming, #[trigger] v[k]) by {
                assert(v[k] == (result@[k].0@, result@[k].1));
            }
            assert forall|j: int|
                0 <= j < es.len() && (#[trigger] es[j]).2 != DependencyType::Contains && contained_in(
                    es,
                    start,
                    near_end(es[j], incoming),
                ) implies exists|k: int| 0 <= k < v.len() && v[k].0 == ids[far_end(es[j], incoming) as int].1 by {
                assert(nodes@.contains(near_end(es[j], incoming)));
                let q = choose|q: int| 0 <= q < result@.len() && result@[q].0@ == ids[far_end(es[j], incoming) as int].1;
                assert(v[q].0 == result@[q].0@);
            }
        }
        result
    }
}

} // verus!

verus! {

/// The module list after adding `k` to `ids`: unchanged if present, else
/// extended by `k`.
pub open spec fn ids_step(ids: Seq<ModuleKey>, k: ModuleKey) -> Seq<ModuleKey> {
    if ids.contains(k) {
        ids
    } else {
        ids.push(k)
    }
}

/// The module list of a fresh graph after adding each of `keys` in order.
pub open spec fn ids_after(keys: Seq<ModuleKey>) -> Seq<ModuleKey>
    decreases keys.len(),
{
    if keys.len() == 0 {
        Seq::empty()
    } else {
        ids_step(ids_after(keys.drop_last()), keys.last())
    }
}

/// Adding modules one by one to an empty graph (each step is `ids_step`, as
/// `add_module` states) leaves exactly one node per distinct identifier
/// added, so the module count is the number of distinct identifiers; adding
/// one that is already present changes nothing.
pub proof fn law_module_count(keys: Seq<ModuleKey>, k: ModuleKey)
    ensures
        ids_after(keys).no_duplicates(),
        ids_after(keys).len() == keys.to_set().len(),
        forall|x: ModuleKey| ids_after(keys).contains(x) <==> keys.contains(x),
        keys.contains(k) ==> ids_after(keys.push(k)) == ids_after(keys),
    decreases keys.len(),
{
    if keys.len() > 0 {
        let init = keys.drop_last();
        law_module_count(init, k);
        let p = ids_after(init);
        assert forall|x: ModuleKey| ids_after(keys).contains(x) <==> keys.contains(x) by {
            if keys.contains(x) && x != keys.last() {
                let i = choose|i: int| 0 <= i < keys.len() && keys[i] == x;
                assert(init[i] == x);
            }
            if init.contains(x) {
                let i = choose|i: int| 0 <= i < init.len() && init[i] == x;
                assert(keys[i] == x);
            }
            if !p.contains(keys.last()) {
                if p.push(keys.last()).contains(x) && x != keys.last() {
                    let i = choose|i: int| 0 <= i < p.len() + 1 && p.push(keys.last())[i] == x;
                    assert(p[i] == x);
                }
                if p.contains(x) {
                    let i = choose|i: int| 0 <= i < p.len() && p[i] == x;
                    assert(p.push(keys.last())[i] == x);
                }
                if x == keys.last() {
                    assert(p.push(keys.last())[p.len() as int] == x);
                }
            }
            if x == keys.last() {
                assert(keys[keys.len() - 1] == x);
            }
        }
    }
    assert(keys.push(k).drop_last() =~= keys);
    if keys.contains(k) {
        assert(ids_after(keys).contains(k));
    }
    ids_after(keys).unique_seq_to_set();
    assert(ids_after(keys).to_set() =~= keys.to_set());
}

impl DependencyGraph {
    /// The dependents of `module_id` or of any module below it through
    /// `Contains` edges: first `module_id` itself with type `Is`, then each
    /// dependent path once, with the type of the first edge found.
    pub fn get_transitive_dependents_with_types(&self, module_id: &ModuleIdentifier) -> (r: Result<
        Vec<(String, DependencyType)>,
        GraphError,
    >)
        requires
            self.wf(),
        ensures
            r is Err <==> !self.ids().contains(module_id@),
            r matches Err(GraphError::NotFound(p)) ==> p@ == module_id.canonical_path@,
            r matches Ok(v) ==> v@.len() >= 1 && typed_list(v@)[0] == (
                module_id.canonical_path@,
                DependencyType::Is,
            ) && transitive_ok(
                self.ids(),
                self.edges(),
                node_of(self.ids(), module_id@) as usize,
                true,
                typed_list(v@).drop_first(),
            ),
    {
        match self.find_node(module_id) {
            None => Err(GraphError::NotFound(module_id.canonical_path.clone())),
            Some(i) => {
                let mut rest = self.transitive_neighbours(i, true);
                let ghost rest0 = rest@;
                let mut result: Vec<(String, DependencyType)> = Vec::new();
                result.push((module_id.canonical_path.clone(), DependencyType::Is));
                result.append(&mut rest);
                assert(typed_list(result@).drop_first() =~= typed_list(rest0));
                Ok(result)
            },
        }
    }

    /// The dependencies of `module_id` or of any module below it through
    /// `Contains` edges: each dependency path once, with the type of the first
    /// edge found.
    pub fn get_transitive_dependencies_with_types(&self, module_id: &ModuleIdentifier) -> (r:
        Result<Vec<(String, DependencyType)>, GraphError>)
        requires
            self.wf(),
        ensures
            r is Err <==> !self.ids().contains(module_id@),
            r matches Err(GraphError::NotFound(p)) ==> p@ == module_id.canonical_path@,
            r matches Ok(v) ==> transitive_ok(
                self.ids(),
                self.edges(),
                node_of(self.ids(), module_id@) as usize,
                false,
                typed_list(v@),
            ),
    {
        match self.find_node(module_id) {
            None => Err(GraphError::NotFound(module_id.canonical_path.clone())),
            Some(i) => Ok(self.transitive_neighbours(i, false)),
        }
    }
}

/// Position of the last `.` in `s`, if any.
pub open spec fn last_dot(s: Seq<char>) -> Option<int>
    decreases s.len(),
{
    if s.len() == 0 {
        None
    } else if s.last() == '.' {
        Some(s.len() - 1)
    } else {
        last_dot(s.drop_last())
    }
}

/// The path of the direct parent package: everything before the last `.`.
pub open spec fn parent_of(s: Seq<char>) -> Option<Seq<char>> {
    match last_dot(s) {
        Some(i) => Some(s.take(i)),
        None => None,
    }
}

/// The direct parent of a dotted module path, or `None` for a top-level one.
pub fn get_direct_parent_module(path: &str) -> (r: Option<String>)
    ensures
        r is None <==> parent_of(path@) is None,
        r matches Some(p) ==> parent_of(path@) == Some(p@),
{
    let cs = crate::text::to_chars(path);
    let mut i = cs.len();
    assert(path@.take(i as int) =~= path@);
    while i > 0
        invariant
            cs@ == path@,
            i <= cs@.len(),
            last_dot(path@) == last_dot(path@.take(i as int)),
        decreases i,
    {
        if cs[i - 1] == '.' {
            let p = path.substring_char(0, i - 1);
            assert(path@.take(i as int).drop_last() =~= path@.take(i - 1));
            return Some(String::from_str(p));
        }
        assert(path@.take(i as int).drop_last() =~= path@.take(i - 1));
        i = i - 1;
    }
    None
}

} // verus!

verus! {

impl DependencyGraph {
    /// The first node whose module has path `path`, if any.
    pub fn find_by_path(&self, path: &String) -> (r: Option<usize>)
        requires
            self.wf(),
        ensures
            r is None <==> forall|j: int| 0 <= j < self.ids().len() ==> self.ids()[j].1 != path@,
            r matches Some(j) ==> j < self.ids().len() && self.ids()[j as int].1 == path@ && forall|
                q: int,
            | 0 <= q < j ==> self.ids()[q].1 != path@,
    {
        let mut i: usize = 0;
        while i < self.modules.len()
            invariant
                i <= self.modules@.len(),
                forall|j: int| 0 <= j < i ==> self.ids()[j].1 != path@,
            decreases self.modules@.len() - i,
        {
            assert(self.ids()[i as int] == self.modules@[i as int]@);
            if self.modules[i].canonical_path == *path {
                return Some(i);
            }
            i = i + 1;
        }
        None
    }

    /// Module `i` is found at node `i`.
    pub proof fn lemma_node_of(&self, i: int)
        requires
            self.wf(),
            0 <= i < self.ids().len(),
        ensures
            self.ids().contains(self.ids()[i]),
            node_of(self.ids(), self.ids()[i]) == i,
    {
        self.lemma_wf();
        assert(self.ids()[i] == self.ids()[i]);
        let c = node_of(self.ids(), self.ids()[i]);
        assert(0 <= c < self.ids().len() && self.ids()[c] == self.ids()[i]);
    }
}

} // verus!

verus! {

/// The parent identities of the first `i` modules of `ids` that have a
/// dotted parent, in order.
pub open spec fn parent_keys(ids: Seq<ModuleKey>, i: int) -> Seq<ModuleKey>
    decreases i,
{
    if i <= 0 {
        Seq::empty()
    } else {
        let prev = parent_keys(ids, i - 1);
        match parent_of(ids[i - 1].1) {
            Some(p) => prev.push((ids[i - 1].0, p)),
            None => prev,
        }
    }
}

/// The module list `base` after adding each of `keys` in order.
pub open spec fn ids_from(base: Seq<ModuleKey>, keys: Seq<ModuleKey>) -> Seq<ModuleKey>
    decreases keys.len(),
{
    if keys.len() == 0 {
        base
    } else {
        ids_step(ids_from(base, keys.drop_last()), keys.last())
    }
}

/// Every module of `old` that has a dotted parent is, in `g`, linked to a
/// node of the same origin holding that parent path: `Contains` from the
/// parent, `IncludedIn` back.
pub open spec fn containment_linked(
    old_ids: Seq<ModuleKey>,
    ids: Seq<ModuleKey>,
    es: Seq<(usize, usize, DependencyType)>,
    upto: int,
) -> bool {
    forall|i: int|
        0 <= i < upto && #[trigger] parent_of(old_ids[i].1) is Some ==> exists|p: int|
            0 <= p < ids.len() && ids[p] == (old_ids[i].0, parent_of(old_ids[i].1)->0) && es.contains(
                (p as usize, i as usize, DependencyType::Contains),
            ) && es.contains((i as usize, p as usize, DependencyType::IncludedIn))
}

/// Links every module that has a dotted parent to that parent, adding the
/// parent (same origin) where it is missing: a `Contains` edge from parent
/// to child and an `IncludedIn` edge back. Parents added here are not
/// themselves linked further.
pub fn add_containment_relationships(graph: &mut DependencyGraph) -> (r: Result<(), GraphError>)
    requires
        old(graph).wf(),
        2 * old(graph).ids().len() < MAX_INDEX,
        old(graph).edges().len() + 2 * old(graph).ids().len() < MAX_INDEX,
    ensures
        r is Ok,
        final(graph).wf(),
        final(graph).ids().len() >= old(graph).ids().len(),
        final(graph).ids().subrange(0, old(graph).ids().len() as int) == old(graph).ids(),
        final(graph).edges().len() >= old(graph).edges().len(),
        final(graph).edges().subrange(0, old(graph).edges().len() as int) == old(graph).edges(),
        containment_linked(old(graph).ids(), final(graph).ids(), final(graph).edges(), old(graph).ids().len() as int),
        final(graph).ids() == ids_from(old(graph).ids(), parent_keys(old(graph).ids(), old(graph).ids().len() as int)),
        final(graph).edges().len() == old(graph).edges().len() + 2 * parent_keys(
            old(graph).ids(),
            old(graph).ids().len() as int,
        ).len(),
{
    let ghost old_ids = graph.ids();
    let ghost old_es = graph.edges();
    let n = graph.module_count();
    let mut modules: Vec<ModuleIdentifier> = Vec::new();
    let mut c: usize = 0;
    while c < n
        invariant
            graph.wf(),
            n == graph.ids().len(),
            c <= n,
            modules@.len() == c,
            forall|j: int| 0 <= j < c ==> (#[trigger] modules@[j])@ == graph.ids()[j],
        decreases n - c,
    {
        let all = graph.all_modules();
        assert(all@[c as int]@ == graph.ids()[c as int]);
        modules.push(all[c].clone());
        c = c + 1;
    }
    let mut i: usize = 0;
    assert(graph.ids().subrange(0, n as int) =~= old_ids);
    assert(graph.edges().subrange(0, old_es.len() as int) =~= old_es);
    while i < n
        invariant
            graph.wf(),
            n == old_ids.len(),
            2 * n < MAX_INDEX,
            old_es.len() + 2 * n < MAX_INDEX,
            modules@.len() == n,
            forall|j: int| 0 <= j < n ==> (#[trigger] modules@[j])@ == old_ids[j],
            i <= n,
            graph.ids().len() <= n + i,
            graph.ids().len() >= n,
            graph.ids().subrange(0, n as int) == old_ids,
            graph.edges().len() <= old_es.len() + 2 * i,
            graph.edges().len() >= old_es.len(),
            graph.edges().subrange(0, old_es.len() as int) == old_es,
            containment_linked(old_ids, graph.ids(), graph.edges(), i as int),
            graph.ids() == ids_from(old_ids, parent_keys(old_ids, i as int)),
            graph.edges().len() == old_es.len() + 2 * parent_keys(old_ids, i as int).len(),
            parent_keys(old_ids, i as int).len() <= i,
        decreases n - i,
    {
        let module = &modules[i];
        match get_direct_parent_module(module.canonical_path.as_str()) {
            Some(parent_path) => {
                let parent = ModuleIdentifier { origin: module.origin, canonical_path: parent_path };
                let ghost pk = parent@;
                let ghost ids0 = graph.ids();
                let ghost es0 = graph.edges();
                let p = graph.add_module(parent.clone());
                let ghost ids1 = graph.ids();
                proof {
                    let keys = parent_keys(old_ids, i as int);
                    assert(old_ids[i as int] == module@);
                    assert(parent_keys(old_ids, i + 1) == keys.push(pk));
                    assert(keys.push(pk).drop_last() =~= keys);
                    assert(ids1 == ids_from(old_ids, parent_keys(old_ids, i + 1)));
                    assert(ids1.subrange(0, n as int) =~= old_ids) by {
                        assert forall|j: int| 0 <= j < n implies ids1[j] == old_ids[j] by {
                            assert(ids0.subrange(0, n as int)[j] == old_ids[j]);
                            if !ids0.contains(pk) {
                                assert(ids1[j] == ids0[j]);
                            }
                        }
                    }
                    assert(ids1[i as int] == module@);
                    assert(ids1.contains(module@));
                    graph.lemma_node_of(i as int);
                    graph.lemma_node_of(p as int);
                }
                let a = graph.add_dependency(&parent, module, DependencyType::Contains);
                let b = graph.add_dependency(module, &parent, DependencyType::IncludedIn);
                proof {
                    let es2 = graph.edges();
                    assert(es2 == es0.push((p, i, DependencyType::Contains)).push((i, p, DependencyType::IncludedIn)));
                    assert(es2[es0.len() as int] == (p, i, DependencyType::Contains));
                    assert(es2[es0.len() as int + 1] == (i, p, DependencyType::IncludedIn));
                    assert(graph.edges().subrange(0, old_es.len() as int) =~= old_es) by {
                        assert forall|j: int| 0 <= j < old_es.len() implies es2[j] == old_es[j] by {
                            assert(es0.subrange(0, old_es.len() as int)[j] == old_es[j]);
                        }
                    }
                    assert(graph.ids().subrange(0, n as int) =~= old_ids);
                    assert forall|q: int|
                        0 <= q < i + 1 && #[trigger] parent_of(old_ids[q].1) is Some implies exists|pp: int|
                            0 <= pp < graph.ids().len() && graph.ids()[pp] == (old_ids[q].0, parent_of(old_ids[q].1)->0) && graph.edges().contains(
                                (pp as usize, q as usize, DependencyType::Contains),
                            ) && graph.edges().contains((q as usize, pp as usize, DependencyType::IncludedIn)) by {
                        if q == i {
                            assert(ids1[p as int] == pk);
                            assert(es2.contains((p, i, DependencyType::Contains)));
                            assert(es2.contains((i, p, DependencyType::IncludedIn)));
                        } else {
                            let pp = choose|pp: int|
                                0 <= pp < ids0.len() && ids0[pp] == (old_ids[q].0, parent_of(old_ids[q].1)->0) && es0.contains(
                                    (pp as usize, q as usize, DependencyType::Contains),
                                ) && es0.contains((q as usize, pp as usize, DependencyType::IncludedIn));
                            assert(ids1[pp] == ids0[pp]);
                            let e1 = choose|e: int| 0 <= e < es0.len() && es0[e] == (pp as usize, q as usize, DependencyType::Contains);
                            let e2 = choose|e: int| 0 <= e < es0.len() && es0[e] == (q as usize, pp as usize, DependencyType::IncludedIn);
                            assert(es2[e1] == es0[e1]);
                            assert(es2[e2] == es0[e2]);
                        }
                    }
                }
                if a.is_err() || b.is_err() {
                    return Err(GraphError::NotFound(module.canonical_path.clone()));
                }
            },
            None => {
                proof {
                    assert(old_ids[i as int] == module@);
                    assert(parent_keys(old_ids, i + 1) == parent_keys(old_ids, i as int));
                    assert forall|q: int|
                        0 <= q < i + 1 && #[trigger] parent_of(old_ids[q].1) is Some implies exists|pp: int|
                            0 <= pp < graph.ids().len() && graph.ids()[pp] == (old_ids[q].0, parent_of(old_ids[q].1)->0) && graph.edges().contains(
                                (pp as usize, q as usize, DependencyType::Contains),
                            ) && graph.edges().contains((q as usize, pp as usize, DependencyType::IncludedIn)) by {
                        if q == i {
                            assert(old_ids[q].1 == module.canonical_path@);
                        }
                    }
                }
            },
        }
        i = i + 1;
    }
    Ok(())
}

} // verus!
