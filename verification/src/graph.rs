//! The build graph: build units as nodes, numbered in the order in which they
//! were first met, and an edge from each manifest to each of its
//! dependencies.
//!
//! The nodes and edges are kept in a `petgraph::Graph`, and the numbering of
//! the build units in a `bimap::BiHashMap`.

use vstd::prelude::*;
use vstd::set_lib::{lemma_int_range, lemma_len_subset, set_int_range};
use crate::unit::{ascending, BuildUnit, UnitView};

verus! {

/// `petgraph::Graph`, whose inside is not read here.
#[verifier::external_type_specification]
#[verifier::external_body]
#[verifier::reject_recursive_types(N)]
#[verifier::reject_recursive_types(E)]
#[verifier::reject_recursive_types(Ty)]
#[verifier::reject_recursive_types(Ix)]
pub struct ExGraph<N, E, Ty, Ix>(petgraph::Graph<N, E, Ty, Ix>);

/// `petgraph::Directed`, the mark of a graph whose edges have a direction.
#[verifier::external_type_specification]
#[verifier::external_body]
pub struct ExDirected(petgraph::Directed);

/// `bimap::BiHashMap`, whose inside is not read here.
#[verifier::external_type_specification]
#[verifier::external_body]
#[verifier::reject_recursive_types(L)]
#[verifier::reject_recursive_types(R)]
#[verifier::reject_recursive_types(LS)]
#[verifier::reject_recursive_types(RS)]
pub struct ExBiHashMap<L, R, LS, RS>(bimap::BiHashMap<L, R, LS, RS>);

/// The graph as it is kept: no weights, directed edges, nodes numbered in 32
/// bits.
pub type GraphStore = petgraph::Graph<(), (), petgraph::Directed, u32>;

/// The numbering as it is kept: build units on the left, numbers on the
/// right.
pub type UnitStore = bimap::BiHashMap<
    BuildUnit,
    usize,
    std::collections::hash_map::RandomState,
    std::collections::hash_map::RandomState,
>;

/// How many nodes a graph holds. They are numbered from zero.
pub uninterp spec fn graph_nodes(graph: GraphStore) -> nat;

/// The edges of a graph, source before target, in the order in which they
/// were added.
pub uninterp spec fn graph_edges(graph: GraphStore) -> Seq<(usize, usize)>;

/// The pairs of a bimap, as the map from each build unit's value to its
/// number.
pub uninterp spec fn registry_pairs(registry: UnitStore) -> Map<UnitView, usize>;

/// What `petgraph::algo::kosaraju_scc` returns for the directed graph with
/// the nodes `0..nodes` and the given edges.
pub uninterp spec fn scc_order(nodes: nat, edges: Seq<(usize, usize)>) -> Seq<Seq<usize>>;

/// `path` follows edges from its first node to its last.
pub open spec fn is_path(edges: Seq<(usize, usize)>, path: Seq<usize>) -> bool {
    &&& path.len() > 0
    &&& forall|i: int| 0 <= i < path.len() - 1 ==> edges.contains((#[trigger] path[i], path[i + 1]))
}

/// Some path leads from `from` to `to`. Every node reaches itself.
pub open spec fn reaches(edges: Seq<(usize, usize)>, from: usize, to: usize) -> bool {
    exists|path: Seq<usize>| is_path(edges, path) && path.first() == from && path.last() == to
}

/// The node `v` stands somewhere in `order`.
pub open spec fn lists(order: Seq<Seq<usize>>, v: usize) -> bool {
    exists|c: int, i: int|
        0 <= c < order.len() && 0 <= i < order[c].len() && #[trigger] order[c][i] == v
}

/// `(c, i)` is a place in `order`.
pub open spec fn is_place(order: Seq<Seq<usize>>, c: int, i: int) -> bool {
    0 <= c < order.len() && 0 <= i < order[c].len()
}

/// No component is empty, and each holds nodes of the graph only.
pub open spec fn holds_nodes(nodes: nat, order: Seq<Seq<usize>>) -> bool {
    &&& forall|c: int| 0 <= c < order.len() ==> (#[trigger] order[c]).len() > 0
    &&& forall|c: int, i: int| is_place(order, c, i) ==> (#[trigger] order[c][i]) < nodes
}

/// Every node of the graph stands in `order`.
pub open spec fn covers(nodes: nat, order: Seq<Seq<usize>>) -> bool {
    forall|v: usize| v < nodes ==> #[trigger] lists(order, v)
}

/// No node stands at two places.
pub open spec fn places_differ(order: Seq<Seq<usize>>) -> bool {
    forall|c: int, i: int, d: int, j: int|
        is_place(order, c, i) && is_place(order, d, j) && #[trigger] order[c][i]
            == #[trigger] order[d][j] ==> c == d && i == j
}

/// Two nodes share a component exactly when each reaches the other.
pub open spec fn components_strong(edges: Seq<(usize, usize)>, order: Seq<Seq<usize>>) -> bool {
    forall|c: int, i: int, d: int, j: int|
        is_place(order, c, i) && is_place(order, d, j) ==> (c == d <==> reaches(
            edges,
            #[trigger] order[c][i],
            #[trigger] order[d][j],
        ) && reaches(edges, order[d][j], order[c][i]))
}

/// No edge leads from a component to a later one.
pub open spec fn edges_descend(edges: Seq<(usize, usize)>, order: Seq<Seq<usize>>) -> bool {
    forall|c: int, i: int, d: int, j: int|
        is_place(order, c, i) && is_place(order, d, j) && edges.contains(
            (#[trigger] order[c][i], #[trigger] order[d][j]),
        ) ==> d <= c
}

/// `order` lists the strongly connected components of the graph, each
/// component after the components that its nodes lead to.
pub open spec fn is_scc_order(
    nodes: nat,
    edges: Seq<(usize, usize)>,
    order: Seq<Seq<usize>>,
) -> bool {
    &&& holds_nodes(nodes, order)
    &&& covers(nodes, order)
    &&& places_differ(order)
    &&& components_strong(edges, order)
    &&& edges_descend(edges, order)
}

/// The values of the rows of a table of node numbers.
pub open spec fn rows(table: Seq<Vec<usize>>) -> Seq<Seq<usize>> {
    Seq::new(table.len(), |c: int| table[c]@)
}

/// `petgraph::Graph::new`: a graph without nodes or edges.
#[verifier::external_body]
fn graph_new() -> (graph: GraphStore)
    ensures
        graph_nodes(graph) == 0,
        graph_edges(graph) == Seq::<(usize, usize)>::empty(),
{
    petgraph::Graph::new()
}

/// `petgraph::Graph::node_count`: the number of nodes.
#[verifier::external_body]
fn graph_node_count(graph: &GraphStore) -> (n: usize)
    ensures
        n == graph_nodes(*graph),
{
    graph.node_count()
}

/// `petgraph::Graph::edge_count`: the number of edges.
#[verifier::external_body]
fn graph_edge_count(graph: &GraphStore) -> (n: usize)
    ensures
        n == graph_edges(*graph).len(),
{
    graph.edge_count()
}

/// `petgraph::Graph::add_node`: the new node gets the next number, and the
/// edges stay. The call panics once the graph holds `u32::MAX` nodes, which
/// the precondition leaves out.
#[verifier::external_body]
fn graph_add_node(graph: &mut GraphStore) -> (node: usize)
    requires
        graph_nodes(*old(graph)) < u32::MAX,
    ensures
        node == graph_nodes(*old(graph)),
        graph_nodes(*final(graph)) == graph_nodes(*old(graph)) + 1,
        graph_edges(*final(graph)) == graph_edges(*old(graph)),
{
    graph.add_node(()).index()
}

/// `petgraph::Graph::add_edge`: the edge is added after the others, also
/// where an equal one is there, and the nodes stay. The call panics where a
/// node is missing or the graph holds `u32::MAX` edges, which the
/// precondition leaves out.
#[verifier::external_body]
fn graph_add_edge(graph: &mut GraphStore, from: usize, to: usize)
    requires
        from < graph_nodes(*old(graph)),
        to < graph_nodes(*old(graph)),
        graph_edges(*old(graph)).len() < u32::MAX,
    ensures
        graph_nodes(*final(graph)) == graph_nodes(*old(graph)),
        graph_edges(*final(graph)) == graph_edges(*old(graph)).push((from, to)),
{
    graph.add_edge(petgraph::graph::NodeIndex::new(from), petgraph::graph::NodeIndex::new(to), ());
}

/// `petgraph::Graph::contains_edge`: whether an edge leads from `from` to
/// `to`.
#[verifier::external_body]
fn graph_contains_edge(graph: &GraphStore, from: usize, to: usize) -> (found: bool)
    requires
        from < graph_nodes(*graph),
        to < graph_nodes(*graph),
    ensures
        found == graph_edges(*graph).contains((from, to)),
{
    graph.contains_edge(petgraph::graph::NodeIndex::new(from), petgraph::graph::NodeIndex::new(to))
}

/// `petgraph::algo::kosaraju_scc`, the nodes given by their numbers. The
/// result depends on the nodes and the edges alone. It holds the strongly
/// connected components of the graph in postorder: every node stands in
/// exactly one component, no component is empty, two nodes stand in one
/// component exactly when each can be reached from the other, and an edge
/// from one component to another leads to an earlier one. In which order the
/// nodes of one component stand is not said.
#[verifier::external_body]
fn graph_components(graph: &GraphStore) -> (order: Vec<Vec<usize>>)
    ensures
        rows(order@) == scc_order(graph_nodes(*graph), graph_edges(*graph)),
        is_scc_order(graph_nodes(*graph), graph_edges(*graph), rows(order@)),
{
    petgraph::algo::kosaraju_scc(graph).into_iter().map(
        |component| component.into_iter().map(|node| node.index()).collect(),
    ).collect()
}

/// `bimap::BiHashMap::new`: a bimap without pairs.
#[verifier::external_body]
fn registry_new() -> (registry: UnitStore)
    ensures
        registry_pairs(registry) == (Map::<UnitView, usize>::empty()),
{
    bimap::BiHashMap::new()
}

/// `bimap::BiHashMap::get_by_left`: the number paired with a build unit of
/// the same value, if there is one. Build units are hashed and compared field
/// by field, that is by value.
#[verifier::external_body]
fn registry_find(registry: &UnitStore, unit: &BuildUnit) -> (found: Option<usize>)
    ensures
        found == if registry_pairs(*registry).contains_key(unit@) {
            Some(registry_pairs(*registry)[unit@])
        } else {
            None
        },
{
    registry.get_by_left(unit).copied()
}

/// `bimap::BiHashMap::insert`, where neither the build unit nor the number
/// is in the bimap yet: the pair is added and the others stay.
#[verifier::external_body]
fn registry_insert(registry: &mut UnitStore, unit: BuildUnit, node: usize)
    requires
        !registry_pairs(*old(registry)).contains_key(unit@),
        forall|u: UnitView| #[trigger]
            registry_pairs(*old(registry)).contains_key(u) ==> registry_pairs(*old(registry))[u]
                != node,
    ensures
        registry_pairs(*final(registry)) == registry_pairs(*old(registry)).insert(unit@, node),
{
    registry.insert(unit, node);
}

/// `bimap::BiHashMap::remove_by_right`: the build unit paired with the
/// number leaves the bimap and is returned; where no build unit is paired
/// with it, nothing changes.
#[verifier::external_body]
fn registry_take(registry: &mut UnitStore, node: usize) -> (taken: Option<BuildUnit>)
    ensures
        match taken {
            Some(unit) => {
                &&& registry_pairs(*old(registry)).contains_key(unit@)
                &&& registry_pairs(*old(registry))[unit@] == node
                &&& registry_pairs(*final(registry)) == registry_pairs(*old(registry)).remove(
                    unit@,
                )
            },
            None => {
                &&& forall|u: UnitView| #[trigger]
                    registry_pairs(*old(registry)).contains_key(u) ==> registry_pairs(
                        *old(registry),
                    )[u] != node
                &&& registry_pairs(*final(registry)) == registry_pairs(*old(registry))
            },
        },
{
    registry.remove_by_right(&node).map(|pair| pair.0)
}

/// The value of a [`DepGraph`]: the build units by number, and the edges in
/// the order in which they were added.
pub struct GraphView {
    pub units: Seq<UnitView>,
    pub edges: Seq<(usize, usize)>,
}

impl GraphView {
    /// What holds of every build graph: no unit and no edge stands twice,
    /// the edges join nodes of the graph, and every node can be reached from
    /// node 0, the root.
    pub open spec fn sound(self) -> bool {
        &&& self.units.no_duplicates()
        &&& self.edges.no_duplicates()
        &&& forall|e: int|
            0 <= e < self.edges.len() ==> (#[trigger] self.edges[e]).0 < self.units.len()
                && self.edges[e].1 < self.units.len()
        &&& forall|v: usize| v < self.units.len() ==> #[trigger] reaches(self.edges, 0, v)
    }

    /// The graph after the build unit `unit` was met as a dependency of the
    /// node `prev`: a unit not met before becomes a node, and the edge from
    /// `prev` is added unless it is there.
    pub open spec fn visit(self, unit: UnitView, prev: usize) -> GraphView {
        if self.units.contains(unit) {
            let node = self.units.index_of(unit) as usize;
            if self.edges.contains((prev, node)) {
                self
            } else {
                GraphView { units: self.units, edges: self.edges.push((prev, node)) }
            }
        } else {
            GraphView {
                units: self.units.push(unit),
                edges: self.edges.push((prev, self.units.len() as usize)),
            }
        }
    }

    /// A visit keeps the graph sound, and the build unit is in the graph
    /// afterwards: at its old place, or at the end.
    pub proof fn lemma_visit(self, unit: UnitView, prev: usize)
        requires
            self.sound(),
            self.units.len() < u32::MAX,
            prev < self.units.len() || prev == 0,
        ensures
            self.visit(unit, prev).sound(),
            self.visit(unit, prev).units.contains(unit),
            0 <= self.visit(unit, prev).units.index_of(unit) < self.visit(unit, prev).units.len(),
            self.visit(unit, prev).units[self.visit(unit, prev).units.index_of(unit)] == unit,
            self.units.contains(unit) ==> self.visit(unit, prev).units == self.units
                && self.visit(unit, prev).units.index_of(unit) == self.units.index_of(unit),
            !self.units.contains(unit) ==> self.visit(unit, prev).units == self.units.push(unit)
                && self.visit(unit, prev).units.index_of(unit) == self.units.len(),
            self.visit(unit, prev).edges.contains(
                (prev, self.visit(unit, prev).units.index_of(unit) as usize),
            ),
    {
        let after = self.visit(unit, prev);
        if self.units.contains(unit) {
            let node = self.units.index_of(unit);
            assert(self.units[node] == unit);
            let edge = (prev, node as usize);
            if !self.edges.contains(edge) {
                let more = self.edges.push(edge);
                assert(more.last() == edge);
                assert forall|e: int| 0 <= e < more.len() implies (#[trigger] more[e]).0
                    < self.units.len() && more[e].1 < self.units.len() by {
                    if e < self.edges.len() {
                        assert(more[e] == self.edges[e]);
                    }
                }
                assert forall|v: usize| v < self.units.len() implies #[trigger] reaches(
                    more,
                    0,
                    v,
                ) by {
                    assert(reaches(self.edges, 0, v));
                    lemma_reaches_grow(self.edges, edge, 0, v);
                }
            }
        } else {
            let node = self.units.len() as usize;
            let edge = (prev, node);
            let more = self.edges.push(edge);
            let all = self.units.push(unit);
            assert(all[node as int] == unit);
            assert(all.contains(unit));
            let at = all.index_of(unit);
            assert(all[at] == unit);
            assert(at == node);
            assert(more.last() == edge);
            assert(!self.edges.contains(edge)) by {
                if self.edges.contains(edge) {
                    let e = choose|e: int| 0 <= e < self.edges.len() && self.edges[e] == edge;
                    assert(self.edges[e].1 < self.units.len());
                }
            }
            assert forall|e: int| 0 <= e < more.len() implies (#[trigger] more[e]).0 < all.len()
                && more[e].1 < all.len() by {
                if e < self.edges.len() {
                    assert(more[e] == self.edges[e]);
                }
            }
            assert forall|v: usize| v < all.len() implies #[trigger] reaches(more, 0, v) by {
                if v < self.units.len() {
                    assert(reaches(self.edges, 0, v));
                    lemma_reaches_grow(self.edges, edge, 0, v);
                } else if prev == node {
                    lemma_reaches_self(more, v);
                } else {
                    assert(reaches(self.edges, 0, prev));
                    lemma_reaches_grow(self.edges, edge, 0, prev);
                    lemma_reaches_step(more, 0, prev, node);
                }
            }
        }
    }

    /// A sound graph holds no more edges than there are pairs of its nodes.
    pub proof fn lemma_edge_count(self)
        requires
            self.sound(),
        ensures
            self.edges.len() <= self.units.len() * self.units.len(),
    {
        let n = self.units.len() as int;
        let edges = self.edges;
        let codes = Seq::new(edges.len(), |i: int| edges[i].0 * n + edges[i].1);
        assert forall|i: int, j: int|
            0 <= i < codes.len() && 0 <= j < codes.len() && i != j implies codes[i]
            != codes[j] by {
            let (a, b) = (edges[i].0 as int, edges[i].1 as int);
            let (c, d) = (edges[j].0 as int, edges[j].1 as int);
            assert(edges[i] != edges[j]);
            assert(a != c || b != d);
            assert(a * n + b != c * n + d) by (nonlinear_arith)
                requires
                    0 <= a < n,
                    0 <= b < n,
                    0 <= c < n,
                    0 <= d < n,
                    a != c || b != d,
            ;
        }
        codes.unique_seq_to_set();
        assert(n * n >= 0) by (nonlinear_arith);
        assert forall|code: int| codes.to_set().contains(code) implies set_int_range(
            0,
            n * n,
        ).contains(code) by {
            let i = choose|i: int| 0 <= i < codes.len() && codes[i] == code;
            let (a, b) = (edges[i].0 as int, edges[i].1 as int);
            assert(0 <= a * n + b < n * n) by (nonlinear_arith)
                requires
                    0 <= a < n,
                    0 <= b < n,
            ;
        }
        lemma_int_range(0, n * n);
        lemma_len_subset(codes.to_set(), set_int_range(0, n * n));
    }

    /// The build stages: the strongly connected components in build order,
    /// each node replaced by its build unit.
    pub open spec fn stages(self) -> Seq<Seq<UnitView>> {
        let order = scc_order(self.units.len(), self.edges);
        Seq::new(
            order.len(),
            |c: int| Seq::new(order[c].len(), |i: int| self.units[order[c][i] as int]),
        )
    }
}

/// The build unit stands in some stage.
pub open spec fn staged(stages: Seq<Seq<UnitView>>, unit: UnitView) -> bool {
    exists|c: int| 0 <= c < stages.len() && (#[trigger] stages[c]).contains(unit)
}

/// What a visit found.
pub struct Visit {
    /// Number of the node of the build unit.
    pub node: usize,
    /// The build unit was not in the graph before.
    pub first: bool,
    /// The edge was not in the graph before: the dependencies of the build
    /// unit are to be walked.
    pub descend: bool,
}

/// The build graph of one resolve.
pub struct DepGraph {
    graph: GraphStore,
    registry: UnitStore,
    units: Ghost<Seq<UnitView>>,
}

impl View for DepGraph {
    type V = GraphView;

    closed spec fn view(&self) -> GraphView {
        GraphView { units: self.units@, edges: graph_edges(self.graph) }
    }
}

/// The values of the build units of a table of stages.
pub open spec fn stage_views(stages: Seq<Vec<BuildUnit>>) -> Seq<Seq<UnitView>> {
    Seq::new(stages.len(), |c: int| Seq::new(stages[c]@.len(), |i: int| stages[c]@[i]@))
}

/// Every node reaches itself.
pub proof fn lemma_reaches_self(edges: Seq<(usize, usize)>, v: usize)
    ensures
        reaches(edges, v, v),
{
    let path = seq![v];
    assert(is_path(edges, path) && path.first() == v && path.last() == v);
}

/// A path stays a path when an edge is added to the graph.
pub proof fn lemma_reaches_grow(
    edges: Seq<(usize, usize)>,
    edge: (usize, usize),
    a: usize,
    b: usize,
)
    requires
        reaches(edges, a, b),
    ensures
        reaches(edges.push(edge), a, b),
{
    let path = choose|path: Seq<usize>|
        is_path(edges, path) && path.first() == a && path.last() == b;
    let more = edges.push(edge);
    assert forall|i: int| 0 <= i < path.len() - 1 implies more.contains(
        (#[trigger] path[i], path[i + 1]),
    ) by {
        let k = choose|k: int| 0 <= k < edges.len() && edges[k] == (path[i], path[i + 1]);
        assert(more[k] == (path[i], path[i + 1]));
    }
    assert(is_path(more, path));
}

/// A path can be followed by one more edge.
pub proof fn lemma_reaches_step(edges: Seq<(usize, usize)>, a: usize, b: usize, c: usize)
    requires
        reaches(edges, a, b),
        edges.contains((b, c)),
    ensures
        reaches(edges, a, c),
{
    let path = choose|path: Seq<usize>|
        is_path(edges, path) && path.first() == a && path.last() == b;
    let longer = path.push(c);
    assert forall|i: int| 0 <= i < longer.len() - 1 implies edges.contains(
        (#[trigger] longer[i], longer[i + 1]),
    ) by {
        if i < path.len() - 1 {
            assert(longer[i] == path[i] && longer[i + 1] == path[i + 1]);
        }
    }
    assert(is_path(edges, longer) && longer.first() == a && longer.last() == c);
}

impl DepGraph {
    /// The invariant of the graph: the two stores agree with each other, and
    /// the value is sound.
    pub closed spec fn wf(&self) -> bool {
        let units = self.units@;
        let known = registry_pairs(self.registry);
        &&& graph_nodes(self.graph) == units.len()
        &&& units.len() <= u32::MAX
        &&& graph_edges(self.graph).len() <= u32::MAX
        &&& forall|i: int|
            0 <= i < units.len() ==> known.contains_key(#[trigger] units[i]) && known[units[i]]
                == i
        &&& forall|u: UnitView| #[trigger]
            known.contains_key(u) ==> known[u] < units.len() && units[known[u] as int] == u
        &&& forall|i: int| 0 <= i < units.len() ==> ascending((#[trigger] units[i]).names)
        &&& self@.sound()
    }

    /// A well-formed graph has a sound value.
    pub proof fn lemma_sound(&self)
        requires
            self.wf(),
        ensures
            self@.sound(),
    {
    }

    /// One more node and one more edge fit.
    pub open spec fn has_room(&self) -> bool {
        self@.units.len() < u32::MAX && self@.edges.len() < u32::MAX
    }

    /// The graph without nodes.
    pub fn new() -> (graph: DepGraph)
        ensures
            graph.wf(),
            graph@.units.len() == 0,
            graph@.edges.len() == 0,
    {
        DepGraph { graph: graph_new(), registry: registry_new(), units: Ghost(Seq::empty()) }
    }

    /// Whether one more node and one more edge fit.
    pub fn room(&self) -> (r: bool)
        requires
            self.wf(),
        ensures
            r == self.has_room(),
    {
        graph_node_count(&self.graph) < u32::MAX as usize && graph_edge_count(&self.graph)
            < u32::MAX as usize
    }

    /// How many build units the graph holds.
    pub fn len(&self) -> (n: usize)
        requires
            self.wf(),
        ensures
            n == self@.units.len(),
    {
        graph_node_count(&self.graph)
    }

    /// Meets the build unit `unit` as a dependency of the node `prev`.
    ///
    /// A unit of the same value that is in the graph keeps its node; another
    /// becomes the next node. The edge from `prev` to the node is added
    /// unless it is there, and only a new edge asks for a descent. In the
    /// empty graph the unit becomes node 0 with an edge to itself.
    pub fn visit(&mut self, unit: BuildUnit, prev: usize) -> (v: Visit)
        requires
            old(self).wf(),
            old(self).has_room(),
            unit.wf(),
            prev < old(self)@.units.len() || (old(self)@.units.len() == 0 && prev == 0),
        ensures
            final(self).wf(),
            final(self)@ == old(self)@.visit(unit@, prev),
            final(self)@.units[v.node as int] == unit@,
            v.node < final(self)@.units.len(),
            v.first == !old(self)@.units.contains(unit@),
            v.descend == !old(self)@.edges.contains((prev, v.node)),
            v.first ==> v.node == old(self)@.units.len(),
    {
        let ghost units = self.units@;
        let ghost value = unit@;
        proof {
            self@.lemma_visit(value, prev);
        }
        match registry_find(&self.registry, &unit) {
            Some(node) => {
                proof {
                    assert(units[node as int] == value);
                    assert(units.contains(value));
                    let at = units.index_of(value);
                    assert(units[at] == value);
                }
                if graph_contains_edge(&self.graph, prev, node) {
                    Visit { node, first: false, descend: false }
                } else {
                    graph_add_edge(&mut self.graph, prev, node);
                    Visit { node, first: false, descend: true }
                }
            },
            None => {
                proof {
                    if units.contains(value) {
                        let at = units.index_of(value);
                        assert(units[at] == value);
                    }
                }
                let node = graph_add_node(&mut self.graph);
                registry_insert(&mut self.registry, unit, node);
                graph_add_edge(&mut self.graph, prev, node);
                self.units = Ghost(units.push(value));
                proof {
                    let all = units.push(value);
                    let known = registry_pairs(self.registry);
                    assert forall|i: int| 0 <= i < all.len() implies known.contains_key(
                        #[trigger] all[i],
                    ) && known[all[i]] == i by {
                        if i < units.len() {
                            assert(all[i] == units[i]);
                        }
                    }
                    assert forall|u: UnitView| #[trigger] known.contains_key(u) implies known[u]
                        < all.len() && all[known[u] as int] == u by {
                        if u != value {
                            assert(all[known[u] as int] == units[known[u] as int]);
                        }
                    }
                    assert forall|i: int| 0 <= i < all.len() implies ascending(
                        (#[trigger] all[i]).names,
                    ) by {
                        if i < units.len() {
                            assert(all[i] == units[i]);
                        }
                    }
                }
                Visit { node, first: true, descend: true }
            },
        }
    }

    /// The build stages of the graph: its strongly connected components, each
    /// after the components it depends on, as build units.
    pub fn build_order(self) -> (stages: Vec<Vec<BuildUnit>>)
        requires
            self.wf(),
        ensures
            stage_views(stages@) == self@.stages(),
            is_scc_order(
                self@.units.len(),
                self@.edges,
                scc_order(self@.units.len(), self@.edges),
            ),
            forall|c: int, i: int|
                0 <= c < stages.len() && 0 <= i < stages[c].len() ==> (
                #[trigger] stages[c][i]).wf(),
    {
        let ghost units = self.units@;
        let ghost edges = graph_edges(self.graph);
        let order = graph_components(&self.graph);
        let ghost table = rows(order@);
        let mut registry = self.registry;
        let mut stages: Vec<Vec<BuildUnit>> = Vec::new();
        let mut c: usize = 0;
        while c < order.len()
            invariant
                c <= order.len(),
                table == rows(order@),
                is_scc_order(units.len(), edges, table),
                stages.len() == c,
                forall|d: int, j: int|
                    0 <= d < c && 0 <= j < table[d].len() ==> stages[d].len() == table[d].len()
                        && (#[trigger] stages[d][j])@ == units[table[d][j] as int]
                        && stages[d][j].wf(),
                forall|d: int| 0 <= d < c ==> (#[trigger] stages[d]).len() == table[d].len(),
                forall|i: int| 0 <= i < units.len() ==> ascending((#[trigger] units[i]).names),
                forall|u: UnitView| #[trigger]
                    registry_pairs(registry).contains_key(u) ==> registry_pairs(registry)[u]
                        < units.len() && units[registry_pairs(registry)[u] as int] == u,
                forall|v: usize|
                    v < units.len() ==> (exists|d: int, j: int|
                        0 <= d < c && 0 <= j < table[d].len() && #[trigger] table[d][j] == v)
                        || (registry_pairs(registry).contains_key(#[trigger] units[v as int])
                        && registry_pairs(registry)[units[v as int]] == v),
            decreases order.len() - c,
        {
            let component = &order[c];
            assert(component@ == table[c as int]);
            let mut stage: Vec<BuildUnit> = Vec::new();
            let mut i: usize = 0;
            while i < component.len()
                invariant
                    i <= component.len(),
                    c < order.len(),
                    component@ == table[c as int],
                    table == rows(order@),
                    is_scc_order(units.len(), edges, table),
                    stage.len() == i,
                    forall|j: int|
                        0 <= j < i ==> (#[trigger] stage[j])@ == units[component[j] as int]
                            && stage[j].wf(),
                    forall|k: int| 0 <= k < units.len() ==> ascending((#[trigger] units[k]).names),
                    forall|u: UnitView| #[trigger]
                        registry_pairs(registry).contains_key(u) ==> registry_pairs(registry)[u]
                            < units.len() && units[registry_pairs(registry)[u] as int] == u,
                    forall|v: usize|
                        v < units.len() ==> (exists|d: int, j: int|
                            0 <= d < c && 0 <= j < table[d].len() && #[trigger] table[d][j] == v)
                            || (exists|j: int| 0 <= j < i && #[trigger] component[j] == v)
                            || (registry_pairs(registry).contains_key(#[trigger] units[v as int])
                            && registry_pairs(registry)[units[v as int]] == v),
                decreases component.len() - i,
            {
                let node = component[i];
                let ghost known = registry_pairs(registry);
                proof {
                    assert(table[c as int][i as int] == node);
                    assert(node < units.len());
                    if exists|d: int, j: int|
                        0 <= d < c && 0 <= j < table[d].len() && #[trigger] table[d][j] == node {
                        let (d, j) = choose|d: int, j: int|
                            0 <= d < c && 0 <= j < table[d].len() && #[trigger] table[d][j]
                                == node;
                        assert(table[d][j] == table[c as int][i as int]);
                    }
                    if exists|j: int| 0 <= j < i && #[trigger] component[j] == node {
                        let j = choose|j: int| 0 <= j < i && #[trigger] component[j] == node;
                        assert(table[c as int][j] == table[c as int][i as int]);
                    }
                    assert(known.contains_key(units[node as int]));
                }
                let taken = registry_take(&mut registry, node);
                match taken {
                    Some(unit) => {
                        proof {
                            assert(unit@ == units[node as int]);
                            let left = registry_pairs(registry);
                            assert forall|v: usize| v < units.len() implies (exists|d: int, j: int|
                                0 <= d < c && 0 <= j < table[d].len() && #[trigger] table[d][j]
                                    == v) || (exists|j: int|
                                0 <= j < i + 1 && #[trigger] component[j] == v) || (
                            left.contains_key(#[trigger] units[v as int]) && left[units[v as int]]
                                == v) by {
                                if v == node {
                                    assert(component[i as int] == v);
                                } else if known.contains_key(units[v as int])
                                    && known[units[v as int]] == v {
                                    assert(units[v as int] != unit@);
                                } else if exists|j: int|
                                    0 <= j < i && #[trigger] component[j] == v {
                                    let j = choose|j: int|
                                        0 <= j < i && #[trigger] component[j] == v;
                                    assert(component[j] == v);
                                }
                            }
                        }
                        stage.push(unit);
                    },
                    None => {
                        assert(false);
                    },
                }
                i += 1;
            }
            proof {
                assert forall|v: usize| v < units.len() implies (exists|d: int, j: int|
                    0 <= d < c + 1 && 0 <= j < table[d].len() && #[trigger] table[d][j] == v) || (
                registry_pairs(registry).contains_key(#[trigger] units[v as int])
                    && registry_pairs(registry)[units[v as int]] == v) by {
                    if exists|d: int, j: int|
                        0 <= d < c && 0 <= j < table[d].len() && #[trigger] table[d][j] == v {
                        let (d, j) = choose|d: int, j: int|
                            0 <= d < c && 0 <= j < table[d].len() && #[trigger] table[d][j] == v;
                        assert(table[d][j] == v);
                    } else if exists|j: int| 0 <= j < i && #[trigger] component[j] == v {
                        let j = choose|j: int| 0 <= j < i && #[trigger] component[j] == v;
                        assert(table[c as int][j] == v);
                    }
                }
            }
            stages.push(stage);
            c += 1;
        }
        proof {
            let got = stage_views(stages@);
            let want = self@.stages();
            assert(got.len() == want.len());
            assert forall|d: int| 0 <= d < got.len() implies got[d] == want[d] by {
                assert(stages[d].len() == table[d].len());
                assert forall|j: int| 0 <= j < got[d].len() implies got[d][j] == want[d][j] by {
                    assert(stages[d][j]@ == units[table[d][j] as int]);
                }
                assert(got[d] =~= want[d]);
            }
            assert(got =~= want);
        }
        stages
    }
}

impl GraphView {
    /// In the build stages of a sound graph every build unit stands once, a
    /// build unit stands with or after the build units that its edges lead
    /// to, and the root, node 0, stands in the last stage.
    pub proof fn lemma_stages(self)
        requires
            self.sound(),
            self.units.len() > 0,
            holds_nodes(self.units.len(), scc_order(self.units.len(), self.edges)),
            covers(self.units.len(), scc_order(self.units.len(), self.edges)),
            places_differ(scc_order(self.units.len(), self.edges)),
            edges_descend(self.edges, scc_order(self.units.len(), self.edges)),
        ensures
            self.stages().len() > 0,
            self.stages().last().contains(self.units[0]),
            forall|c: int, i: int, d: int, j: int|
                0 <= c < self.stages().len() && 0 <= i < self.stages()[c].len() && 0 <= d
                    < self.stages().len() && 0 <= j < self.stages()[d].len()
                    && #[trigger] self.stages()[c][i] == #[trigger] self.stages()[d][j] ==> c == d
                    && i == j,
            forall|v: usize|
                v < self.units.len() ==> staged(self.stages(), #[trigger] self.units[v as int]),
            forall|c: int, i: int, d: int, j: int|
                0 <= c < self.stages().len() && 0 <= i < self.stages()[c].len() && 0 <= d
                    < self.stages().len() && 0 <= j < self.stages()[d].len()
                    && self.edges.contains(
                    (
                        self.units.index_of(#[trigger] self.stages()[c][i]) as usize,
                        self.units.index_of(#[trigger] self.stages()[d][j]) as usize,
                    ),
                ) ==> d <= c,
    {
        let order = scc_order(self.units.len(), self.edges);
        let stages = self.stages();
        lemma_root_last(self.units.len(), self.edges, order);
        let last = order.len() - 1;
        let at = choose|i: int| 0 <= i < order[last].len() && order[last][i] == 0usize;
        assert(stages[last][at] == self.units[0]);
        assert forall|c: int, i: int, d: int, j: int|
            0 <= c < stages.len() && 0 <= i < stages[c].len() && 0 <= d < stages.len() && 0 <= j
                < stages[d].len() && #[trigger] stages[c][i] == #[trigger] stages[d][j] implies c
            == d && i == j by {
            assert(is_place(order, c, i) && is_place(order, d, j));
            assert(order[c][i] < self.units.len() && order[d][j] < self.units.len());
            assert(self.units[order[c][i] as int] == self.units[order[d][j] as int]);
            assert(order[c][i] == order[d][j]);
        }
        assert forall|c: int, i: int, d: int, j: int|
            0 <= c < stages.len() && 0 <= i < stages[c].len() && 0 <= d < stages.len() && 0 <= j
                < stages[d].len() && self.edges.contains(
                (
                    self.units.index_of(#[trigger] stages[c][i]) as usize,
                    self.units.index_of(#[trigger] stages[d][j]) as usize,
                ),
            ) implies d <= c by {
            assert(is_place(order, c, i) && is_place(order, d, j));
            let a = order[c][i];
            let b = order[d][j];
            assert(a < self.units.len() && b < self.units.len());
            assert(stages[c][i] == self.units[a as int]);
            assert(stages[d][j] == self.units[b as int]);
            let x = self.units.index_of(stages[c][i]);
            let y = self.units.index_of(stages[d][j]);
            assert(self.units[x] == self.units[a as int]);
            assert(self.units[y] == self.units[b as int]);
            assert(x == a && y == b);
        }
        assert forall|v: usize| v < self.units.len() implies staged(
            stages,
            #[trigger] self.units[v as int],
        ) by {
            assert(lists(order, v));
            let (c, i) = choose|c: int, i: int|
                0 <= c < order.len() && 0 <= i < order[c].len() && #[trigger] order[c][i] == v;
            assert(stages[c] == Seq::new(order[c].len(), |k: int| self.units[order[c][k] as int]));
            assert(stages[c][i] == self.units[order[c][i] as int]);
            assert(stages[c].contains(self.units[v as int]));
        }
    }
}

/// Where a node leads to a node, the stage of the second is not later than
/// the stage of the first: what a build unit depends on is built with it or
/// before it.
pub proof fn lemma_dependencies_first(
    nodes: nat,
    edges: Seq<(usize, usize)>,
    order: Seq<Seq<usize>>,
    path: Seq<usize>,
    c: int,
    i: int,
    d: int,
    j: int,
)
    requires
        covers(nodes, order),
        places_differ(order),
        edges_descend(edges, order),
        forall|e: int|
            0 <= e < edges.len() ==> (#[trigger] edges[e]).0 < nodes && edges[e].1 < nodes,
        is_place(order, c, i),
        is_place(order, d, j),
        is_path(edges, path),
        path.first() == order[c][i],
        path.last() == order[d][j],
    ensures
        d <= c,
    decreases path.len(),
{
    if path.len() == 1 {
        assert(order[c][i] == order[d][j]);
    } else {
        let n = path.len() as int;
        let before = path[n - 2];
        let edge = (before, path[n - 1]);
        assert(edges.contains((path[n - 2], path[n - 2 + 1])));
        let e = choose|e: int| 0 <= e < edges.len() && edges[e] == edge;
        assert(edges[e].0 < nodes);
        assert(lists(order, before));
        let (m, k) = choose|m: int, k: int|
            0 <= m < order.len() && 0 <= k < order[m].len() && #[trigger] order[m][k] == before;
        assert(is_place(order, m, k));
        let shorter = path.drop_last();
        assert forall|x: int| 0 <= x < shorter.len() - 1 implies edges.contains(
            (#[trigger] shorter[x], shorter[x + 1]),
        ) by {
            assert(shorter[x] == path[x] && shorter[x + 1] == path[x + 1]);
        }
        lemma_dependencies_first(nodes, edges, order, shorter, c, i, m, k);
        assert(edges.contains((order[m][k], order[d][j])));
    }
}

/// In a graph whose every node can be reached from node 0, node 0 stands in
/// the last stage: the root is built last.
pub proof fn lemma_root_last(nodes: nat, edges: Seq<(usize, usize)>, order: Seq<Seq<usize>>)
    requires
        holds_nodes(nodes, order),
        covers(nodes, order),
        places_differ(order),
        edges_descend(edges, order),
        nodes > 0,
        forall|e: int|
            0 <= e < edges.len() ==> (#[trigger] edges[e]).0 < nodes && edges[e].1 < nodes,
        forall|v: usize| v < nodes ==> #[trigger] reaches(edges, 0, v),
    ensures
        order.len() > 0,
        order.last().contains(0usize),
{
    assert(lists(order, 0usize));
    let (c, i) = choose|c: int, i: int|
        0 <= c < order.len() && 0 <= i < order[c].len() && #[trigger] order[c][i] == 0usize;
    let last = order.len() - 1;
    let v = order[last][0];
    assert(v < nodes);
    assert(reaches(edges, 0, v));
    let path = choose|path: Seq<usize>|
        is_path(edges, path) && path.first() == 0usize && path.last() == v;
    lemma_dependencies_first(nodes, edges, order, path, c, i, last, 0);
    assert(order.last()[i] == 0usize);
}

} // verus!
