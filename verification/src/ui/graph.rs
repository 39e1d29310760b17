//! The widgets of the Ui stored as nodes of a `petgraph` graph, found by
//! their `WidgetId`.

use std::collections::HashMap;

use petgraph::graph::NodeIndex;
use petgraph::stable_graph::StableGraph;
use petgraph::Directed;
use vstd::prelude::*;

use crate::resources::id::WidgetId;

verus! {

broadcast use vstd::std_specs::hash::group_hash_axioms;

/// A graph of `petgraph` whose node indices stay valid when other nodes are removed.
#[verifier::external_type_specification]
#[verifier::external_body]
#[verifier::reject_recursive_types(N)]
#[verifier::reject_recursive_types(E)]
#[verifier::reject_recursive_types(Ty)]
#[verifier::reject_recursive_types(Ix)]
pub struct ExStableGraph<N, E, Ty, Ix>(StableGraph<N, E, Ty, Ix>);

/// The marker of a directed `petgraph` graph.
#[verifier::external_type_specification]
#[verifier::external_body]
pub struct ExDirected(Directed);

/// The nodes of a widget graph: the weight, a widget number, of each node index in use.
pub uninterp spec fn graph_nodes(g: StableGraph<usize, (), Directed, u32>) -> Map<usize, usize>;

/// The edges of a widget graph: the (source, target) node pairs that at least one edge joins.
pub uninterp spec fn graph_edges(g: StableGraph<usize, (), Directed, u32>) -> Set<(usize, usize)>;

/// Whether every edge index of a widget graph is taken, so that no edge can be added.
pub uninterp spec fn graph_edges_full(g: StableGraph<usize, (), Directed, u32>) -> bool;

/// The largest node index plus one: `petgraph` keeps `u32::MAX` as its end marker.
pub open spec fn node_index_limit() -> usize {
    0xFFFF_FFFFusize
}

/// Calls `StableGraph::new`: the graph has no node and no edge.
#[verifier::external_body]
fn graph_new() -> (g: StableGraph<usize, (), Directed, u32>)
    ensures
        graph_nodes(g) =~= Map::empty(),
        graph_edges(g) =~= Set::empty(),
{
    StableGraph::new()
}

/// Calls `StableGraph::try_add_node`: the node takes an index not in use, below
/// the end marker, and holds `weight`. `None` only when no index is left: the
/// graph keeps every vacant slot on its free list and reuses one when there is
/// one, so it fails only when every index below the end marker is in use; the
/// nodes are then unchanged. Edges are untouched.
#[verifier::external_body]
fn graph_add_node(g: &mut StableGraph<usize, (), Directed, u32>, weight: usize) -> (r: Option<usize>)
    ensures
        graph_edges(*final(g)) == graph_edges(*old(g)),
        graph_edges_full(*final(g)) == graph_edges_full(*old(g)),
        r matches Some(i) ==> {
            &&& i < node_index_limit()
            &&& !graph_nodes(*old(g)).contains_key(i)
            &&& graph_nodes(*final(g)) == graph_nodes(*old(g)).insert(i, weight)
        },
        r is None ==> graph_nodes(*final(g)) == graph_nodes(*old(g)),
        r is None ==> forall|i: usize| i < node_index_limit() ==> #[trigger] graph_nodes(*old(g)).contains_key(i),
{
    match g.try_add_node(weight) {
        Ok(i) => Some(i.index()),
        Err(_) => None,
    }
}

/// Calls `StableGraph::try_add_edge` from node `a` to node `b`, both in use:
/// `true` when an edge index was left, and then the edge joins them; otherwise
/// nothing changes. The nodes are unchanged.
#[verifier::external_body]
fn graph_add_edge(g: &mut StableGraph<usize, (), Directed, u32>, a: usize, b: usize) -> (r: bool)
    requires
        a < node_index_limit(),
        b < node_index_limit(),
        graph_nodes(*old(g)).contains_key(a),
        graph_nodes(*old(g)).contains_key(b),
    ensures
        graph_nodes(*final(g)) == graph_nodes(*old(g)),
        r == !graph_edges_full(*old(g)),
        r ==> graph_edges(*final(g)) == graph_edges(*old(g)).insert((a, b)),
        !r ==> graph_edges(*final(g)) == graph_edges(*old(g)),
{
    g.try_add_edge(NodeIndex::new(a), NodeIndex::new(b), ()).is_ok()
}

/// Calls `StableGraph::remove_node`: the node at `i` is gone with every edge
/// from or to it, and its weight is returned.
#[verifier::external_body]
fn graph_remove_node(g: &mut StableGraph<usize, (), Directed, u32>, i: usize) -> (r: Option<usize>)
    requires
        i < node_index_limit(),
    ensures
        graph_nodes(*final(g)) == graph_nodes(*old(g)).remove(i),
        graph_edges(*final(g)) == edges_without_node(graph_edges(*old(g)), i),
        r == (if graph_nodes(*old(g)).contains_key(i) {
            Some(graph_nodes(*old(g))[i])
        } else {
            None
        }),
{
    g.remove_node(NodeIndex::new(i))
}

/// Calls `StableGraph::node_weight`: the weight of the node at `i`, if it is in use.
#[verifier::external_body]
fn graph_node_weight(g: &StableGraph<usize, (), Directed, u32>, i: usize) -> (r: Option<usize>)
    requires
        i < node_index_limit(),
    ensures
        r == (if graph_nodes(*g).contains_key(i) {
            Some(graph_nodes(*g)[i])
        } else {
            None
        }),
{
    g.node_weight(NodeIndex::new(i)).copied()
}

/// The edges of `edges` that neither start nor end at node `i`.
pub open spec fn edges_without_node(edges: Set<(usize, usize)>, i: usize) -> Set<(usize, usize)> {
    edges.filter(|e: (usize, usize)| e.0 != i && e.1 != i)
}

/// Why a widget could not be added to the graph.
#[derive(Copy, Clone, Debug, PartialEq, Eq, Structural)]
pub enum GraphError {
    /// Every node index is in use.
    NodeLimit,
}

/// The widgets of the Ui as nodes of a graph, with an edge from each parent to
/// its children, and the node of each widget.
pub struct WidgetGraph {
    graph: StableGraph<usize, (), Directed, u32>,
    root_id: WidgetId,
    widget_map: HashMap<usize, usize>,
}

impl WidgetGraph {
    /// The node index of each widget, by the widget's number.
    pub closed spec fn nodes_of(&self) -> Map<usize, usize> {
        self.widget_map@
    }

    /// The widget number each node in use holds.
    pub closed spec fn nodes(&self) -> Map<usize, usize> {
        graph_nodes(self.graph)
    }

    /// The edges between nodes: from each parent's node to its children's.
    pub closed spec fn edges(&self) -> Set<(usize, usize)> {
        graph_edges(self.graph)
    }

    /// Whether no edge can be added any more.
    pub closed spec fn edges_full(&self) -> bool {
        graph_edges_full(self.graph)
    }

    /// The root widget of the Ui.
    pub closed spec fn root(&self) -> WidgetId {
        self.root_id
    }

    /// The root widget of the Ui.
    pub fn root_id(&self) -> (r: WidgetId)
        ensures
            r == self.root(),
    {
        self.root_id
    }

    /// Each widget's node is in use and holds that widget.
    pub open spec fn wf(&self) -> bool {
        forall|w: usize| #[trigger]
            self.nodes_of().contains_key(w) ==> {
                &&& self.nodes_of()[w] < node_index_limit()
                &&& self.nodes().contains_key(self.nodes_of()[w])
                &&& self.nodes()[self.nodes_of()[w]] == w
            }
    }

    pub fn new(root_id: WidgetId) -> (g: Self)
        ensures
            g.wf(),
            g.root() == root_id,
            g.nodes_of() == Map::<usize, usize>::empty(),
            g.nodes() == Map::<usize, usize>::empty(),
            g.edges() == Set::<(usize, usize)>::empty(),
    {
        WidgetGraph { graph: graph_new(), root_id: root_id, widget_map: HashMap::new() }
    }

    fn find_widget(&self, widget_id: WidgetId) -> (r: Option<usize>)
        ensures
            r == (if self.nodes_of().contains_key(widget_id.0) {
                Some(self.nodes_of()[widget_id.0])
            } else {
                None
            }),
    {
        match self.widget_map.get(&widget_id.0) {
            Some(i) => Some(*i),
            None => None,
        }
    }

    /// The widget, if it is in the graph.
    pub fn get_widget(&self, widget_id: WidgetId) -> (r: Option<WidgetId>)
        requires
            self.wf(),
        ensures
            r == (if self.nodes_of().contains_key(widget_id.0) {
                Some(widget_id)
            } else {
                None
            }),
    {
        match self.find_widget(widget_id) {
            Some(i) => {
                assert(self.nodes_of().contains_key(widget_id.0));
                match graph_node_weight(&self.graph, i) {
                    Some(w) => Some(WidgetId(w)),
                    None => None,
                }
            },
            None => None,
        }
    }

    /// Adds a node for the widget, with an edge from its parent's node when the
    /// parent is in the graph (and an edge index is left); gives the new node's
    /// index. It fails with `NodeLimit` only when every node index is in use. A
    /// node added before for the same widget stays in the graph, no longer found
    /// by the widget.
    pub fn add_widget(&mut self, widget: WidgetId, parent_id: Option<WidgetId>) -> (r: Result<usize, GraphError>)
        requires
            old(self).wf(),
        ensures
            final(self).wf(),
            final(self).root() == old(self).root(),
            r matches Ok(i) ==> {
                &&& !old(self).nodes().contains_key(i)
                &&& final(self).nodes() == old(self).nodes().insert(i, widget.0)
                &&& final(self).nodes_of() == old(self).nodes_of().insert(widget.0, i)
                &&& final(self).edges() == match parent_id {
                    Some(p) => if final(self).nodes_of().contains_key(p.0) && !old(self).edges_full() {
                        old(self).edges().insert((final(self).nodes_of()[p.0], i))
                    } else {
                        old(self).edges()
                    },
                    None => old(self).edges(),
                }
            },
            r is Err ==> final(self).edges() == old(self).edges(),
            r is Err ==> r == Err::<usize, GraphError>(GraphError::NodeLimit) && final(self).nodes() == old(
                self,
            ).nodes() && final(self).nodes_of() == old(self).nodes_of(),
            r is Err ==> forall|i: usize| i < node_index_limit() ==> #[trigger] old(self).nodes().contains_key(i),
    {
        let index = match graph_add_node(&mut self.graph, widget.0) {
            Some(i) => i,
            None => {
                assert(self.nodes() == old(self).nodes());
                assert(self.nodes_of() == old(self).nodes_of());
                assert forall|w: usize| #[trigger] self.nodes_of().contains_key(w) implies {
                    &&& self.nodes_of()[w] < node_index_limit()
                    &&& self.nodes().contains_key(self.nodes_of()[w])
                    &&& self.nodes()[self.nodes_of()[w]] == w
                } by {
                    assert(old(self).nodes_of().contains_key(w));
                }
                return Err(GraphError::NodeLimit);
            },
        };
        self.widget_map.insert(widget.0, index);
        proof {
            assert forall|w: usize| #[trigger] self.nodes_of().contains_key(w) implies {
                &&& self.nodes_of()[w] < node_index_limit()
                &&& self.nodes().contains_key(self.nodes_of()[w])
                &&& self.nodes()[self.nodes_of()[w]] == w
            } by {
                if w != widget.0 {
                    assert(old(self).nodes_of().contains_key(w));
                    assert(old(self).nodes().contains_key(old(self).nodes_of()[w]));
                }
            }
        }
        if let Some(parent) = parent_id {
            if let Some(parent_index) = self.find_widget(parent) {
                assert(self.nodes().contains_key(parent_index));
                graph_add_edge(&mut self.graph, parent_index, index);
            }
        }
        Ok(index)
    }

    /// Takes the widget's node out of the graph; gives the widget if it was there.
    pub fn remove_widget(&mut self, widget_id: WidgetId) -> (r: Option<WidgetId>)
        requires
            old(self).wf(),
        ensures
            final(self).wf(),
            final(self).root() == old(self).root(),
            final(self).nodes_of() == old(self).nodes_of().remove(widget_id.0),
            old(self).nodes_of().contains_key(widget_id.0) ==> {
                &&& r == Some(widget_id)
                &&& final(self).nodes() == old(self).nodes().remove(old(self).nodes_of()[widget_id.0])
                &&& final(self).edges() == edges_without_node(old(self).edges(), old(self).nodes_of()[widget_id.0])
            },
            !old(self).nodes_of().contains_key(widget_id.0) ==> r is None && final(self).nodes() == old(
                self,
            ).nodes() && final(self).edges() == old(self).edges(),
    {
        match self.find_widget(widget_id) {
            Some(i) => {
                self.widget_map.remove(&widget_id.0);
                let removed = graph_remove_node(&mut self.graph, i);
                proof {
                    assert forall|w: usize| #[trigger] self.nodes_of().contains_key(w) implies {
                        &&& self.nodes_of()[w] < node_index_limit()
                        &&& self.nodes().contains_key(self.nodes_of()[w])
                        &&& self.nodes()[self.nodes_of()[w]] == w
                    } by {
                        assert(old(self).nodes_of().contains_key(w));
                        assert(old(self).nodes().contains_key(old(self).nodes_of()[w]));
                        assert(old(self).nodes_of()[w] != i);
                    }
                }
                match removed {
                    Some(w) => Some(WidgetId(w)),
                    None => None,
                }
            },
            None => {
                self.widget_map.remove(&widget_id.0);
                assert(self.nodes_of() =~= old(self).nodes_of().remove(widget_id.0));
                None
            },
        }
    }
}

} // verus!

verus! {

/// Adding a widget and then removing it leaves the graph's nodes as they were,
/// and the widget is no longer found, when the widget was not in the graph before.
pub proof fn law_add_then_remove_widget(
    nodes: Map<usize, usize>,
    nodes_of: Map<usize, usize>,
    widget: WidgetId,
    index: usize,
)
    requires
        !nodes.contains_key(index),
        !nodes_of.contains_key(widget.0),
    ensures
        nodes.insert(index, widget.0).remove(nodes_of.insert(widget.0, index)[widget.0]) == nodes,
        nodes_of.insert(widget.0, index).remove(widget.0) == nodes_of,
{
    assert(nodes.insert(index, widget.0).remove(index) =~= nodes);
    assert(nodes_of.insert(widget.0, index).remove(widget.0) =~= nodes_of);
}

} // verus!
