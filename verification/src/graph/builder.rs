//! The evidence graph and its construction from telemetry.
use vstd::prelude::*;
use indexmap::{IndexMap, IndexSet};
use crate::graph::edges::{Edge, EdgeKind, EdgeView, kind_code, kind_of_code};
use crate::backend::{F64Bits, LogRecord, Span, SpanStatus, UnixNanos};
use crate::config::CorrelationConfig;
use crate::graph::nodes::{
    Node, NodeId, NodeView, node_id, opt_view, service_node_id, span_node_id, span_node_id_of, strings_view,
};
use crate::graph::store::{
    edge_items, edge_set_get_index, edge_set_insert, edge_set_len, edge_set_new, has_item, key_pos,
    node_entries, node_map_contains_key, node_map_get, node_map_get_index, node_map_insert, node_map_len,
    node_map_new,
};
use crate::text::{concat, dec, text_order, u64_text, lemma_text_order_antisym, lemma_text_order_trans, compare_text};
use crate::json::text_eq;

verus! {

/// Nodes keyed by id and distinct edges, both kept in insertion order.
pub struct EvidenceGraph {
    nodes: IndexMap<String, Node>,
    edges: IndexSet<(String, String, u8)>,
}

/// A graph as the specifications see it: its nodes and its edges, each in
/// insertion order.
pub struct GraphView {
    pub nodes: Seq<NodeView>,
    pub edges: Seq<EdgeView>,
}

/// Whether a node with id `id` is present.
pub open spec fn has_id(nodes: Seq<NodeView>, id: Seq<char>) -> bool {
    exists|i: int| 0 <= i < nodes.len() && node_id(nodes[i]) == id
}

/// The node with id `id`, if one is present (the first, were there several).
#[verifier::opaque]
pub open spec fn lookup(nodes: Seq<NodeView>, id: Seq<char>) -> Option<NodeView> {
    if has_id(nodes, id) {
        Some(nodes[choose|i: int| 0 <= i < nodes.len() && node_id(nodes[i]) == id
            && forall|j: int| 0 <= j < i ==> node_id(nodes[j]) != id])
    } else {
        None
    }
}

/// No two nodes share an id and no edge occurs twice.
pub open spec fn distinct_ids(nodes: Seq<NodeView>) -> bool {
    forall|i: int, j: int| 0 <= i < j < nodes.len() ==> node_id(nodes[i]) != node_id(nodes[j])
}

/// No edge occurs twice.
pub open spec fn distinct_edges(edges: Seq<EdgeView>) -> bool {
    forall|i: int, j: int| 0 <= i < j < edges.len() ==> edges[i] != edges[j]
}

/// The empty graph.
pub open spec fn empty_graph() -> GraphView {
    GraphView { nodes: Seq::empty(), edges: Seq::empty() }
}

/// Adding a node: a node whose id is already present leaves the graph as it
/// is; any other node is appended.
pub open spec fn add_node_spec(g: GraphView, n: NodeView) -> GraphView {
    if has_id(g.nodes, node_id(n)) {
        g
    } else {
        GraphView { nodes: g.nodes.push(n), edges: g.edges }
    }
}

/// Adding an edge: an edge already present leaves the graph as it is; any
/// other edge is appended.
pub open spec fn add_edge_spec(g: GraphView, e: EdgeView) -> GraphView {
    if g.edges.contains(e) {
        g
    } else {
        GraphView { nodes: g.nodes, edges: g.edges.push(e) }
    }
}

/// Edges of kind `kind` that end at `target`.
pub open spec fn ends_at(target: Seq<char>, kind: EdgeKind) -> spec_fn(EdgeView) -> bool {
    |e: EdgeView| e.to == target && e.kind == kind
}

/// Edges of kind `kind` that start at `src`.
pub open spec fn starts_at(src: Seq<char>, kind: EdgeKind) -> spec_fn(EdgeView) -> bool {
    |e: EdgeView| e.from == src && e.kind == kind
}

/// The edges of `edges` that end at `target` and are of kind `kind`.
pub open spec fn edges_to_spec(edges: Seq<EdgeView>, target: Seq<char>, kind: EdgeKind) -> Seq<EdgeView> {
    edges.filter(ends_at(target, kind))
}

/// The edges of `edges` that start at `src` and are of kind `kind`.
pub open spec fn edges_from_spec(edges: Seq<EdgeView>, src: Seq<char>, kind: EdgeKind) -> Seq<EdgeView> {
    edges.filter(starts_at(src, kind))
}

/// The edge that a stored item stands for.
pub open spec fn item_edge(x: (Seq<char>, Seq<char>, u8)) -> EdgeView {
    EdgeView { from: x.0, to: x.1, kind: kind_of_code(x.2) }
}

impl View for EvidenceGraph {
    type V = GraphView;

    closed spec fn view(&self) -> GraphView {
        GraphView {
            nodes: node_entries(self.nodes).map_values(|e: (Seq<char>, Node)| e.1@),
            edges: edge_items(self.edges).map_values(|x: (Seq<char>, Seq<char>, u8)| item_edge(x)),
        }
    }
}

proof fn lemma_kind_code_roundtrip(k: EdgeKind)
    ensures
        kind_of_code(kind_code(k)) == k,
        kind_code(k) < 4,
{
}

impl EvidenceGraph {
    /// The graph is well formed: every node is stored under its own id, no
    /// two nodes share an id, and no edge is stored twice.
    pub closed spec fn wf(&self) -> bool {
        let e = node_entries(self.nodes);
        let s = edge_items(self.edges);
        &&& forall|i: int| 0 <= i < e.len() ==> #[trigger] e[i].0 == node_id(e[i].1@)
        &&& distinct_ids(self@.nodes)
        &&& forall|i: int| 0 <= i < s.len() ==> #[trigger] s[i].2 < 4
        &&& forall|i: int, j: int| 0 <= i < j < s.len() ==> s[i] != s[j]
    }

    proof fn lemma_view_facts(&self)
        requires
            self.wf(),
        ensures
            self@.nodes.len() == node_entries(self.nodes).len(),
            self@.edges.len() == edge_items(self.edges).len(),
            forall|i: int| 0 <= i < self@.nodes.len() ==> #[trigger] self@.nodes[i] == node_entries(self.nodes)[i].1@,
            forall|i: int| 0 <= i < self@.edges.len() ==> #[trigger] self@.edges[i] == item_edge(edge_items(self.edges)[i]),
            distinct_ids(self@.nodes),
            distinct_edges(self@.edges),
    {
        let s = edge_items(self.edges);
        assert forall|i: int, j: int| 0 <= i < j < self@.edges.len() implies self@.edges[i] != self@.edges[j] by {
            assert(s[i] != s[j]);
            assert(s[i].2 < 4 && s[j].2 < 4);
            if self@.edges[i] == self@.edges[j] {
                assert(kind_of_code(s[i].2) == kind_of_code(s[j].2));
                assert(s[i].2 == s[j].2);
                assert(s[i] == s[j]);
            }
        }
    }

    /// In a well-formed graph no two nodes share an id and no edge occurs
    /// twice.
    pub proof fn lemma_wf_distinct(&self)
        requires
            self.wf(),
        ensures
            distinct_ids(self@.nodes),
            distinct_edges(self@.edges),
    {
        self.lemma_view_facts();
    }

    proof fn lemma_key_pos(&self, k: Seq<char>)
        requires
            self.wf(),
        ensures
            key_pos(node_entries(self.nodes), k) is Some <==> has_id(self@.nodes, k),
            match key_pos(node_entries(self.nodes), k) {
                Some(i) => 0 <= i < self@.nodes.len() && lookup(self@.nodes, k) == Some(self@.nodes[i])
                    && node_id(self@.nodes[i]) == k,
                None => lookup(self@.nodes, k) is None,
            },
    {
        self.lemma_view_facts();
        reveal(lookup);
        let e = node_entries(self.nodes);
        let n = self@.nodes;
        if exists|i: int| 0 <= i < e.len() && e[i].0 == k {
            let i = choose|i: int| 0 <= i < e.len() && e[i].0 == k && forall|j: int| 0 <= j < i ==> e[j].0 != k;
            assert(0 <= i < e.len() && e[i].0 == k && forall|j: int| 0 <= j < i ==> e[j].0 != k) by {
                let w = choose|i: int| 0 <= i < e.len() && e[i].0 == k;
                let m = first_key_at(e, k, w);
            }
            assert(node_id(n[i]) == k);
            assert(has_id(n, k));
            let c = choose|c: int| 0 <= c < n.len() && node_id(n[c]) == k
                && forall|j: int| 0 <= j < c ==> node_id(n[j]) != k;
            assert(0 <= c < n.len() && node_id(n[c]) == k) by {
                let m = first_id_at(n, k, i);
            }
            assert(c == i);
        } else {
            assert forall|i: int| 0 <= i < n.len() implies node_id(n[i]) != k by {
                assert(e[i].0 == node_id(e[i].1@));
            }
        }
    }

    /// An empty graph.
    pub fn new() -> (g: EvidenceGraph)
        ensures
            g.wf(),
            g@ == empty_graph(),
    {
        let g = EvidenceGraph { nodes: node_map_new(), edges: edge_set_new() };
        assert(g@.nodes =~= Seq::<NodeView>::empty());
        assert(g@.edges =~= Seq::<EdgeView>::empty());
        g
    }

    /// Adds `n` unless a node with its id is present, and gives its id.
    pub fn add_node(&mut self, n: Node) -> (id: NodeId)
        requires
            old(self).wf(),
        ensures
            final(self).wf(),
            final(self)@ == add_node_spec(old(self)@, n@),
            id@ == node_id(n@),
    {
        let id = n.id();
        proof {
            self.lemma_key_pos(id@);
            self.lemma_view_facts();
        }
        if !node_map_contains_key(&self.nodes, &id) {
            let ghost before = self@;
            let ghost e0 = node_entries(self.nodes);
            node_map_insert(&mut self.nodes, id.clone(), n);
            proof {
                let e1 = node_entries(self.nodes);
                assert(e1 == e0.push((id@, n)));
                assert(self@.nodes =~= before.nodes.push(n@));
                assert(self@.edges == before.edges);
                assert forall|i: int, j: int| 0 <= i < j < self@.nodes.len() implies node_id(self@.nodes[i])
                    != node_id(self@.nodes[j]) by {
                    if j == before.nodes.len() {
                        assert(self@.nodes[i] == before.nodes[i]);
                    }
                }
                assert forall|i: int| 0 <= i < e1.len() implies #[trigger] e1[i].0 == node_id(e1[i].1@) by {
                    if i < e0.len() {
                        assert(e1[i] == e0[i]);
                    }
                }
            }
        }
        id
    }

    fn has_edge_item(&self, e: &Edge) -> (r: bool)
        requires
            self.wf(),
        ensures
            r == self@.edges.contains(e@),
    {
        proof {
            self.lemma_view_facts();
        }
        let n = edge_set_len(&self.edges);
        let code = e.kind.code();
        let mut i: usize = 0;
        while i < n
            invariant
                self.wf(),
                n == self@.edges.len(),
                i <= n,
                code == kind_code(e.kind),
                forall|j: int| 0 <= j < i ==> self@.edges[j] != e@,
                forall|j: int| 0 <= j < self@.edges.len() ==> #[trigger] self@.edges[j] == item_edge(edge_items(self.edges)[j]),
                forall|j: int| 0 <= j < edge_items(self.edges).len() ==> #[trigger] edge_items(self.edges)[j].2 < 4,
            decreases n - i,
        {
            let x = edge_set_get_index(&self.edges, i).unwrap();
            let same = crate::json::text_eq(x.0.as_str(), e.from.as_str())
                && crate::json::text_eq(x.1.as_str(), e.to.as_str()) && x.2 == code;
            proof {
                lemma_kind_code_roundtrip(e.kind);
                let it = edge_items(self.edges)[i as int];
                assert(it.2 < 4);
                if self@.edges[i as int] == e@ {
                    assert(kind_of_code(it.2) == kind_of_code(code));
                }
            }
            if same {
                assert(self@.edges[i as int] == e@);
                return true;
            }
            i = i + 1;
        }
        false
    }

    fn insert_edge(&mut self, e: Edge) -> (r: bool)
        requires
            old(self).wf(),
        ensures
            final(self).wf(),
            r == !old(self)@.edges.contains(e@),
            final(self)@ == add_edge_spec(old(self)@, e@),
    {
        proof {
            self.lemma_view_facts();
            lemma_kind_code_roundtrip(e.kind);
        }
        let ghost before = self@;
        let ghost s0 = edge_items(self.edges);
        let present = self.has_edge_item(&e);
        let code = e.kind.code();
        let from = e.from;
        let to = e.to;
        let ghost v = (from@, to@, code);
        proof {
            if has_item(s0, v) {
                let i = choose|i: int| 0 <= i < s0.len() && s0[i] == v;
                assert(before.edges[i] == item_edge(s0[i]));
                assert(before.edges.contains(EdgeView { from: from@, to: to@, kind: kind_of_code(code) }));
            }
            if before.edges.contains(EdgeView { from: from@, to: to@, kind: kind_of_code(code) }) {
                let i = choose|i: int| 0 <= i < before.edges.len() && before.edges[i] == EdgeView {
                    from: from@,
                    to: to@,
                    kind: kind_of_code(code),
                };
                assert(before.edges[i] == item_edge(s0[i]));
                assert(s0[i].2 < 4);
                assert(s0[i] == v);
            }
        }
        let inserted = edge_set_insert(&mut self.edges, (from, to, code));
        proof {
            let s1 = edge_items(self.edges);
            assert(inserted == !present);
            if inserted {
                assert(s1 == s0.push(v));
                assert(self@.edges =~= before.edges.push(item_edge(v)));
                assert forall|i: int, j: int| 0 <= i < j < s1.len() implies s1[i] != s1[j] by {
                    if j == s0.len() {
                        assert(s1[i] == s0[i]);
                        assert(!has_item(s0, v));
                    }
                }
                assert forall|i: int| 0 <= i < s1.len() implies #[trigger] s1[i].2 < 4 by {
                    if i < s0.len() {
                        assert(s1[i] == s0[i]);
                    }
                }
            } else {
                assert(self@.edges =~= before.edges);
            }
            assert(self@.nodes =~= before.nodes);
        }
        inserted
    }

    /// Adds `e` unless an equal edge is present; gives whether it was added.
    pub fn add_edge(&mut self, e: Edge) -> (added: bool)
        requires
            old(self).wf(),
        ensures
            final(self).wf(),
            added == !old(self)@.edges.contains(e@),
            final(self)@ == add_edge_spec(old(self)@, e@),
    {
        self.insert_edge(e)
    }

    /// Adds `e` as `add_edge` does, but only when both of its ends are nodes
    /// of the graph; otherwise the graph is left as it is and the error names
    /// the missing end (`from` is checked first).
    pub fn add_edge_strict(&mut self, e: Edge) -> (r: Result<bool, String>)
        requires
            old(self).wf(),
        ensures
            final(self).wf(),
            !has_id(old(self)@.nodes, e.from@) ==> (final(self)@ == old(self)@
                && (r matches Err(msg) && msg@ == "dangling from: "@ + e.from@)),
            has_id(old(self)@.nodes, e.from@) && !has_id(old(self)@.nodes, e.to@) ==> (final(self)@ == old(self)@
                && (r matches Err(msg) && msg@ == "dangling to: "@ + e.to@)),
            has_id(old(self)@.nodes, e.from@) && has_id(old(self)@.nodes, e.to@) ==>
                final(self)@ == add_edge_spec(old(self)@, e@)
                && r == Ok::<bool, String>(!old(self)@.edges.contains(e@)),
    {
        proof {
            self.lemma_key_pos(e.from@);
            self.lemma_key_pos(e.to@);
        }
        if !node_map_contains_key(&self.nodes, &e.from) {
            return Err(concat("dangling from: ", e.from.as_str()));
        }
        if !node_map_contains_key(&self.nodes, &e.to) {
            return Err(concat("dangling to: ", e.to.as_str()));
        }
        Ok(self.insert_edge(e))
    }

    /// Whether a node with id `id` is present.
    pub(crate) fn contains_node(&self, id: &NodeId) -> (r: bool)
        requires
            self.wf(),
        ensures
            r == has_id(self@.nodes, id@),
    {
        proof {
            self.lemma_key_pos(id@);
        }
        node_map_contains_key(&self.nodes, id)
    }

    /// The number of nodes.
    pub fn node_count(&self) -> (n: usize)
        requires
            self.wf(),
        ensures
            n == self@.nodes.len(),
    {
        proof {
            self.lemma_view_facts();
        }
        node_map_len(&self.nodes)
    }

    /// The number of edges.
    pub fn edge_count(&self) -> (n: usize)
        requires
            self.wf(),
        ensures
            n == self@.edges.len(),
    {
        proof {
            self.lemma_view_facts();
        }
        edge_set_len(&self.edges)
    }

    /// The node with id `id`.
    pub fn get(&self, id: &NodeId) -> (r: Option<&Node>)
        requires
            self.wf(),
        ensures
            match lookup(self@.nodes, id@) {
                Some(n) => r matches Some(x) && x@ == n,
                None => r is None,
            },
            r is Some <==> has_id(self@.nodes, id@),
    {
        proof {
            self.lemma_key_pos(id@);
            self.lemma_view_facts();
        }
        node_map_get(&self.nodes, id)
    }

    /// Every node with its id, in insertion order.
    pub fn nodes(&self) -> (r: Vec<(NodeId, Node)>)
        requires
            self.wf(),
        ensures
            r@.len() == self@.nodes.len(),
            forall|i: int| 0 <= i < r@.len() ==> (#[trigger] r@[i]).1@ == self@.nodes[i]
                && r@[i].0@ == node_id(self@.nodes[i]),
    {
        proof {
            self.lemma_view_facts();
        }
        let n = node_map_len(&self.nodes);
        let mut r: Vec<(NodeId, Node)> = Vec::new();
        let mut i: usize = 0;
        while i < n
            invariant
                self.wf(),
                n == self@.nodes.len(),
                i <= n,
                r@.len() == i,
                forall|j: int| 0 <= j < i ==> (#[trigger] r@[j]).1@ == self@.nodes[j]
                    && r@[j].0@ == node_id(self@.nodes[j]),
                forall|j: int| 0 <= j < self@.nodes.len() ==> #[trigger] self@.nodes[j] == node_entries(self.nodes)[j].1@,
            decreases n - i,
        {
            let (k, v) = node_map_get_index(&self.nodes, i).unwrap();
            proof {
                let e = node_entries(self.nodes);
                assert(e[i as int].0 == node_id(e[i as int].1@));
            }
            r.push((k.clone(), v.duplicate()));
            i = i + 1;
        }
        r
    }

    /// Every edge, in insertion order.
    pub fn edges(&self) -> (r: Vec<Edge>)
        requires
            self.wf(),
        ensures
            r@.map_values(|e: Edge| e@) == self@.edges,
    {
        proof {
            self.lemma_view_facts();
        }
        let n = edge_set_len(&self.edges);
        let mut r: Vec<Edge> = Vec::new();
        let mut i: usize = 0;
        while i < n
            invariant
                self.wf(),
                n == self@.edges.len(),
                i <= n,
                r@.len() == i,
                forall|j: int| 0 <= j < i ==> (#[trigger] r@[j])@ == self@.edges[j],
                forall|j: int| 0 <= j < self@.edges.len() ==> #[trigger] self@.edges[j] == item_edge(edge_items(self.edges)[j]),
            decreases n - i,
        {
            let x = edge_set_get_index(&self.edges, i).unwrap();
            r.push(Edge { from: x.0.clone(), to: x.1.clone(), kind: EdgeKind::from_code(x.2) });
            i = i + 1;
        }
        assert(r@.map_values(|e: Edge| e@) =~= self@.edges);
        r
    }

    fn select_edges(&self, end: &NodeId, kind: EdgeKind, at_target: bool) -> (r: Vec<Edge>)
        requires
            self.wf(),
        ensures
            r@.map_values(|e: Edge| e@) == (if at_target {
                edges_to_spec(self@.edges, end@, kind)
            } else {
                edges_from_spec(self@.edges, end@, kind)
            }),
    {
        let all = self.edges();
        let ghost es = self@.edges;
        let ghost pred = if at_target { ends_at(end@, kind) } else { starts_at(end@, kind) };
        let mut r: Vec<Edge> = Vec::new();
        let mut i: usize = 0;
        while i < all.len()
            invariant
                all@.map_values(|e: Edge| e@) == es,
                i <= all@.len(),
                r@.map_values(|e: Edge| e@) == es.take(i as int).filter(pred),
                pred == (if at_target { ends_at(end@, kind) } else { starts_at(end@, kind) }),
            decreases all@.len() - i,
        {
            let e = &all[i];
            assert(e@ == es[i as int]);
            let m = if at_target {
                crate::json::text_eq(e.to.as_str(), end.as_str()) && e.kind == kind
            } else {
                crate::json::text_eq(e.from.as_str(), end.as_str()) && e.kind == kind
            };
            let ghost before = r@.map_values(|e: Edge| e@);
            if m {
                r.push(e.duplicate());
            }
            proof {
                assert(es.take(i + 1).drop_last() =~= es.take(i as int));
                reveal_with_fuel(Seq::filter, 1);
                assert(es.take(i + 1).last() == es[i as int]);
                if m {
                    assert(r@.map_values(|e: Edge| e@) =~= before.push(es[i as int]));
                } else {
                    assert(r@.map_values(|e: Edge| e@) =~= before);
                }
            }
            i = i + 1;
        }
        assert(es.take(all@.len() as int) =~= es);
        r
    }

    /// The edges of kind `kind` that end at `target`, in insertion order.
    pub fn edges_to(&self, target: &NodeId, kind: EdgeKind) -> (r: Vec<Edge>)
        requires
            self.wf(),
        ensures
            r@.map_values(|e: Edge| e@) == edges_to_spec(self@.edges, target@, kind),
    {
        self.select_edges(target, kind, true)
    }

    /// The edges of kind `kind` that start at `src`, in insertion order.
    pub fn edges_from(&self, src: &NodeId, kind: EdgeKind) -> (r: Vec<Edge>)
        requires
            self.wf(),
        ensures
            r@.map_values(|e: Edge| e@) == edges_from_spec(self@.edges, src@, kind),
    {
        self.select_edges(src, kind, false)
    }
}

impl Default for EvidenceGraph {
    /// An empty graph.
    fn default() -> (g: EvidenceGraph)
        ensures
            g.wf(),
            g@ == empty_graph(),
    {
        EvidenceGraph::new()
    }
}

/// What a lookup gives after a node was added: the node that was there
/// already under that id, if any; else the added node, for its own id;
/// else nothing.
pub proof fn lemma_get_after_add_node(g: GraphView, n: NodeView, k: Seq<char>)
    ensures
        lookup(add_node_spec(g, n).nodes, k) == (if lookup(g.nodes, k) is Some {
            lookup(g.nodes, k)
        } else if node_id(n) == k {
            Some(n)
        } else {
            None::<NodeView>
        }),
{
    if has_id(g.nodes, node_id(n)) {
        reveal(lookup);
    } else {
        lemma_lookup_push(g.nodes, n, k);
        reveal(lookup);
    }
}

/// Adding a node twice is adding it once: the second insertion finds its
/// id and leaves the graph as it is.
pub proof fn lemma_add_node_idempotent(g: GraphView, n: NodeView)
    ensures
        add_node_spec(add_node_spec(g, n), n) == add_node_spec(g, n),
{
    let h = add_node_spec(g, n);
    if !has_id(g.nodes, node_id(n)) {
        assert(h.nodes[g.nodes.len() as int] == n);
        assert(has_id(h.nodes, node_id(n)));
    }
}

/// Adding an edge twice is adding it once.
pub proof fn lemma_add_edge_idempotent(g: GraphView, e: EdgeView)
    ensures
        add_edge_spec(add_edge_spec(g, e), e) == add_edge_spec(g, e),
{
    let h = add_edge_spec(g, e);
    if !g.edges.contains(e) {
        assert(h.edges[g.edges.len() as int] == e);
        assert(h.edges.contains(e));
    }
}

/// Appending a node with a new id leaves every other lookup as it was and
/// makes its own id find it.
pub proof fn lemma_lookup_push(nodes: Seq<NodeView>, n: NodeView, k: Seq<char>)
    requires
        !has_id(nodes, node_id(n)),
    ensures
        lookup(nodes.push(n), k) == (if has_id(nodes, k) {
            lookup(nodes, k)
        } else if node_id(n) == k {
            Some(n)
        } else {
            None::<NodeView>
        }),
{
    reveal(lookup);
    let m = nodes.push(n);
    if has_id(nodes, k) {
        let w = choose|i: int| 0 <= i < nodes.len() && node_id(nodes[i]) == k;
        assert(m[w] == nodes[w]);
        assert(has_id(m, k));
        let a = choose|i: int| 0 <= i < m.len() && node_id(m[i]) == k && forall|j: int| 0 <= j < i ==> node_id(m[j]) != k;
        let b = choose|i: int| 0 <= i < nodes.len() && node_id(nodes[i]) == k && forall|j: int| 0 <= j < i ==> node_id(nodes[j]) != k;
        assert(0 <= a < m.len() && node_id(m[a]) == k && forall|j: int| 0 <= j < a ==> node_id(m[j]) != k) by {
            let f = first_id_at(m, k, w);
        }
        assert(0 <= b < nodes.len() && node_id(nodes[b]) == k && forall|j: int| 0 <= j < b ==> node_id(nodes[j]) != k) by {
            let f = first_id_at(nodes, k, w);
        }
        if a < b {
            assert(m[a] == nodes[a]);
        } else if b < a {
            assert(m[b] == nodes[b]);
        }
        assert(a == b);
        assert(m[a] == nodes[a]);
    } else if node_id(n) == k {
        assert(m[nodes.len() as int] == n);
        assert(has_id(m, k));
        let a = choose|i: int| 0 <= i < m.len() && node_id(m[i]) == k && forall|j: int| 0 <= j < i ==> node_id(m[j]) != k;
        assert(0 <= a < m.len() && node_id(m[a]) == k && forall|j: int| 0 <= j < a ==> node_id(m[j]) != k) by {
            let f = first_id_at(m, k, nodes.len() as int);
        }
        if a < nodes.len() {
            assert(m[a] == nodes[a]);
        }
    } else {
        assert forall|i: int| 0 <= i < m.len() implies node_id(m[i]) != k by {
            if i < nodes.len() {
                assert(m[i] == nodes[i]);
            }
        }
    }
}

proof fn first_key_at(e: Seq<(Seq<char>, Node)>, k: Seq<char>, w: int) -> (m: int)
    requires
        0 <= w < e.len(),
        e[w].0 == k,
    ensures
        0 <= m <= w,
        e[m].0 == k,
        forall|j: int| 0 <= j < m ==> e[j].0 != k,
    decreases w,
{
    if exists|j: int| 0 <= j < w && e[j].0 == k {
        let j = choose|j: int| 0 <= j < w && e[j].0 == k;
        first_key_at(e, k, j)
    } else {
        w
    }
}

proof fn first_id_at(n: Seq<NodeView>, k: Seq<char>, w: int) -> (m: int)
    requires
        0 <= w < n.len(),
        node_id(n[w]) == k,
    ensures
        0 <= m <= w,
        node_id(n[m]) == k,
        forall|j: int| 0 <= j < m ==> node_id(n[j]) != k,
    decreases w,
{
    if exists|j: int| 0 <= j < w && node_id(n[j]) == k {
        let j = choose|j: int| 0 <= j < w && node_id(n[j]) == k;
        first_id_at(n, k, j)
    } else {
        w
    }
}

// ---------------------------------------------------------------------------
// Building the graph from spans, logs and anomalies.
// ---------------------------------------------------------------------------

/// One detected anomaly as handed to the graph builder: service, metric,
/// window start, window end, severity, detector, baseline mean and observed
/// peak.
pub type AnomalyInput = (String, String, UnixNanos, UnixNanos, F64Bits, String, F64Bits, F64Bits);

/// The span node that a span becomes.
pub open spec fn span_node(sp: Span) -> NodeView {
    NodeView::Span {
        id: sp.span_id@,
        service: sp.service@,
        operation: sp.operation@,
        status: sp.status,
        start: sp.start,
        duration_ms: sp.duration_ms,
        parent: opt_view(sp.parent_id),
        status_message: opt_view(sp.status_message),
    }
}

/// What one span adds: its service, itself, the edge to its service, and
/// the edge from its parent span when it has one.
pub open spec fn span_step(g: GraphView, sp: Span) -> GraphView {
    let g1 = add_node_spec(g, NodeView::Service { name: sp.service@ });
    let g2 = add_node_spec(g1, span_node(sp));
    let g3 = add_edge_spec(
        g2,
        EdgeView { from: span_node_id(sp.span_id@), to: service_node_id(sp.service@), kind: EdgeKind::EmittedBy },
    );
    match sp.parent_id {
        Some(p) => add_edge_spec(
            g3,
            EdgeView { from: span_node_id(p@), to: span_node_id(sp.span_id@), kind: EdgeKind::ParentOf },
        ),
        None => g3,
    }
}

/// The spans, one after the other.
pub open spec fn span_phase(g: GraphView, spans: Seq<Span>) -> GraphView
    decreases spans.len(),
{
    if spans.len() == 0 {
        g
    } else {
        span_step(span_phase(g, spans.drop_last()), spans.last())
    }
}

/// A failing span with a parent blames its parent.
pub open spec fn blame_step(g: GraphView, sp: Span) -> GraphView {
    match sp.parent_id {
        Some(p) => if sp.status == SpanStatus::Error {
            add_edge_spec(
                g,
                EdgeView { from: span_node_id(sp.span_id@), to: span_node_id(p@), kind: EdgeKind::CausedBy },
            )
        } else {
            g
        },
        None => g,
    }
}

/// The blame edges of the spans, one after the other.
pub open spec fn blame_phase(g: GraphView, spans: Seq<Span>) -> GraphView
    decreases spans.len(),
{
    if spans.len() == 0 {
        g
    } else {
        blame_step(blame_phase(g, spans.drop_last()), spans.last())
    }
}

/// Whole seconds since the epoch (rounded down, as `timestamp()` gives).
pub open spec fn epoch_secs(ts: UnixNanos) -> int {
    (ts as int) / 1_000_000_000
}

/// Integer division rounding towards zero, as Rust's `/` does.
pub open spec fn trunc_div(a: int, b: int) -> int {
    let q = (if a < 0 { -a } else { a }) / (if b < 0 { -b } else { b });
    if (a < 0) != (b < 0) { -q } else { q }
}

/// The start, in seconds, of the log bucket an instant falls in.
pub open spec fn bucket_of(ts: UnixNanos, width: i64) -> int {
    trunc_div(epoch_secs(ts), width as int) * width
}

/// A group of log lines: the service, the level and the bucket start.
pub type GroupKey = (Seq<char>, Seq<char>, int);

/// The group a log line belongs to.
pub open spec fn log_key(l: LogRecord, width: i64) -> GroupKey {
    (l.service@, l.level@, bucket_of(l.ts, width))
}

/// The order of groups: by service, then level, then bucket.
pub open spec fn key_order(a: GroupKey, b: GroupKey) -> int {
    if text_order(a.0, b.0) != 0 {
        text_order(a.0, b.0)
    } else if text_order(a.1, b.1) != 0 {
        text_order(a.1, b.1)
    } else if a.2 < b.2 {
        -1
    } else if a.2 > b.2 {
        1
    } else {
        0
    }
}

/// Some line of `logs` belongs to group `k`.
pub open spec fn is_group_of(logs: Seq<LogRecord>, width: i64, k: GroupKey) -> bool {
    exists|j: int| 0 <= j < logs.len() && log_key(#[trigger] logs[j], width) == k
}

/// `keys` lists the groups of `logs` once each, in increasing order.
pub open spec fn is_group_order(keys: Seq<GroupKey>, logs: Seq<LogRecord>, width: i64) -> bool {
    &&& forall|i: int, j: int| 0 <= i < j < keys.len() ==> key_order(keys[i], keys[j]) == -1
    &&& forall|i: int| 0 <= i < keys.len() ==> is_group_of(logs, width, #[trigger] keys[i])
    &&& forall|j: int| 0 <= j < logs.len() ==> keys.contains(log_key(#[trigger] logs[j], width))
}

/// Whether a log line belongs to group `k`.
pub open spec fn in_group(k: GroupKey, width: i64) -> spec_fn(LogRecord) -> bool {
    |l: LogRecord| log_key(l, width) == k
}

/// The lines of group `k`, in input order.
pub open spec fn group_members(logs: Seq<LogRecord>, width: i64, k: GroupKey) -> Seq<LogRecord> {
    logs.filter(in_group(k, width))
}

/// The first three lines of a group (all of them when there are fewer).
pub open spec fn first_three(m: Seq<LogRecord>) -> Seq<LogRecord> {
    if m.len() <= 3 { m } else { m.take(3) }
}

/// The messages of some log lines.
pub open spec fn messages(m: Seq<LogRecord>) -> Seq<Seq<char>> {
    m.map_values(|l: LogRecord| l.message@)
}

/// The own id of the `c`-th log batch: `lb_` and the counter.
pub open spec fn batch_id(c: nat) -> Seq<char> {
    "lb_"@ + dec(c)
}

/// The own id of the `c`-th anomaly: `anom_` and the counter.
pub open spec fn anomaly_id(c: nat) -> Seq<char> {
    "anom_"@ + dec(c)
}

/// The node of the `c`-th group.
pub open spec fn batch_node(logs: Seq<LogRecord>, width: i64, k: GroupKey, c: nat) -> NodeView {
    NodeView::LogBatch {
        id: batch_id(c),
        service: k.0,
        level: k.1,
        bucket_start: k.2 as i64,
        count: group_members(logs, width, k).len() as usize,
        samples: messages(first_three(group_members(logs, width, k))),
    }
}

/// What the `c`-th group adds: its batch node, its service, and the edge
/// between them.
pub open spec fn batch_step(g: GraphView, logs: Seq<LogRecord>, width: i64, k: GroupKey, c: nat) -> GraphView {
    let g1 = add_node_spec(g, batch_node(logs, width, k, c));
    let g2 = add_node_spec(g1, NodeView::Service { name: k.0 });
    add_edge_spec(
        g2,
        EdgeView { from: "lb:"@ + batch_id(c), to: service_node_id(k.0), kind: EdgeKind::EmittedBy },
    )
}

/// The groups, in their order.
pub open spec fn batch_phase(g: GraphView, logs: Seq<LogRecord>, width: i64, keys: Seq<GroupKey>) -> GraphView
    decreases keys.len(),
{
    if keys.len() == 0 {
        g
    } else {
        batch_step(batch_phase(g, logs, width, keys.drop_last()), logs, width, keys.last(), (keys.len() - 1) as nat)
    }
}

/// The node of the `c`-th anomaly.
pub open spec fn anomaly_node(a: AnomalyInput, c: nat) -> NodeView {
    NodeView::MetricAnomaly {
        id: anomaly_id(c),
        service: a.0@,
        metric: a.1@,
        window_start: a.2,
        window_end: a.3,
        severity: a.4,
        detector: a.5@,
        baseline_mean: a.6,
        observed_peak: a.7,
    }
}

/// What the `c`-th anomaly adds: its node, its service, and the edge
/// between them.
pub open spec fn anomaly_step(g: GraphView, a: AnomalyInput, c: nat) -> GraphView {
    let g1 = add_node_spec(g, anomaly_node(a, c));
    let g2 = add_node_spec(g1, NodeView::Service { name: a.0@ });
    add_edge_spec(
        g2,
        EdgeView { from: "anom:"@ + anomaly_id(c), to: service_node_id(a.0@), kind: EdgeKind::EmittedBy },
    )
}

/// The anomalies, in their order.
pub open spec fn anomaly_phase(g: GraphView, anomalies: Seq<AnomalyInput>) -> GraphView
    decreases anomalies.len(),
{
    if anomalies.len() == 0 {
        g
    } else {
        anomaly_step(anomaly_phase(g, anomalies.drop_last()), anomalies.last(), (anomalies.len() - 1) as nat)
    }
}

/// The graph built from spans, log lines grouped in the order `keys`, and
/// anomalies.
pub open spec fn evidence_graph(
    spans: Seq<Span>,
    logs: Seq<LogRecord>,
    anomalies: Seq<AnomalyInput>,
    width: i64,
    keys: Seq<GroupKey>,
) -> GraphView {
    anomaly_phase(
        batch_phase(blame_phase(span_phase(empty_graph(), spans), spans), logs, width, keys),
        anomalies,
    )
}

/// Adding an edge keeps every edge and adds only that one.
proof fn lemma_add_edge_contains(g: GraphView, x: EdgeView)
    ensures
        forall|e: EdgeView| #[trigger] add_edge_spec(g, x).edges.contains(e) <==> (g.edges.contains(e) || e == x),
{
    if !g.edges.contains(x) {
        let h = g.edges.push(x);
        assert forall|e: EdgeView| #[trigger] h.contains(e) <==> (g.edges.contains(e) || e == x) by {
            if h.contains(e) {
                let k = choose|k: int| 0 <= k < h.len() && h[k] == e;
                if k < g.edges.len() {
                    assert(g.edges[k] == e);
                }
            }
            if g.edges.contains(e) {
                let k = choose|k: int| 0 <= k < g.edges.len() && g.edges[k] == e;
                assert(h[k] == e);
            }
            if e == x {
                assert(h[g.edges.len() as int] == e);
            }
        }
    }
}

/// Adding the nodes and edges of spans keeps every edge and adds no
/// `CausedBy` edge.
proof fn lemma_span_phase_edges(g: GraphView, spans: Seq<Span>)
    ensures
        forall|e: EdgeView| g.edges.contains(e) ==> #[trigger] span_phase(g, spans).edges.contains(e),
        forall|e: EdgeView| #[trigger] span_phase(g, spans).edges.contains(e) && e.kind == EdgeKind::CausedBy ==> g.edges.contains(e),
    decreases spans.len(),
{
    if spans.len() > 0 {
        let h = span_phase(g, spans.drop_last());
        lemma_span_phase_edges(g, spans.drop_last());
        let sp = spans.last();
        let g1 = add_node_spec(h, NodeView::Service { name: sp.service@ });
        let g2 = add_node_spec(g1, span_node(sp));
        let x = EdgeView { from: span_node_id(sp.span_id@), to: service_node_id(sp.service@), kind: EdgeKind::EmittedBy };
        let g3 = add_edge_spec(g2, x);
        lemma_add_edge_contains(g2, x);
        match sp.parent_id {
            Some(p) => {
                lemma_add_edge_contains(
                    g3,
                    EdgeView { from: span_node_id(p@), to: span_node_id(sp.span_id@), kind: EdgeKind::ParentOf },
                );
            },
            None => {},
        }
    }
}

/// Adding log batches keeps every edge and adds no `CausedBy` edge.
proof fn lemma_batch_phase_edges(g: GraphView, logs: Seq<LogRecord>, width: i64, keys: Seq<GroupKey>)
    ensures
        forall|e: EdgeView| g.edges.contains(e) ==> #[trigger] batch_phase(g, logs, width, keys).edges.contains(e),
        forall|e: EdgeView| #[trigger] batch_phase(g, logs, width, keys).edges.contains(e) && e.kind == EdgeKind::CausedBy
            ==> g.edges.contains(e),
    decreases keys.len(),
{
    if keys.len() > 0 {
        let h = batch_phase(g, logs, width, keys.drop_last());
        lemma_batch_phase_edges(g, logs, width, keys.drop_last());
        let k = keys.last();
        let c = (keys.len() - 1) as nat;
        let g1 = add_node_spec(h, batch_node(logs, width, k, c));
        let g2 = add_node_spec(g1, NodeView::Service { name: k.0 });
        lemma_add_edge_contains(
            g2,
            EdgeView { from: "lb:"@ + batch_id(c), to: service_node_id(k.0), kind: EdgeKind::EmittedBy },
        );
    }
}

/// Adding anomalies keeps every edge and adds no `CausedBy` edge.
proof fn lemma_anomaly_phase_edges(g: GraphView, anomalies: Seq<AnomalyInput>)
    ensures
        forall|e: EdgeView| g.edges.contains(e) ==> #[trigger] anomaly_phase(g, anomalies).edges.contains(e),
        forall|e: EdgeView| #[trigger] anomaly_phase(g, anomalies).edges.contains(e) && e.kind == EdgeKind::CausedBy
            ==> g.edges.contains(e),
    decreases anomalies.len(),
{
    if anomalies.len() > 0 {
        let h = anomaly_phase(g, anomalies.drop_last());
        lemma_anomaly_phase_edges(g, anomalies.drop_last());
        let a = anomalies.last();
        let c = (anomalies.len() - 1) as nat;
        let g1 = add_node_spec(h, anomaly_node(a, c));
        let g2 = add_node_spec(g1, NodeView::Service { name: a.0@ });
        lemma_add_edge_contains(
            g2,
            EdgeView { from: "anom:"@ + anomaly_id(c), to: service_node_id(a.0@), kind: EdgeKind::EmittedBy },
        );
    }
}

/// The edge by which a failing span with a parent blames that parent.
pub open spec fn blame_edge_of(sp: Span) -> EdgeView {
    EdgeView { from: span_node_id(sp.span_id@), to: span_node_id(sp.parent_id.unwrap()@), kind: EdgeKind::CausedBy }
}

/// The blame edges of spans keep every edge; each `CausedBy` edge they add
/// is that of a failing span with a parent, and each such span's is there.
proof fn lemma_blame_phase_edges(g: GraphView, spans: Seq<Span>)
    ensures
        forall|e: EdgeView| g.edges.contains(e) ==> #[trigger] blame_phase(g, spans).edges.contains(e),
        forall|e: EdgeView| #[trigger] blame_phase(g, spans).edges.contains(e) && e.kind == EdgeKind::CausedBy ==> g.edges.contains(e)
            || exists|i: int| 0 <= i < spans.len() && (#[trigger] spans[i]).status == SpanStatus::Error
                && spans[i].parent_id is Some && e == blame_edge_of(spans[i]),
        forall|i: int| 0 <= i < spans.len() && (#[trigger] spans[i]).status == SpanStatus::Error && spans[i].parent_id is Some
            ==> blame_phase(g, spans).edges.contains(blame_edge_of(spans[i])),
    decreases spans.len(),
{
    if spans.len() > 0 {
        let rest = spans.drop_last();
        let h = blame_phase(g, rest);
        lemma_blame_phase_edges(g, rest);
        let sp = spans.last();
        let r = blame_phase(g, spans);
        if sp.status == SpanStatus::Error && sp.parent_id is Some {
            lemma_add_edge_contains(h, blame_edge_of(sp));
            assert(r == add_edge_spec(h, blame_edge_of(sp)));
        } else {
            assert(r == h);
        }
        assert forall|e: EdgeView| #[trigger] r.edges.contains(e) && e.kind == EdgeKind::CausedBy implies g.edges.contains(e)
            || exists|i: int| 0 <= i < spans.len() && (#[trigger] spans[i]).status == SpanStatus::Error
                && spans[i].parent_id is Some && e == blame_edge_of(spans[i]) by {
            if h.edges.contains(e) {
                if !g.edges.contains(e) {
                    let i = choose|i: int| 0 <= i < rest.len() && (#[trigger] rest[i]).status == SpanStatus::Error
                        && rest[i].parent_id is Some && e == blame_edge_of(rest[i]);
                    assert(spans[i] == rest[i]);
                }
            } else {
                assert(spans[spans.len() - 1] == sp);
            }
        }
        assert forall|i: int| 0 <= i < spans.len() && (#[trigger] spans[i]).status == SpanStatus::Error
            && spans[i].parent_id is Some implies r.edges.contains(blame_edge_of(spans[i])) by {
            if i < rest.len() {
                assert(rest[i] == spans[i]);
            }
        }
    }
}

/// Only a failing span blames, and every failing span with a parent blames
/// that parent: the `CausedBy` edges of a built graph are exactly the edges
/// from `span:<id>` of an input span whose status is `Error` to
/// `span:<its parent's id>`.
pub proof fn lemma_blame_edges_are_failing_spans(
    spans: Seq<Span>,
    logs: Seq<LogRecord>,
    anomalies: Seq<AnomalyInput>,
    width: i64,
    keys: Seq<GroupKey>,
)
    ensures
        forall|e: EdgeView| #[trigger] evidence_graph(spans, logs, anomalies, width, keys).edges.contains(e) && e.kind
            == EdgeKind::CausedBy ==> exists|i: int| 0 <= i < spans.len() && (#[trigger] spans[i]).status == SpanStatus::Error
                && (spans[i].parent_id matches Some(p) && e.from == span_node_id(spans[i].span_id@) && e.to
                == span_node_id(p@)),
        forall|i: int| 0 <= i < spans.len() && (#[trigger] spans[i]).status == SpanStatus::Error ==> (
            spans[i].parent_id matches Some(p) ==> evidence_graph(spans, logs, anomalies, width, keys).edges.contains(
                EdgeView { from: span_node_id(spans[i].span_id@), to: span_node_id(p@), kind: EdgeKind::CausedBy },
            )),
{
    let g0 = span_phase(empty_graph(), spans);
    let g1 = blame_phase(g0, spans);
    let g2 = batch_phase(g1, logs, width, keys);
    let g3 = anomaly_phase(g2, anomalies);
    lemma_span_phase_edges(empty_graph(), spans);
    lemma_blame_phase_edges(g0, spans);
    lemma_batch_phase_edges(g1, logs, width, keys);
    lemma_anomaly_phase_edges(g2, anomalies);
    assert(g3 == evidence_graph(spans, logs, anomalies, width, keys));
    assert forall|e: EdgeView| #[trigger] g3.edges.contains(e) && e.kind == EdgeKind::CausedBy implies exists|i: int|
        0 <= i < spans.len() && (#[trigger] spans[i]).status == SpanStatus::Error && (spans[i].parent_id matches Some(p)
            && e.from == span_node_id(spans[i].span_id@) && e.to == span_node_id(p@)) by {
        assert(g2.edges.contains(e));
        assert(g1.edges.contains(e));
        if g0.edges.contains(e) {
            assert(empty_graph().edges.contains(e));
            assert(false);
        }
    }
}

/// Whole seconds since the epoch, rounded down.
pub fn epoch_seconds(ts: UnixNanos) -> (r: i64)
    ensures
        r as int == epoch_secs(ts),
{
    let t: i128 = ts as i128;
    let secs: i128 = if t >= 0 {
        t / 1_000_000_000
    } else {
        -((-t + 999_999_999) / 1_000_000_000)
    };
    proof {
        let ti = ts as int;
        if ti < 0 {
            let q = (-ti + 999_999_999) / 1_000_000_000;
            assert(q * 1_000_000_000 <= -ti + 999_999_999 < (q + 1) * 1_000_000_000);
            assert(ti / 1_000_000_000 == -q) by (nonlinear_arith)
                requires
                    q * 1_000_000_000 <= -ti + 999_999_999,
                    -ti + 999_999_999 < (q + 1) * 1_000_000_000,
            ;
        }
        assert(secs as int == epoch_secs(ts));
        assert(-9_223_372_037 <= secs <= 9_223_372_037);
    }
    secs as i64
}

/// The start, in seconds, of the bucket of width `width` seconds that the
/// instant `ts` falls in.
fn log_bucket(ts: UnixNanos, width: i64) -> (r: i64)
    requires
        width != 0,
    ensures
        r as int == bucket_of(ts, width),
{
    let secs: i128 = epoch_seconds(ts) as i128;
    proof {
        assert(-9_223_372_037 <= secs <= 9_223_372_037) by {
            assert(epoch_secs(ts) == (ts as int) / 1_000_000_000);
        }
    }
    let aa: i128 = if secs < 0 { -secs } else { secs };
    let bb: i128 = if width < 0 { -(width as i128) } else { width as i128 };
    let q: i128 = aa / bb;
    proof {
        assert(q * bb <= aa) by (nonlinear_arith)
            requires
                q == aa / bb,
                bb > 0,
                aa >= 0,
        ;
        assert(q >= 0) by (nonlinear_arith)
            requires
                q == aa / bb,
                bb > 0,
                aa >= 0,
        ;
    }
    let sq: i128 = if (secs < 0) != (width < 0) { -q } else { q };
    proof {
        assert(sq * (width as i128) == q * bb || sq * (width as i128) == -(q * bb)) by (nonlinear_arith)
            requires
                sq == q || sq == -q,
                bb == width || bb == -width,
        ;
        assert(q * bb >= 0) by (nonlinear_arith)
            requires
                q >= 0,
                bb > 0,
        ;
    }
    let r: i128 = sq * (width as i128);
    r as i64
}

proof fn lemma_group_orders_agree_upto(logs: Seq<LogRecord>, width: i64, a: Seq<GroupKey>, b: Seq<GroupKey>, k: int)
    requires
        is_group_order(a, logs, width),
        is_group_order(b, logs, width),
        0 <= k <= a.len(),
        k <= b.len(),
    ensures
        forall|j: int| 0 <= j < k ==> a[j] == b[j],
    decreases k,
{
    if k > 0 {
        lemma_group_orders_agree_upto(logs, width, a, b, k - 1);
        let i = k - 1;
        let x = a[i];
        let y = b[i];
        if x != y {
            // y is a group, so it is in `a`; x likewise in `b`.
            assert(is_group_of(logs, width, b[i]));
            let jy = choose|j: int| 0 <= j < logs.len() && log_key(#[trigger] logs[j], width) == y;
            assert(a.contains(log_key(logs[jy], width)));
            let p = choose|p: int| 0 <= p < a.len() && a[p] == y;
            assert(is_group_of(logs, width, a[i]));
            let jx = choose|j: int| 0 <= j < logs.len() && log_key(#[trigger] logs[j], width) == x;
            assert(b.contains(log_key(logs[jx], width)));
            let q = choose|q: int| 0 <= q < b.len() && b[q] == x;
            lemma_key_order_props(x, x);
            lemma_key_order_props(y, y);
            lemma_key_order_props(x, y);
            if p < i {
                assert(b[p] == y);
                assert(key_order(b[p], b[i]) == -1);
            }
            if q < i {
                assert(a[q] == x);
                assert(key_order(a[q], a[i]) == -1);
            }
            assert(key_order(a[i], a[p]) == -1);
            assert(key_order(b[i], b[q]) == -1);
        }
    }
}

/// There is only one order of the log groups: any two sequences that list
/// each group of the lines once, in increasing key order, are the same. So
/// the graph `build_from` describes is determined by its inputs.
pub proof fn lemma_group_order_unique(logs: Seq<LogRecord>, width: i64, a: Seq<GroupKey>, b: Seq<GroupKey>)
    requires
        is_group_order(a, logs, width),
        is_group_order(b, logs, width),
    ensures
        a == b,
{
    if a.len() <= b.len() {
        lemma_group_orders_agree_upto(logs, width, a, b, a.len() as int);
        if a.len() < b.len() {
            let x = b[a.len() as int];
            assert(is_group_of(logs, width, b[a.len() as int]));
            let jx = choose|j: int| 0 <= j < logs.len() && log_key(#[trigger] logs[j], width) == x;
            assert(a.contains(log_key(logs[jx], width)));
            let q = choose|q: int| 0 <= q < a.len() && a[q] == x;
            assert(b[q] == x);
            lemma_key_order_props(x, x);
            assert(key_order(b[q], b[a.len() as int]) == -1);
        }
    } else {
        lemma_group_orders_agree_upto(logs, width, a, b, b.len() as int);
        let x = a[b.len() as int];
        assert(is_group_of(logs, width, a[b.len() as int]));
        let jx = choose|j: int| 0 <= j < logs.len() && log_key(#[trigger] logs[j], width) == x;
        assert(b.contains(log_key(logs[jx], width)));
        let q = choose|q: int| 0 <= q < b.len() && b[q] == x;
        assert(a[q] == x);
        lemma_key_order_props(x, x);
        assert(key_order(a[q], a[b.len() as int]) == -1);
    }
    assert(a =~= b);
}

/// The group of a key, as the specifications see it.
pub open spec fn key_view(k: (String, String, i64)) -> GroupKey {
    (k.0@, k.1@, k.2 as int)
}

/// The groups of a list of keys.
pub open spec fn keys_view(ks: Seq<(String, String, i64)>) -> Seq<GroupKey> {
    ks.map_values(|k: (String, String, i64)| key_view(k))
}

proof fn lemma_key_order_props(a: GroupKey, b: GroupKey)
    ensures
        key_order(a, b) == -key_order(b, a),
        -1 <= key_order(a, b) <= 1,
        key_order(a, b) == 0 <==> a == b,
{
    lemma_text_order_antisym(a.0, b.0);
    lemma_text_order_antisym(a.1, b.1);
}

proof fn lemma_key_order_trans(a: GroupKey, b: GroupKey, c: GroupKey)
    requires
        key_order(a, b) == -1,
        key_order(b, c) == -1,
    ensures
        key_order(a, c) == -1,
{
    lemma_text_order_antisym(a.0, b.0);
    lemma_text_order_antisym(b.0, c.0);
    lemma_text_order_antisym(a.0, c.0);
    lemma_text_order_antisym(a.1, b.1);
    lemma_text_order_antisym(b.1, c.1);
    lemma_text_order_antisym(a.1, c.1);
    if text_order(a.0, b.0) == -1 && text_order(b.0, c.0) == -1 {
        lemma_text_order_trans(a.0, b.0, c.0);
    }
    if text_order(a.1, b.1) == -1 && text_order(b.1, c.1) == -1 {
        lemma_text_order_trans(a.1, b.1, c.1);
    }
}

fn order_keys(a: &(String, String, i64), b: &(String, String, i64)) -> (r: i8)
    ensures
        r as int == key_order(key_view(*a), key_view(*b)),
{
    let c = compare_text(a.0.as_str(), b.0.as_str());
    if c != 0 {
        return c;
    }
    let d = compare_text(a.1.as_str(), b.1.as_str());
    if d != 0 {
        return d;
    }
    if a.2 < b.2 {
        -1
    } else if a.2 > b.2 {
        1
    } else {
        0
    }
}

/// The groups of `logs`, each once, in increasing order.
fn group_keys(logs: &[LogRecord], width: i64) -> (keys: Vec<(String, String, i64)>)
    requires
        logs@.len() > 0 ==> width != 0,
    ensures
        is_group_order(keys_view(keys@), logs@, width),
{
    let mut keys: Vec<(String, String, i64)> = Vec::new();
    let mut j: usize = 0;
    while j < logs.len()
        invariant
            logs@.len() > 0 ==> width != 0,
            j <= logs@.len(),
            forall|a: int, b: int| 0 <= a < b < keys@.len() ==> key_order(
                #[trigger] key_view(keys@[a]),
                #[trigger] key_view(keys@[b]),
            ) == -1,
            forall|a: int| 0 <= a < keys@.len() ==> exists|q: int| 0 <= q < j && log_key(#[trigger] logs@[q], width) == #[trigger] key_view(keys@[a]),
            forall|q: int| 0 <= q < j ==> keys_view(keys@).contains(log_key(#[trigger] logs@[q], width)),
        decreases logs@.len() - j,
    {
        let l = &logs[j];
        let k = (l.service.clone(), l.level.clone(), log_bucket(l.ts, width));
        assert(key_view(k) == log_key(logs@[j as int], width));
        let mut p: usize = 0;
        while p < keys.len() && order_keys(&keys[p], &k) == -1
            invariant
                p <= keys@.len(),
                forall|a: int| 0 <= a < p ==> key_order(#[trigger] key_view(keys@[a]), key_view(k)) == -1,
            decreases keys@.len() - p,
        {
            p = p + 1;
        }
        let ghost old_keys = keys@;
        let present = p < keys.len() && order_keys(&keys[p], &k) == 0;
        if present {
            proof {
                lemma_key_order_props(key_view(keys@[p as int]), key_view(k));
                assert(keys_view(keys@)[p as int] == key_view(k));
            }
        } else {
            keys.insert(p, k);
            proof {
                let kv = key_view(k);
                if p < old_keys.len() {
                    lemma_key_order_props(key_view(old_keys[p as int]), kv);
                }
                assert forall|a: int, b: int| 0 <= a < b < keys@.len() implies key_order(
                    #[trigger] key_view(keys@[a]),
                    #[trigger] key_view(keys@[b]),
                ) == -1 by {
                    if b < p {
                        assert(keys@[a] == old_keys[a] && keys@[b] == old_keys[b]);
                    } else if b == p {
                        assert(keys@[a] == old_keys[a]);
                    } else if a == p {
                        assert(keys@[b] == old_keys[b - 1]);
                        if b - 1 > p {
                            assert(key_order(key_view(old_keys[p as int]), key_view(old_keys[b - 1])) == -1);
                            lemma_key_order_trans(kv, key_view(old_keys[p as int]), key_view(old_keys[b - 1]));
                        }
                    } else if a < p {
                        assert(keys@[a] == old_keys[a] && keys@[b] == old_keys[b - 1]);
                    } else {
                        assert(keys@[a] == old_keys[a - 1] && keys@[b] == old_keys[b - 1]);
                    }
                }
                assert(keys_view(keys@)[p as int] == kv);
                assert forall|q: int| 0 <= q < j implies keys_view(keys@).contains(log_key(#[trigger] logs@[q], width)) by {
                    let x = log_key(logs@[q], width);
                    assert(keys_view(old_keys).contains(x));
                    let a = choose|a: int| 0 <= a < old_keys.len() && keys_view(old_keys)[a] == x;
                    if a < p {
                        assert(keys_view(keys@)[a] == x);
                    } else {
                        assert(keys_view(keys@)[a + 1] == x);
                    }
                }
                assert forall|a: int| 0 <= a < keys@.len() implies exists|q: int| 0 <= q < j + 1 && log_key(#[trigger] logs@[q], width) == #[trigger] key_view(keys@[a]) by {
                    if a < p {
                        assert(keys@[a] == old_keys[a]);
                        assert(key_view(old_keys[a]) == key_view(keys@[a]));
                    } else if a == p {
                        assert(log_key(logs@[j as int], width) == key_view(keys@[a]));
                    } else {
                        assert(keys@[a] == old_keys[a - 1]);
                        assert(key_view(old_keys[a - 1]) == key_view(keys@[a]));
                    }
                }
            }
        }
        j = j + 1;
    }
    proof {
        assert forall|i: int, b: int| 0 <= i < b < keys_view(keys@).len() implies key_order(keys_view(keys@)[i], keys_view(keys@)[b]) == -1 by {
            assert(key_order(key_view(keys@[i]), key_view(keys@[b])) == -1);
        }
        assert forall|i: int| 0 <= i < keys_view(keys@).len() implies is_group_of(logs@, width, #[trigger] keys_view(keys@)[i]) by {
            assert(keys_view(keys@)[i] == key_view(keys@[i]));
        }
    }
    keys
}

fn key_matches(l: &LogRecord, width: i64, key: &(String, String, i64)) -> (r: bool)
    requires
        width != 0,
    ensures
        r == (log_key(*l, width) == key_view(*key)),
{
    text_eq(l.service.as_str(), key.0.as_str()) && text_eq(l.level.as_str(), key.1.as_str())
        && log_bucket(l.ts, width) == key.2
}

/// How many lines group `key` has, and the messages of its first three.
fn group_summary(logs: &[LogRecord], width: i64, key: &(String, String, i64)) -> (r: (usize, Vec<String>))
    requires
        width != 0,
    ensures
        r.0 as int == group_members(logs@, width, key_view(*key)).len(),
        strings_view(r.1@) == messages(first_three(group_members(logs@, width, key_view(*key)))),
{
    let ghost kv = key_view(*key);
    let mut count: usize = 0;
    let mut samples: Vec<String> = Vec::new();
    let mut j: usize = 0;
    proof {
        assert(logs@.take(0) =~= Seq::<LogRecord>::empty());
        reveal_with_fuel(Seq::filter, 1);
        assert(group_members(logs@.take(0), width, kv) =~= Seq::<LogRecord>::empty());
        assert(strings_view(samples@) =~= messages(first_three(Seq::<LogRecord>::empty())));
    }
    while j < logs.len()
        invariant
            width != 0,
            kv == key_view(*key),
            j <= logs@.len(),
            count as int == group_members(logs@.take(j as int), width, kv).len(),
            count <= j,
            strings_view(samples@) == messages(first_three(group_members(logs@.take(j as int), width, kv))),
        decreases logs@.len() - j,
    {
        let l = &logs[j];
        let m = key_matches(l, width, key);
        let ghost before = group_members(logs@.take(j as int), width, kv);
        let ghost sv = samples@;
        if m {
            count = count + 1;
            if samples.len() < 3 {
                samples.push(l.message.clone());
            }
        }
        proof {
            assert(logs@.take(j + 1).drop_last() =~= logs@.take(j as int));
            assert(logs@.take(j + 1).last() == logs@[j as int]);
            reveal_with_fuel(Seq::filter, 1);
            let after = group_members(logs@.take(j + 1), width, kv);
            if m {
                assert(after == before.push(logs@[j as int]));
                if before.len() < 3 {
                    assert(first_three(after) == after);
                    assert(first_three(before) == before);
                    assert(strings_view(sv).len() == sv.len());
                    assert(messages(before).len() == before.len());
                    assert(sv.len() < 3);
                    assert(samples@.len() == sv.len() + 1);
                    assert(samples@.last()@ == logs@[j as int].message@);
                    assert(messages(after) =~= messages(before).push(logs@[j as int].message@));
                    assert forall|x: int| 0 <= x < sv.len() implies #[trigger] samples@[x] == sv[x] by {}
                    assert(strings_view(samples@) =~= messages(first_three(after)));
                } else {
                    assert(first_three(after) =~= first_three(before));
                    assert(strings_view(samples@) =~= messages(first_three(after)));
                }
            } else {
                assert(after == before);
            }
        }
        j = j + 1;
    }
    assert(logs@.take(logs@.len() as int) =~= logs@);
    (count, samples)
}

/// The counter text that ids are numbered with.
fn counter_text(c: usize) -> (r: String)
    ensures
        r@ == dec(c as nat),
{
    u64_text(c as u64)
}

/// Builds the evidence graph: for each span its service node, its span
/// node, the edge to the service and the edge from its parent span; then,
/// for each failing span with a parent, a `CausedBy` edge to the parent;
/// then one log-batch node per group of log lines (same service, level and
/// time bucket, groups in increasing order) with its service and the edge
/// to it; then each anomaly with its service and the edge to it.
pub fn build_from(
    spans: &[Span],
    logs: &[LogRecord],
    anomalies: &[AnomalyInput],
    cfg: &CorrelationConfig,
) -> (g: EvidenceGraph)
    requires
        logs@.len() > 0 ==> cfg.log_bucket_sec != 0,
    ensures
        g.wf(),
        exists|keys: Seq<GroupKey>|
            is_group_order(keys, logs@, cfg.log_bucket_sec)
            && g@ == evidence_graph(spans@, logs@, anomalies@, cfg.log_bucket_sec, keys),
{
    let mut g = EvidenceGraph::new();
    let mut i: usize = 0;
    proof {
        assert(spans@.take(0) =~= Seq::<Span>::empty());
    }
    while i < spans.len()
        invariant
            g.wf(),
            i <= spans@.len(),
            g@ == span_phase(empty_graph(), spans@.take(i as int)),
        decreases spans@.len() - i,
    {
        let sp = &spans[i];
        let svc_id = g.add_node(Node::service(sp.service.clone()));
        let span_id = g.add_node(
            Node::Span {
                id: sp.span_id.clone(),
                service: sp.service.clone(),
                operation: sp.operation.clone(),
                status: sp.status,
                start: sp.start,
                duration_ms: sp.duration_ms,
                parent: crate::graph::nodes::copy_opt(&sp.parent_id),
                status_message: crate::graph::nodes::copy_opt(&sp.status_message),
            },
        );
        g.add_edge(Edge { from: span_id.clone(), to: svc_id, kind: EdgeKind::EmittedBy });
        match &sp.parent_id {
            Some(p) => {
                g.add_edge(Edge { from: span_node_id_of(p.as_str()), to: span_id, kind: EdgeKind::ParentOf });
            },
            None => {},
        }
        proof {
            assert(spans@.take(i + 1).drop_last() =~= spans@.take(i as int));
            assert(spans@.take(i + 1).last() == spans@[i as int]);
        }
        i = i + 1;
    }
    assert(spans@.take(spans@.len() as int) =~= spans@);
    let ghost g_spans = g@;
    i = 0;
    while i < spans.len()
        invariant
            g.wf(),
            i <= spans@.len(),
            g@ == blame_phase(g_spans, spans@.take(i as int)),
        decreases spans@.len() - i,
    {
        let sp = &spans[i];
        match &sp.parent_id {
            Some(p) => {
                if sp.status == SpanStatus::Error {
                    g.add_edge(
                        Edge {
                            from: span_node_id_of(sp.span_id.as_str()),
                            to: span_node_id_of(p.as_str()),
                            kind: EdgeKind::CausedBy,
                        },
                    );
                }
            },
            None => {},
        }
        proof {
            assert(spans@.take(i + 1).drop_last() =~= spans@.take(i as int));
            assert(spans@.take(i + 1).last() == spans@[i as int]);
        }
        i = i + 1;
    }
    let width = cfg.log_bucket_sec;
    let keys = group_keys(logs, width);
    let ghost kv = keys_view(keys@);
    let ghost g_blame = g@;
    let mut c: usize = 0;
    proof {
        assert(kv.take(0) =~= Seq::<GroupKey>::empty());
        if keys@.len() > 0 {
            // A group is formed from a line, so there are lines.
            assert(is_group_of(logs@, width, kv[0]));
        }
    }
    while c < keys.len()
        invariant
            g.wf(),
            keys@.len() > 0 ==> width != 0,
            kv == keys_view(keys@),
            c <= keys@.len(),
            g@ == batch_phase(g_blame, logs@, width, kv.take(c as int)),
        decreases keys@.len() - c,
    {
        let key = &keys[c];
        let (count, samples) = group_summary(logs, width, key);
        let id = concat("lb_", counter_text(c).as_str());
        let lb = g.add_node(
            Node::LogBatch {
                id,
                service: key.0.clone(),
                level: key.1.clone(),
                bucket_start: key.2,
                count,
                samples,
            },
        );
        let svc = g.add_node(Node::service(key.0.clone()));
        g.add_edge(Edge { from: lb, to: svc, kind: EdgeKind::EmittedBy });
        proof {
            assert(kv.take(c + 1).drop_last() =~= kv.take(c as int));
            assert(kv.take(c + 1).last() == kv[c as int]);
            assert(kv[c as int] == key_view(*key));
        }
        c = c + 1;
    }
    assert(kv.take(kv.len() as int) =~= kv);
    let ghost g_batches = g@;
    let mut a: usize = 0;
    proof {
        assert(anomalies@.take(0) =~= Seq::<AnomalyInput>::empty());
    }
    while a < anomalies.len()
        invariant
            g.wf(),
            a <= anomalies@.len(),
            g@ == anomaly_phase(g_batches, anomalies@.take(a as int)),
        decreases anomalies@.len() - a,
    {
        let an = &anomalies[a];
        let id = concat("anom_", counter_text(a).as_str());
        let n = g.add_node(
            Node::MetricAnomaly {
                id,
                service: an.0.clone(),
                metric: an.1.clone(),
                window_start: an.2,
                window_end: an.3,
                severity: an.4,
                detector: an.5.clone(),
                baseline_mean: an.6,
                observed_peak: an.7,
            },
        );
        let svc = g.add_node(Node::service(an.0.clone()));
        g.add_edge(Edge { from: n, to: svc, kind: EdgeKind::EmittedBy });
        proof {
            assert(anomalies@.take(a + 1).drop_last() =~= anomalies@.take(a as int));
            assert(anomalies@.take(a + 1).last() == anomalies@[a as int]);
        }
        a = a + 1;
    }
    assert(anomalies@.take(anomalies@.len() as int) =~= anomalies@);
    assert(is_group_order(kv, logs@, width));
    g
}

} // verus!
