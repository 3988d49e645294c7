//! Structural checks on an evidence graph.
use vstd::prelude::*;
use crate::graph::builder::{
    EvidenceGraph, GraphView, add_edge_spec, add_node_spec, edges_from_spec, empty_graph, has_id, starts_at,
};
use crate::graph::edges::{Edge, EdgeKind, EdgeView};
use crate::graph::nodes::{NodeId, NodeView, node_id};
use crate::json::text_eq;
use crate::text::concat;

verus! {

/// An edge whose ends are not both nodes of the graph.
pub open spec fn dangling(g: GraphView, e: EdgeView) -> bool {
    !has_id(g.nodes, e.from) || !has_id(g.nodes, e.to)
}

/// Every edge joins two nodes of the graph.
pub open spec fn no_dangling(g: GraphView) -> bool {
    forall|i: int| 0 <= i < g.edges.len() ==> !dangling(g, #[trigger] g.edges[i])
}

/// The message that reports the dangling edge `e`.
pub open spec fn dangling_message(g: GraphView, e: EdgeView) -> Seq<char> {
    if !has_id(g.nodes, e.from) {
        "dangling from "@ + e.from
    } else {
        "dangling to "@ + e.to
    }
}

/// `Ok` when no edge dangles; otherwise the message names the missing end of
/// the first edge (in insertion order) that dangles.
pub fn check_no_dangling(g: &EvidenceGraph) -> (r: Result<(), String>)
    requires
        g.wf(),
    ensures
        r is Ok <==> no_dangling(g@),
        r matches Err(msg) ==> exists|i: int|
            0 <= i < g@.edges.len() && dangling(g@, #[trigger] g@.edges[i])
            && (forall|j: int| 0 <= j < i ==> !dangling(g@, #[trigger] g@.edges[j]))
            && msg@ == dangling_message(g@, g@.edges[i]),
{
    let es = g.edges();
    let ghost ev = g@.edges;
    assert(forall|j: int| 0 <= j < es@.len() ==> (#[trigger] es@[j])@ == ev[j]) by {
        assert forall|j: int| 0 <= j < es@.len() implies (#[trigger] es@[j])@ == ev[j] by {
            assert(es@.map_values(|e: Edge| e@)[j] == es@[j]@);
        }
    }
    let mut i: usize = 0;
    while i < es.len()
        invariant
            g.wf(),
            es@.len() == ev.len(),
            ev == g@.edges,
            forall|j: int| 0 <= j < es@.len() ==> (#[trigger] es@[j])@ == ev[j],
            i <= es@.len(),
            forall|j: int| 0 <= j < i ==> !dangling(g@, #[trigger] ev[j]),
        decreases es@.len() - i,
    {
        let e = &es[i];
        if !g.contains_node(&e.from) {
            assert(dangling(g@, ev[i as int]));
            return Err(concat("dangling from ", e.from.as_str()));
        }
        if !g.contains_node(&e.to) {
            assert(dangling(g@, ev[i as int]));
            return Err(concat("dangling to ", e.to.as_str()));
        }
        i = i + 1;
    }
    Ok(())
}

/// `a` has a `CausedBy` edge to `b`.
pub open spec fn caused_by(g: GraphView, a: Seq<char>, b: Seq<char>) -> bool {
    g.edges.contains(EdgeView { from: a, to: b, kind: EdgeKind::CausedBy })
}

/// Consecutive ids of `p` are joined by `CausedBy` edges.
pub open spec fn is_path(g: GraphView, p: Seq<Seq<char>>) -> bool {
    forall|i: int| 0 <= i < p.len() - 1 ==> caused_by(g, #[trigger] p[i], p[i + 1])
}

/// A cycle of `CausedBy` edges can be reached from `x`: some path from `x`
/// returns to an id it has already passed.
#[verifier::opaque]
pub open spec fn reaches_cycle(g: GraphView, x: Seq<char>) -> bool {
    exists|p: Seq<Seq<char>>, k: int|
        #![trigger is_path(g, p), p[k]]
        is_path(g, p) && p.len() >= 2 && p[0] == x && 0 <= k < p.len() - 1 && p[k] == p[p.len() - 1]
}

/// Every id that occurs in the graph, as a node or as an end of an edge.
pub open spec fn universe(g: GraphView) -> Set<Seq<char>> {
    g.nodes.map_values(|n| node_id(n)).to_set()
        + g.edges.map_values(|e: EdgeView| e.from).to_set()
        + g.edges.map_values(|e: EdgeView| e.to).to_set()
}

/// No node can reach a cycle of `CausedBy` edges.
pub open spec fn caused_by_acyclic(g: GraphView) -> bool {
    forall|i: int| 0 <= i < g.nodes.len() ==> !reaches_cycle(g, node_id(#[trigger] g.nodes[i]))
}

proof fn lemma_succ_free_implies_free(g: GraphView, x: Seq<char>)
    requires
        forall|s: Seq<char>| caused_by(g, x, s) ==> !reaches_cycle(g, s),
    ensures
        !reaches_cycle(g, x),
{
    reveal(reaches_cycle);
    if reaches_cycle(g, x) {
        let (p, k) = choose|p: Seq<Seq<char>>, k: int|
            #![trigger is_path(g, p), p[k]]
            is_path(g, p) && p.len() >= 2 && p[0] == x && 0 <= k < p.len() - 1 && p[k] == p[p.len() - 1];
        assert(caused_by(g, p[0], p[1]));
        let s = p[1];
        if k >= 1 {
            let q = p.drop_first();
            assert forall|i: int| 0 <= i < q.len() - 1 implies caused_by(g, #[trigger] q[i], q[i + 1]) by {
                assert(q[i] == p[i + 1]);
                assert(q[i + 1] == p[i + 2]);
                assert(caused_by(g, p[i + 1], p[i + 2]));
            }
            assert(q[k - 1] == q[q.len() - 1]);
            assert(is_path(g, q) && q.len() >= 2 && q[0] == s && 0 <= k - 1 < q.len() - 1);
        } else {
            let q = p.drop_first().push(s);
            assert forall|i: int| 0 <= i < q.len() - 1 implies caused_by(g, #[trigger] q[i], q[i + 1]) by {
                if i < q.len() - 2 {
                    assert(q[i] == p[i + 1]);
                    assert(q[i + 1] == p[i + 2]);
                    assert(caused_by(g, p[i + 1], p[i + 2]));
                } else {
                    assert(q[i] == p[p.len() - 1]);
                    assert(p[p.len() - 1] == x);
                    assert(q[i + 1] == s);
                }
            }
            assert(q[0] == q[q.len() - 1]);
            assert(is_path(g, q) && q.len() >= 2 && q[0] == s && 0 <= 0 < q.len() - 1);
        }
        assert(reaches_cycle(g, s));
    }
}

fn find_text(v: &Vec<String>, x: &String) -> (r: bool)
    ensures
        r == texts(v@).contains(x@),
{
    let mut i: usize = 0;
    while i < v.len()
        invariant
            i <= v@.len(),
            forall|j: int| 0 <= j < i ==> v@[j]@ != x@,
        decreases v@.len() - i,
    {
        if text_eq(v[i].as_str(), x.as_str()) {
            assert(texts(v@)[i as int] == x@);
            return true;
        }
        i = i + 1;
    }
    assert forall|j: int| 0 <= j < v@.len() implies #[trigger] texts(v@)[j] != x@ by {
        assert(texts(v@)[j] == v@[j]@);
    }
    false
}

/// The texts of a list of strings.
pub open spec fn texts(v: Seq<String>) -> Seq<Seq<char>> {
    v.map_values(|s: String| s@)
}

/// The search state of the cycle check: `stack` is a path from `root`,
/// everything on it has been visited, every visited id that is no longer on
/// it is known to reach no cycle, and the visited ids are distinct ids of
/// the graph.
#[verifier::opaque]
pub open spec fn dfs_state(g: GraphView, root: Seq<char>, stack: Seq<Seq<char>>, visited: Seq<Seq<char>>) -> bool {
    &&& is_path(g, stack)
    &&& (stack.len() > 0 ==> stack[0] == root)
    &&& (forall|i: int| 0 <= i < stack.len() ==> visited.contains(#[trigger] stack[i]))
    &&& (forall|i: int| 0 <= i < visited.len() && !stack.contains(#[trigger] visited[i]) ==> !reaches_cycle(g, visited[i]))
    &&& (forall|i: int, j: int| 0 <= i < j < visited.len() ==> visited[i] != visited[j])
    &&& visited.to_set().subset_of(universe(g))
}

proof fn lemma_cycle_from_stack(g: GraphView, root: Seq<char>, stack: Seq<Seq<char>>, n: Seq<char>, k: int)
    requires
        is_path(g, stack),
        stack.len() > 0,
        stack[0] == root,
        caused_by(g, stack[stack.len() - 1], n),
        0 <= k < stack.len(),
        stack[k] == n,
    ensures
        reaches_cycle(g, root),
{
    reveal(reaches_cycle);
    let p = stack.push(n);
    assert forall|i: int| 0 <= i < p.len() - 1 implies caused_by(g, #[trigger] p[i], p[i + 1]) by {
        if i < stack.len() - 1 {
            assert(p[i] == stack[i] && p[i + 1] == stack[i + 1]);
        }
    }
    assert(p[k] == p[p.len() - 1]);
    assert(is_path(g, p) && p.len() >= 2 && p[0] == root && 0 <= k < p.len() - 1);
}

proof fn lemma_distinct_len(visited: Seq<Seq<char>>)
    requires
        forall|i: int, j: int| 0 <= i < j < visited.len() ==> visited[i] != visited[j],
    ensures
        visited.to_set().len() == visited.len(),
{
    visited.unique_seq_to_set();
}

proof fn lemma_universe_finite(g: GraphView)
    ensures
        universe(g).finite(),
{
    vstd::seq_lib::seq_to_set_is_finite(g.nodes.map_values(|n| node_id(n)));
    vstd::seq_lib::seq_to_set_is_finite(g.edges.map_values(|e: EdgeView| e.from));
    vstd::seq_lib::seq_to_set_is_finite(g.edges.map_values(|e: EdgeView| e.to));
}

proof fn lemma_state_len(g: GraphView, root: Seq<char>, stack: Seq<Seq<char>>, visited: Seq<Seq<char>>)
    requires
        dfs_state(g, root, stack, visited),
    ensures
        visited.len() <= universe(g).len(),
        visited.to_set().len() == visited.len(),
        visited.to_set().finite(),
{
    vstd::seq_lib::seq_to_set_is_finite(visited);
    reveal(dfs_state);
    lemma_distinct_len(visited);
    lemma_universe_finite(g);
    vstd::set_lib::lemma_len_subset(visited.to_set(), universe(g));
}

proof fn lemma_state_empty(g: GraphView, root: Seq<char>, visited: Seq<Seq<char>>)
    requires
        dfs_state(g, Seq::empty(), Seq::empty(), visited),
    ensures
        dfs_state(g, root, Seq::empty(), visited),
        forall|i: int| 0 <= i < visited.len() ==> !reaches_cycle(g, #[trigger] visited[i]),
{
    reveal(dfs_state);
    assert forall|i: int| 0 <= i < visited.len() implies !reaches_cycle(g, #[trigger] visited[i]) by {
        assert(!Seq::<Seq<char>>::empty().contains(visited[i]));
    }
}

proof fn lemma_state_on_stack_or_free(g: GraphView, root: Seq<char>, stack: Seq<Seq<char>>, visited: Seq<Seq<char>>, n: Seq<char>)
    requires
        dfs_state(g, root, stack, visited),
        visited.contains(n),
        !stack.contains(n),
    ensures
        !reaches_cycle(g, n),
{
    reveal(dfs_state);
    let i = choose|i: int| 0 <= i < visited.len() && visited[i] == n;
}

proof fn lemma_state_enter(g: GraphView, root: Seq<char>, stack: Seq<Seq<char>>, visited: Seq<Seq<char>>, n: Seq<char>)
    requires
        dfs_state(g, root, stack, visited),
        !stack.contains(n),
        !visited.contains(n),
        universe(g).contains(n),
        (stack.len() == 0 && n == root) || (stack.len() > 0 && caused_by(g, stack[stack.len() - 1], n)),
    ensures
        dfs_state(g, root, stack.push(n), visited.push(n)),
        visited.len() < universe(g).len(),
        visited.to_set().subset_of(visited.push(n).to_set()),
        visited.push(n).to_set().contains(n),
{
    reveal(dfs_state);
    let st = stack.push(n);
    let vs = visited.push(n);
    assert forall|i: int| 0 <= i < st.len() - 1 implies caused_by(g, #[trigger] st[i], st[i + 1]) by {
        if i < stack.len() - 1 {
            assert(st[i] == stack[i] && st[i + 1] == stack[i + 1]);
        }
    }
    assert forall|i: int| 0 <= i < st.len() implies vs.contains(#[trigger] st[i]) by {
        if i < stack.len() {
            let j = choose|j: int| 0 <= j < visited.len() && visited[j] == stack[i];
            assert(vs[j] == visited[j]);
        } else {
            assert(vs[vs.len() - 1] == n);
        }
    }
    assert forall|i: int| 0 <= i < vs.len() && !st.contains(#[trigger] vs[i]) implies !reaches_cycle(g, vs[i]) by {
        if i < visited.len() {
            assert(vs[i] == visited[i]);
            if stack.contains(vs[i]) {
                let j = choose|j: int| 0 <= j < stack.len() && stack[j] == vs[i];
                assert(st[j] == stack[j]);
            }
        } else {
            assert(st[st.len() - 1] == n);
        }
    }
    visited.lemma_push_to_set_commute(n);
    lemma_distinct_len(visited);
    lemma_distinct_len(vs);
    lemma_universe_finite(g);
    vstd::set_lib::lemma_len_subset(vs.to_set(), universe(g));
}

proof fn lemma_state_exit(g: GraphView, root: Seq<char>, stack: Seq<Seq<char>>, visited: Seq<Seq<char>>, n: Seq<char>)
    requires
        dfs_state(g, root, stack.push(n), visited),
        !stack.contains(n),
        forall|s: Seq<char>| caused_by(g, n, s) ==> !reaches_cycle(g, s),
    ensures
        dfs_state(g, root, stack, visited),
        !reaches_cycle(g, n),
{
    reveal(dfs_state);
    lemma_succ_free_implies_free(g, n);
    let st1 = stack.push(n);
    assert forall|i: int| 0 <= i < visited.len() && !stack.contains(#[trigger] visited[i]) implies !reaches_cycle(g, visited[i]) by {
        if visited[i] != n {
            if st1.contains(visited[i]) {
                let j = choose|j: int| 0 <= j < st1.len() && st1[j] == visited[i];
                assert(stack[j] == st1[j]);
            }
        }
    }
    assert forall|i: int| 0 <= i < stack.len() implies visited.contains(#[trigger] stack[i]) by {
        assert(st1[i] == stack[i]);
    }
    assert forall|i: int| 0 <= i < stack.len() - 1 implies caused_by(g, #[trigger] stack[i], stack[i + 1]) by {
        assert(st1[i] == stack[i] && st1[i + 1] == stack[i + 1]);
    }
}

proof fn lemma_out_edges(g: GraphView, n: Seq<char>)
    ensures
        forall|j: int| 0 <= j < edges_from_spec(g.edges, n, EdgeKind::CausedBy).len() ==> {
            let e = #[trigger] edges_from_spec(g.edges, n, EdgeKind::CausedBy)[j];
            &&& caused_by(g, n, e.to)
            &&& universe(g).contains(e.to)
        },
        forall|s: Seq<char>| caused_by(g, n, s) ==> exists|j: int|
            0 <= j < edges_from_spec(g.edges, n, EdgeKind::CausedBy).len()
            && (#[trigger] edges_from_spec(g.edges, n, EdgeKind::CausedBy)[j]).to == s,
{
    broadcast use vstd::seq_lib::group_filter_ensures;
    let outs = edges_from_spec(g.edges, n, EdgeKind::CausedBy);
    assert forall|j: int| 0 <= j < outs.len() implies {
        let e = #[trigger] outs[j];
        &&& caused_by(g, n, e.to)
        &&& universe(g).contains(e.to)
    } by {
        let e = outs[j];
        assert(outs.contains(e));
        g.edges.lemma_filter_contains_rev(starts_at(n, EdgeKind::CausedBy), e);
        assert(g.edges.contains(e));
        assert(e.from == n && e.kind == EdgeKind::CausedBy);
        assert(e == EdgeView { from: n, to: e.to, kind: EdgeKind::CausedBy });
        let w = choose|w: int| 0 <= w < g.edges.len() && g.edges[w] == e;
        assert(g.edges.map_values(|x: EdgeView| x.to)[w] == e.to);
        assert(g.edges.map_values(|x: EdgeView| x.to).contains(e.to));
    }
    assert forall|s: Seq<char>| caused_by(g, n, s) implies exists|j: int|
        0 <= j < outs.len() && (#[trigger] outs[j]).to == s by {
        let e = EdgeView { from: n, to: s, kind: EdgeKind::CausedBy };
        let w = choose|w: int| 0 <= w < g.edges.len() && g.edges[w] == e;
        g.edges.lemma_filter_contains(starts_at(n, EdgeKind::CausedBy), w);
        assert(outs.contains(e));
        let j = choose|j: int| 0 <= j < outs.len() && outs[j] == e;
        assert(outs[j].to == s);
    }
}

/// Depth-first search from `n`; `true` when it found a cycle reachable from
/// the root of the search.
fn dfs(
    g: &EvidenceGraph,
    n: &NodeId,
    stack: &mut Vec<NodeId>,
    visited: &mut Vec<NodeId>,
    Ghost(root): Ghost<Seq<char>>,
) -> (found: bool)
    requires
        g.wf(),
        dfs_state(g@, root, texts(old(stack)@), texts(old(visited)@)),
        universe(g@).contains(n@),
        (old(stack)@.len() == 0 && n@ == root) || (old(stack)@.len() > 0 && caused_by(
            g@,
            texts(old(stack)@)[old(stack)@.len() - 1],
            n@,
        )),
    ensures
        found ==> reaches_cycle(g@, root),
        !found ==> {
            &&& dfs_state(g@, root, texts(final(stack)@), texts(final(visited)@))
            &&& texts(final(stack)@) == texts(old(stack)@)
            &&& texts(final(visited)@).to_set().contains(n@)
            &&& !reaches_cycle(g@, n@)
            &&& texts(old(visited)@).to_set().subset_of(texts(final(visited)@).to_set())
        },
    decreases universe(g@).len() - texts(old(visited)@).len(),
{
    let ghost gv = g@;
    let ghost stack0 = texts(stack@);
    let ghost visited0 = texts(visited@);
    if find_text(stack, n) {
        proof {
            let k = choose|k: int| 0 <= k < stack0.len() && stack0[k] == n@;
            reveal(dfs_state);
            lemma_cycle_from_stack(gv, root, stack0, n@, k);
        }
        return true;
    }
    if find_text(visited, n) {
        proof {
            lemma_state_on_stack_or_free(gv, root, stack0, visited0, n@);
            visited0.lemma_push_to_set_commute(n@);
            let k = choose|k: int| 0 <= k < visited0.len() && visited0[k] == n@;
            assert(visited0.to_set().contains(n@));
        }
        return false;
    }
    proof {
        lemma_state_enter(gv, root, stack0, visited0, n@);
    }
    stack.push(n.clone());
    visited.push(n.clone());
    proof {
        assert(texts(stack@) =~= stack0.push(n@));
        assert(texts(visited@) =~= visited0.push(n@));
        lemma_out_edges(gv, n@);
    }
    let out = g.edges_from(n, EdgeKind::CausedBy);
    let ghost outs = edges_from_spec(gv.edges, n@, EdgeKind::CausedBy);
    let mut i: usize = 0;
    while i < out.len()
        invariant
            g.wf(),
            gv == g@,
            out@.map_values(|e: Edge| e@) == outs,
            outs == edges_from_spec(gv.edges, n@, EdgeKind::CausedBy),
            forall|j: int| 0 <= j < outs.len() ==> {
                let e = #[trigger] outs[j];
                &&& caused_by(gv, n@, e.to)
                &&& universe(gv).contains(e.to)
            },
            i <= out@.len(),
            dfs_state(gv, root, texts(stack@), texts(visited@)),
            texts(stack@) == stack0.push(n@),
            texts(visited@).to_set().contains(n@),
            visited0.to_set().subset_of(texts(visited@).to_set()),
            visited0.len() < texts(visited@).len(),
            visited0 == texts(old(visited)@),
            forall|j: int| 0 <= j < i ==> !reaches_cycle(gv, #[trigger] outs[j].to),
        decreases out@.len() - i,
    {
        let e = &out[i];
        proof {
            assert(out@.map_values(|e: Edge| e@)[i as int] == e@);
            let st = texts(stack@);
            assert(st[st.len() - 1] == n@);
            lemma_state_len(gv, root, texts(stack@), texts(visited@));
        }
        let ghost visited_before = texts(visited@);
        proof {
            lemma_state_len(gv, root, texts(stack@), visited_before);
        }
        if dfs(g, &e.to, stack, visited, Ghost(root)) {
            return true;
        }
        proof {
            assert(visited_before.to_set().subset_of(texts(visited@).to_set()));
            assert(visited0.to_set().subset_of(texts(visited@).to_set()));
            assert(texts(visited@).to_set().contains(n@));
            lemma_state_len(gv, root, texts(stack@), texts(visited@));
            vstd::set_lib::lemma_len_subset(visited_before.to_set(), texts(visited@).to_set());
        }
        i = i + 1;
    }
    let ghost st_before = stack@;
    stack.pop();
    proof {
        assert forall|j: int| 0 <= j < stack@.len() implies #[trigger] texts(stack@)[j] == stack0[j] by {
            assert(texts(st_before)[j] == st_before[j]@);
            assert(stack0.push(n@)[j] == stack0[j]);
        }
        assert(texts(stack@) =~= stack0);
        assert forall|s: Seq<char>| caused_by(gv, n@, s) implies !reaches_cycle(gv, s) by {
            let j = choose|j: int| 0 <= j < outs.len() && (#[trigger] outs[j]).to == s;
        }
        lemma_state_exit(gv, root, stack0, texts(visited@), n@);
    }
    false
}

/// `Ok` when no node can reach a cycle of `CausedBy` edges; otherwise the
/// message names the first node (in insertion order) that can.
pub fn check_no_caused_by_cycles(g: &EvidenceGraph) -> (r: Result<(), String>)
    requires
        g.wf(),
    ensures
        r is Ok <==> caused_by_acyclic(g@),
        r matches Err(msg) ==> exists|i: int|
            0 <= i < g@.nodes.len() && reaches_cycle(g@, node_id(#[trigger] g@.nodes[i]))
            && (forall|j: int| 0 <= j < i ==> !reaches_cycle(g@, node_id(#[trigger] g@.nodes[j])))
            && msg@ == "cycle through "@ + node_id(g@.nodes[i]),
{
    let ns = g.nodes();
    let ghost gv = g@;
    let mut visited: Vec<NodeId> = Vec::new();
    let mut i: usize = 0;
    proof {
        assert(texts(visited@) =~= Seq::<Seq<char>>::empty());
        reveal(dfs_state);
        assert(Seq::<Seq<char>>::empty().to_set() =~= Set::<Seq<char>>::empty());
    }
    while i < ns.len()
        invariant
            g.wf(),
            gv == g@,
            ns@.len() == gv.nodes.len(),
            forall|j: int| 0 <= j < ns@.len() ==> (#[trigger] ns@[j]).0@ == node_id(gv.nodes[j]),
            i <= ns@.len(),
            dfs_state(gv, Seq::empty(), Seq::empty(), texts(visited@)),
            forall|j: int| 0 <= j < i ==> !reaches_cycle(gv, node_id(#[trigger] gv.nodes[j])),
        decreases ns@.len() - i,
    {
        let id = &ns[i].0;
        let mut stack: Vec<NodeId> = Vec::new();
        proof {
            assert(texts(stack@) =~= Seq::<Seq<char>>::empty());
            assert(gv.nodes.map_values(|n| node_id(n))[i as int] == id@);
            assert(universe(gv).contains(id@));
            lemma_state_empty(gv, id@, texts(visited@));
        }
        if dfs(g, id, &mut stack, &mut visited, Ghost(id@)) {
            return Err(concat("cycle through ", id.as_str()));
        }
        proof {
            assert(texts(stack@) =~= Seq::<Seq<char>>::empty());
            lemma_state_reroot(gv, id@, texts(visited@));
        }
        i = i + 1;
    }
    Ok(())
}

proof fn lemma_state_reroot(g: GraphView, root: Seq<char>, visited: Seq<Seq<char>>)
    requires
        dfs_state(g, root, Seq::empty(), visited),
    ensures
        dfs_state(g, Seq::empty(), Seq::empty(), visited),
{
    reveal(dfs_state);
}

/// Adding a node never creates a dangling edge.
pub proof fn lemma_add_node_keeps_no_dangling(g: GraphView, n: crate::graph::nodes::NodeView)
    requires
        no_dangling(g),
    ensures
        no_dangling(add_node_spec(g, n)),
{
    let h = add_node_spec(g, n);
    assert forall|i: int| 0 <= i < h.edges.len() implies !dangling(h, #[trigger] h.edges[i]) by {
        let e = h.edges[i];
        assert(!dangling(g, g.edges[i]));
        let a = choose|a: int| 0 <= a < g.nodes.len() && node_id(g.nodes[a]) == e.from;
        let b = choose|b: int| 0 <= b < g.nodes.len() && node_id(g.nodes[b]) == e.to;
        assert(h.nodes[a] == g.nodes[a] && h.nodes[b] == g.nodes[b]);
    }
}

/// Adding an edge whose ends are both nodes (the only edge that the strict
/// insertion accepts) never creates a dangling edge.
pub proof fn lemma_strict_edge_keeps_no_dangling(g: GraphView, e: EdgeView)
    requires
        no_dangling(g),
        has_id(g.nodes, e.from),
        has_id(g.nodes, e.to),
    ensures
        no_dangling(add_edge_spec(g, e)),
{
    let h = add_edge_spec(g, e);
    assert forall|i: int| 0 <= i < h.edges.len() implies !dangling(h, #[trigger] h.edges[i]) by {
        if i < g.edges.len() {
            assert(h.edges[i] == g.edges[i]);
        }
    }
}

/// A graph without `CausedBy` edges has no `CausedBy` cycle.
pub proof fn lemma_no_caused_by_edges_acyclic(g: GraphView)
    requires
        forall|i: int| 0 <= i < g.edges.len() ==> (#[trigger] g.edges[i]).kind != EdgeKind::CausedBy,
    ensures
        caused_by_acyclic(g),
{
    reveal(reaches_cycle);
    assert forall|i: int| 0 <= i < g.nodes.len() implies !reaches_cycle(g, node_id(#[trigger] g.nodes[i])) by {
        if reaches_cycle(g, node_id(g.nodes[i])) {
            let (p, k) = choose|p: Seq<Seq<char>>, k: int|
                #![trigger is_path(g, p), p[k]]
                is_path(g, p) && p.len() >= 2 && p[0] == node_id(g.nodes[i]) && 0 <= k < p.len() - 1
                    && p[k] == p[p.len() - 1];
            assert(caused_by(g, p[0], p[1]));
        }
    }
}

/// Adding an edge of another kind than `CausedBy` (such as every edge of
/// the strict insertions between services) keeps a graph free of `CausedBy`
/// cycles.
pub proof fn lemma_other_edge_keeps_acyclic(g: GraphView, e: EdgeView)
    requires
        caused_by_acyclic(g),
        e.kind != EdgeKind::CausedBy,
    ensures
        caused_by_acyclic(add_edge_spec(g, e)),
{
    let h = add_edge_spec(g, e);
    assert forall|a: Seq<char>, b: Seq<char>| caused_by(h, a, b) implies caused_by(g, a, b) by {
        let c = EdgeView { from: a, to: b, kind: EdgeKind::CausedBy };
        if !g.edges.contains(e) {
            let k = choose|k: int| 0 <= k < h.edges.len() && h.edges[k] == c;
            assert(k < g.edges.len());
            assert(g.edges[k] == c);
        }
    }
    reveal(reaches_cycle);
    assert forall|i: int| 0 <= i < h.nodes.len() implies !reaches_cycle(h, node_id(#[trigger] h.nodes[i])) by {
        assert(h.nodes[i] == g.nodes[i]);
        assert(!reaches_cycle(g, node_id(g.nodes[i])));
        if reaches_cycle(h, node_id(h.nodes[i])) {
            let (p, k) = choose|p: Seq<Seq<char>>, k: int|
                #![trigger is_path(h, p), p[k]]
                is_path(h, p) && p.len() >= 2 && p[0] == node_id(h.nodes[i]) && 0 <= k < p.len() - 1
                    && p[k] == p[p.len() - 1];
            assert forall|j: int| 0 <= j < p.len() - 1 implies caused_by(g, #[trigger] p[j], p[j + 1]) by {
                assert(caused_by(h, p[j], p[j + 1]));
            }
            assert(is_path(g, p));
        }
    }
}

/// Adding a node keeps a graph without dangling edges free of `CausedBy`
/// cycles: a new node has no edge yet, so it reaches no cycle.
pub proof fn lemma_add_node_keeps_acyclic(g: GraphView, n: NodeView)
    requires
        no_dangling(g),
        caused_by_acyclic(g),
    ensures
        caused_by_acyclic(add_node_spec(g, n)),
{
    let h = add_node_spec(g, n);
    if !has_id(g.nodes, node_id(n)) {
        reveal(reaches_cycle);
        assert forall|i: int| 0 <= i < h.nodes.len() implies !reaches_cycle(h, node_id(#[trigger] h.nodes[i])) by {
            if reaches_cycle(h, node_id(h.nodes[i])) {
                let (p, k) = choose|p: Seq<Seq<char>>, k: int|
                    #![trigger is_path(h, p), p[k]]
                    is_path(h, p) && p.len() >= 2 && p[0] == node_id(h.nodes[i]) && 0 <= k < p.len() - 1
                        && p[k] == p[p.len() - 1];
                assert forall|j: int| 0 <= j < p.len() - 1 implies caused_by(g, #[trigger] p[j], p[j + 1]) by {
                    assert(caused_by(h, p[j], p[j + 1]));
                }
                assert(is_path(g, p));
                if i < g.nodes.len() {
                    assert(h.nodes[i] == g.nodes[i]);
                    assert(!reaches_cycle(g, node_id(g.nodes[i])));
                } else {
                    // The first step leaves the new node along an edge of `g`,
                    // whose ends are all nodes of `g`.
                    assert(caused_by(g, p[0], p[1]));
                    let c = EdgeView { from: p[0], to: p[1], kind: EdgeKind::CausedBy };
                    let q = choose|q: int| 0 <= q < g.edges.len() && g.edges[q] == c;
                    assert(!dangling(g, g.edges[q]));
                    assert(h.nodes[i] == n);
                }
            }
        }
    }
}

/// One insertion into an evidence graph: a node (`add_node`) or an edge
/// inserted strictly (`add_edge_strict`).
pub enum Insertion {
    Node(NodeView),
    StrictEdge(EdgeView),
}

/// What one insertion does: a node is added unless its id is there; a
/// strict edge is added only when both of its ends are nodes.
pub open spec fn strict_step(g: GraphView, op: Insertion) -> GraphView {
    match op {
        Insertion::Node(n) => add_node_spec(g, n),
        Insertion::StrictEdge(e) => if has_id(g.nodes, e.from) && has_id(g.nodes, e.to) {
            add_edge_spec(g, e)
        } else {
            g
        },
    }
}

/// What a sequence of insertions does, one after the other.
pub open spec fn strict_run(g: GraphView, ops: Seq<Insertion>) -> GraphView
    decreases ops.len(),
{
    if ops.len() == 0 {
        g
    } else {
        strict_step(strict_run(g, ops.drop_last()), ops.last())
    }
}

/// Whether no insertion of `ops` is a `CausedBy` edge.
pub open spec fn no_caused_by_insertion(ops: Seq<Insertion>) -> bool {
    forall|i: int| 0 <= i < ops.len() ==> !(#[trigger] ops[i] matches Insertion::StrictEdge(e) && e.kind
        == EdgeKind::CausedBy)
}

/// A graph built from the empty graph by any sequence of `add_node` and
/// `add_edge_strict` calls never has a dangling edge; when none of the
/// strict edges is a `CausedBy` edge, it has no `CausedBy` cycle either.
pub proof fn lemma_strict_insertions_keep_invariants(ops: Seq<Insertion>)
    ensures
        no_dangling(strict_run(empty_graph(), ops)),
        no_caused_by_insertion(ops) ==> caused_by_acyclic(strict_run(empty_graph(), ops)),
    decreases ops.len(),
{
    if ops.len() == 0 {
        reveal(reaches_cycle);
    } else {
        let init = ops.drop_last();
        lemma_strict_insertions_keep_invariants(init);
        let g = strict_run(empty_graph(), init);
        if no_caused_by_insertion(ops) {
            assert forall|i: int| 0 <= i < init.len() implies !(#[trigger] init[i] matches Insertion::StrictEdge(e)
                && e.kind == EdgeKind::CausedBy) by {
                assert(init[i] == ops[i]);
            }
            assert(no_caused_by_insertion(init));
            assert(ops[ops.len() - 1] == ops.last());
        }
        match ops.last() {
            Insertion::Node(n) => {
                lemma_add_node_keeps_no_dangling(g, n);
                if no_caused_by_insertion(ops) {
                    lemma_add_node_keeps_acyclic(g, n);
                }
            },
            Insertion::StrictEdge(e) => {
                if has_id(g.nodes, e.from) && has_id(g.nodes, e.to) {
                    lemma_strict_edge_keeps_no_dangling(g, e);
                    if no_caused_by_insertion(ops) {
                        lemma_other_edge_keeps_acyclic(g, e);
                    }
                }
            },
        }
    }
}

} // verus!
