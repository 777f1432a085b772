//! Dependency edges between tasks: the graph petgraph builds from them, cycle
//! checks, topological order, the order `before` edges impose, and the
//! rewiring of `before` chains.
use vstd::prelude::*;

use crate::error::RangerError;
use crate::models::{EdgeType, TaskEdge};
use crate::ops::dag::{
    graph_add_edge, graph_add_node, graph_edges, graph_is_cyclic, graph_node_id, graph_nodes, is_acyclic,
    new_graph, ranks_edges,
};
use petgraph::graph::DiGraph;
use std::collections::HashMap;

verus! {

broadcast use vstd::std_specs::hash::group_hash_axioms;

/// `nodes` with `id` appended, unless it is there already.
pub open spec fn with_node(nodes: Seq<i64>, id: i64) -> Seq<i64> {
    if nodes.contains(id) {
        nodes
    } else {
        nodes.push(id)
    }
}

/// The task IDs the edges mention, each once, in order of first mention (an
/// edge's source before its target).
pub open spec fn dag_nodes(edges: Seq<TaskEdge>) -> Seq<i64>
    decreases edges.len(),
{
    if edges.len() == 0 {
        Seq::empty()
    } else {
        let e = edges.last();
        with_node(with_node(dag_nodes(edges.drop_last()), e.from_task_id), e.to_task_id)
    }
}

/// A position of `id` in `nodes`.
pub open spec fn pos_in(nodes: Seq<i64>, id: i64) -> int {
    choose|i: int| 0 <= i < nodes.len() && nodes[i] == id
}

/// The edges as (source, target) positions in `dag_nodes`.
pub open spec fn dag_edges(edges: Seq<TaskEdge>) -> Seq<(usize, usize)> {
    Seq::new(
        edges.len(),
        |k: int|
            (
                pos_in(dag_nodes(edges), edges[k].from_task_id) as usize,
                pos_in(dag_nodes(edges), edges[k].to_task_id) as usize,
            ),
    )
}

/// The (source, target) task IDs of the edges.
pub open spec fn task_pairs(edges: Seq<TaskEdge>) -> Seq<(i64, i64)> {
    Seq::new(edges.len(), |k: int| (edges[k].from_task_id, edges[k].to_task_id))
}

/// Every pair goes from a task of lower rank to one of higher rank.
pub open spec fn ranks_pairs(pairs: Seq<(i64, i64)>, rank: spec_fn(i64) -> nat) -> bool {
    forall|k: int| 0 <= k < pairs.len() ==> rank((#[trigger] pairs[k]).0) < rank(pairs[k].1)
}

/// The pairs, read as edges between tasks, form no cycle.
pub open spec fn pairs_acyclic(pairs: Seq<(i64, i64)>) -> bool {
    exists|rank: spec_fn(i64) -> nat| ranks_pairs(pairs, rank)
}

/// `map` gives, for each task ID in `nodes`, its position there.
pub open spec fn map_matches(nodes: Seq<i64>, map: Map<i64, usize>) -> bool {
    &&& nodes.no_duplicates()
    &&& forall|id: i64| #[trigger] map.contains_key(id) <==> nodes.contains(id)
    &&& forall|id: i64| #[trigger] map.contains_key(id) ==> map[id] < nodes.len() && nodes[map[id] as int] == id
}

proof fn lemma_pos_unique(nodes: Seq<i64>, i: int)
    requires
        nodes.no_duplicates(),
        0 <= i < nodes.len(),
    ensures
        pos_in(nodes, nodes[i]) == i,
{
    let p = pos_in(nodes, nodes[i]);
    assert(0 <= p < nodes.len() && nodes[p] == nodes[i]);
}

/// Whether a graph whose edges sit at these positions has a cycle is whether
/// the task pairs do.
proof fn lemma_acyclic_iff(nodes: Seq<i64>, pairs: Seq<(i64, i64)>, gedges: Seq<(usize, usize)>)
    requires
        nodes.no_duplicates(),
        gedges.len() == pairs.len(),
        forall|k: int|
            0 <= k < gedges.len() ==> {
                &&& (#[trigger] gedges[k]).0 < nodes.len()
                &&& gedges[k].1 < nodes.len()
                &&& nodes[gedges[k].0 as int] == pairs[k].0
                &&& nodes[gedges[k].1 as int] == pairs[k].1
            },
    ensures
        is_acyclic(gedges) == pairs_acyclic(pairs),
{
    if is_acyclic(gedges) {
        let rg = choose|rank: spec_fn(int) -> nat| ranks_edges(gedges, rank);
        let rt = |id: i64| rg(pos_in(nodes, id));
        assert forall|k: int| 0 <= k < pairs.len() implies rt((#[trigger] pairs[k]).0) < rt(pairs[k].1) by {
            let e = gedges[k];
            lemma_pos_unique(nodes, e.0 as int);
            lemma_pos_unique(nodes, e.1 as int);
        }
        assert(ranks_pairs(pairs, rt));
    }
    if pairs_acyclic(pairs) {
        let rt = choose|rank: spec_fn(i64) -> nat| ranks_pairs(pairs, rank);
        let rg = |i: int| rt(nodes[i]);
        assert forall|k: int| 0 <= k < gedges.len() implies rg((#[trigger] gedges[k]).0 as int) < rg(
            gedges[k].1 as int,
        ) by {
            assert(pairs[k].0 == nodes[gedges[k].0 as int]);
        }
        assert(ranks_edges(gedges, rg));
    }
}

/// Position of the node for `id`, adding one when the graph has none yet.
fn node_for(g: &mut DiGraph<i64, EdgeType>, map: &mut HashMap<i64, usize>, id: i64) -> (pos: usize)
    requires
        map_matches(graph_nodes(*old(g)), old(map)@),
        graph_nodes(*old(g)).len() < 0xffff_ffff,
    ensures
        graph_nodes(*final(g)) == with_node(graph_nodes(*old(g)), id),
        graph_edges(*final(g)) == graph_edges(*old(g)),
        map_matches(graph_nodes(*final(g)), final(map)@),
        final(map)@.contains_key(id),
        final(map)@[id] == pos,
        forall|k: i64| old(map)@.contains_key(k) ==> #[trigger] final(map)@.contains_key(k) && final(map)@[k]
            == old(map)@[k],
{
    match map.get(&id) {
        Some(p) => *p,
        None => {
            let ghost old_nodes = graph_nodes(*g);
            let p = graph_add_node(g, id);
            map.insert(id, p);
            proof {
                let nodes = graph_nodes(*g);
                assert(nodes == old_nodes.push(id));
                assert forall|a: int, b: int| 0 <= a < nodes.len() && 0 <= b < nodes.len() && a != b implies nodes[a]
                    != nodes[b] by {
                    if a < old_nodes.len() && b < old_nodes.len() {
                        assert(nodes[a] == old_nodes[a] && nodes[b] == old_nodes[b]);
                    } else if a < old_nodes.len() {
                        assert(old_nodes.contains(nodes[a]));
                    } else {
                        assert(old_nodes.contains(nodes[b]));
                    }
                }
                assert(nodes[old_nodes.len() as int] == id);
                assert forall|k: i64| #[trigger] map@.contains_key(k) <==> nodes.contains(k) by {
                    if nodes.contains(k) && k != id {
                        let j = choose|j: int| 0 <= j < nodes.len() && nodes[j] == k;
                        assert(old_nodes[j] == k);
                    }
                    if old_nodes.contains(k) {
                        let j = choose|j: int| 0 <= j < old_nodes.len() && old_nodes[j] == k;
                        assert(nodes[j] == k);
                    }
                }
                assert forall|k: i64| #[trigger] map@.contains_key(k) implies map@[k] < nodes.len() && nodes[map@[k] as int]
                    == k by {
                    if k != id {
                        assert(nodes[map@[k] as int] == old_nodes[map@[k] as int]);
                    }
                }
            }
            p
        },
    }
}

proof fn lemma_dag_nodes_step(edges: Seq<TaskEdge>, i: int)
    requires
        0 <= i < edges.len(),
    ensures
        dag_nodes(edges.take(i + 1)) == with_node(
            with_node(dag_nodes(edges.take(i)), edges[i].from_task_id),
            edges[i].to_task_id,
        ),
{
    assert(edges.take(i + 1).drop_last() =~= edges.take(i));
}

/// Build a petgraph DiGraph from task edges. Returns the graph and a mapping
/// from task_id to the position of its node.
pub fn build_dag(edges: &[TaskEdge]) -> (r: (DiGraph<i64, EdgeType>, HashMap<i64, usize>))
    requires
        edges@.len() < 0x7fff_ffff,
    ensures
        graph_nodes(r.0) == dag_nodes(edges@),
        graph_edges(r.0) == dag_edges(edges@),
        graph_nodes(r.0).len() <= 2 * edges@.len(),
        map_matches(dag_nodes(edges@), r.1@),
        forall|k: int|
            #![trigger edges@[k]]
            0 <= k < edges@.len() ==> {
                &&& r.1@.contains_key(edges@[k].from_task_id)
                &&& r.1@.contains_key(edges@[k].to_task_id)
                &&& graph_edges(r.0)[k] == (
                    r.1@[edges@[k].from_task_id],
                    r.1@[edges@[k].to_task_id],
                )
            },
{
    let mut graph = new_graph();
    let mut node_map: HashMap<i64, usize> = HashMap::new();
    let mut i: usize = 0;
    while i < edges.len()
        invariant
            i <= edges@.len() < 0x7fff_ffff,
            graph_nodes(graph) == dag_nodes(edges@.take(i as int)),
            graph_nodes(graph).len() <= 2 * i,
            map_matches(graph_nodes(graph), node_map@),
            graph_edges(graph).len() == i,
            forall|k: int|
                #![trigger edges@[k]]
                0 <= k < i ==> {
                    &&& node_map@.contains_key(edges@[k].from_task_id)
                    &&& node_map@.contains_key(edges@[k].to_task_id)
                    &&& graph_edges(graph)[k] == (
                        node_map@[edges@[k].from_task_id],
                        node_map@[edges@[k].to_task_id],
                    )
                },
        decreases edges.len() - i,
    {
        let edge = &edges[i];
        proof {
            lemma_dag_nodes_step(edges@, i as int);
        }
        let ghost map0 = node_map@;
        let from_idx = node_for(&mut graph, &mut node_map, edge.from_task_id);
        let ghost map1 = node_map@;
        let to_idx = node_for(&mut graph, &mut node_map, edge.to_task_id);
        let ghost edges0 = graph_edges(graph);
        proof {
            assert(node_map@.contains_key(edge.from_task_id));
            assert(node_map@[edge.from_task_id] == from_idx);
        }
        graph_add_edge(&mut graph, from_idx, to_idx, edge.edge_type);
        proof {
            assert forall|k: int| #![trigger edges@[k]] 0 <= k < i + 1 implies {
                &&& node_map@.contains_key(edges@[k].from_task_id)
                &&& node_map@.contains_key(edges@[k].to_task_id)
                &&& graph_edges(graph)[k] == (
                    node_map@[edges@[k].from_task_id],
                    node_map@[edges@[k].to_task_id],
                )
            } by {
                if k < i {
                    let a = edges@[k].from_task_id;
                    let b = edges@[k].to_task_id;
                    assert(graph_edges(graph)[k] == edges0[k]);
                    assert(map0.contains_key(a) && map0.contains_key(b));
                    assert(map1.contains_key(a) && map1.contains_key(b));
                    assert(node_map@.contains_key(a) && node_map@.contains_key(b));
                }
            }
        }
        i = i + 1;
    }
    proof {
        assert(edges@.take(edges@.len() as int) =~= edges@);
        let nodes = graph_nodes(graph);
        assert forall|id: i64| #[trigger] node_map@.contains_key(id) implies node_map@[id] == pos_in(nodes, id) by {
            lemma_pos_unique(nodes, node_map@[id] as int);
        }
        assert(graph_edges(graph) =~= dag_edges(edges@));
    }
    (graph, node_map)
}

/// Check if adding an edge from → to would create a cycle.
pub fn check_cycle(existing_edges: &[TaskEdge], from_task_id: i64, to_task_id: i64) -> (r: Result<(), RangerError>)
    requires
        existing_edges@.len() < 0x7fff_ffff,
    ensures
        r is Ok <==> pairs_acyclic(task_pairs(existing_edges@).push((from_task_id, to_task_id))),
        r matches Err(e) ==> e == RangerError::CycleDetected,
{
    let (mut graph, mut node_map) = build_dag(existing_edges);
    let ghost map0 = node_map@;
    let ghost ge0 = graph_edges(graph);
    let from_idx = node_for(&mut graph, &mut node_map, from_task_id);
    let to_idx = node_for(&mut graph, &mut node_map, to_task_id);
    graph_add_edge(&mut graph, from_idx, to_idx, EdgeType::Blocks);
    proof {
        let nodes = graph_nodes(graph);
        let pairs = task_pairs(existing_edges@).push((from_task_id, to_task_id));
        let ge = graph_edges(graph);
        let n0 = dag_nodes(existing_edges@);
        assert(ge =~= ge0.push((from_idx, to_idx)));
        assert forall|k: int| 0 <= k < ge.len() implies {
            &&& (#[trigger] ge[k]).0 < nodes.len()
            &&& ge[k].1 < nodes.len()
            &&& nodes[ge[k].0 as int] == pairs[k].0
            &&& nodes[ge[k].1 as int] == pairs[k].1
        } by {
            if k < existing_edges@.len() {
                let e = existing_edges@[k];
                assert(ge[k] == (map0[e.from_task_id], map0[e.to_task_id]));
                assert(nodes[map0[e.from_task_id] as int] == n0[map0[e.from_task_id] as int]);
                assert(nodes[map0[e.to_task_id] as int] == n0[map0[e.to_task_id] as int]);
            }
        }
        lemma_acyclic_iff(nodes, pairs, ge);
    }
    if graph_is_cyclic(&graph) {
        return Err(RangerError::CycleDetected);
    }
    Ok(())
}

/// Some edge starts or ends at task `x`.
pub open spec fn mentioned(edges: Seq<TaskEdge>, x: i64) -> bool {
    exists|k: int| 0 <= k < edges.len() && touches(#[trigger] edges[k], x)
}

/// Edge `e` starts or ends at task `x`.
pub open spec fn touches(e: TaskEdge, x: i64) -> bool {
    e.from_task_id == x || e.to_task_id == x
}

/// Each entry is smaller than the next.
pub open spec fn strictly_increasing(s: Seq<i64>) -> bool {
    forall|i: int, j: int| 0 <= i < j < s.len() ==> s[i] < s[j]
}

proof fn lemma_with_node(s: Seq<i64>, id: i64, y: i64)
    ensures
        with_node(s, id).contains(y) <==> (s.contains(y) || y == id),
        s.no_duplicates() ==> with_node(s, id).no_duplicates(),
{
    if !s.contains(id) {
        let t = s.push(id);
        assert(t[s.len() as int] == id);
        if s.contains(y) {
            let j = choose|j: int| 0 <= j < s.len() && s[j] == y;
            assert(t[j] == y);
        }
        if t.contains(y) && y != id {
            let j = choose|j: int| 0 <= j < t.len() && t[j] == y;
            assert(s[j] == y);
        }
        if s.no_duplicates() {
            assert forall|a: int, b: int| 0 <= a < t.len() && 0 <= b < t.len() && a != b implies t[a] != t[b] by {
                if a < s.len() && b < s.len() {
                } else if a < s.len() {
                    assert(s.contains(t[a]));
                } else {
                    assert(s.contains(t[b]));
                }
            }
        }
    }
}

/// The task IDs of the graph built from `edges` are exactly those some edge
/// mentions, each once.
pub proof fn lemma_dag_nodes_mentioned(edges: Seq<TaskEdge>, x: i64)
    ensures
        dag_nodes(edges).contains(x) <==> mentioned(edges, x),
        dag_nodes(edges).no_duplicates(),
    decreases edges.len(),
{
    if edges.len() > 0 {
        let init = edges.drop_last();
        let e = edges.last();
        lemma_dag_nodes_mentioned(init, x);
        let n0 = dag_nodes(init);
        lemma_with_node(n0, e.from_task_id, x);
        lemma_with_node(with_node(n0, e.from_task_id), e.to_task_id, x);
        if mentioned(init, x) {
            let k = choose|k: int| 0 <= k < init.len() && touches(#[trigger] init[k], x);
            assert(init[k] == edges[k]);
        }
        if mentioned(edges, x) {
            let k = choose|k: int| 0 <= k < edges.len() && touches(#[trigger] edges[k], x);
            if k < init.len() {
                assert(init[k] == edges[k]);
            }
        }
        if touches(e, x) {
            assert(touches(edges[edges.len() - 1], x));
        }
    }
}

/// The distinct values of `ids`, smallest first.
fn sorted_ids(ids: &Vec<i64>) -> (r: Vec<i64>)
    ensures
        strictly_increasing(r@),
        forall|x: i64| r@.contains(x) <==> ids@.contains(x),
{
    let mut out: Vec<i64> = Vec::new();
    let mut i: usize = 0;
    while i < ids.len()
        invariant
            i <= ids@.len(),
            strictly_increasing(out@),
            forall|x: i64| out@.contains(x) <==> ids@.take(i as int).contains(x),
        decreases ids.len() - i,
    {
        let x = ids[i];
        let mut p: usize = 0;
        while p < out.len() && out[p] < x
            invariant
                p <= out@.len(),
                forall|q: int| 0 <= q < p ==> out@[q] < x,
            decreases out.len() - p,
        {
            p = p + 1;
        }
        proof {
            assert(ids@.take(i + 1) =~= ids@.take(i as int).push(x));
            broadcast use vstd::seq_lib::lemma_seq_contains_after_push;
        }
        if p < out.len() && out[p] == x {
        } else {
            let ghost old_out = out@;
            out.insert(p, x);
            proof {
                let t = out@;
                assert(t =~= old_out.take(p as int).push(x) + old_out.skip(p as int));
                assert forall|a: int| 0 <= a < t.len() implies (#[trigger] t[a]) == (if a < p {
                    old_out[a]
                } else if a == p {
                    x
                } else {
                    old_out[a - 1]
                }) by {}
                assert forall|a: int, b: int| 0 <= a < b < t.len() implies t[a] < t[b] by {
                    if b < p {
                    } else if b == p {
                    } else if a < p {
                        assert(old_out[b - 1] >= x);
                    } else if a == p {
                        assert(old_out[a] >= x && old_out[a] != x);
                        if b - 1 > a {
                            assert(old_out[a] < old_out[b - 1]);
                        }
                    } else {
                    }
                }
                assert forall|y: i64| t.contains(y) <==> old_out.contains(y) || y == x by {
                    if t.contains(y) {
                        let j = choose|j: int| 0 <= j < t.len() && t[j] == y;
                        if j < p {
                            assert(old_out[j] == y);
                        } else if j > p {
                            assert(old_out[j - 1] == y);
                        }
                    }
                    if old_out.contains(y) {
                        let j = choose|j: int| 0 <= j < old_out.len() && old_out[j] == y;
                        if j < p {
                            assert(t[j] == y);
                        } else {
                            assert(t[j + 1] == y);
                        }
                    }
                    if y == x {
                        assert(t[p as int] == x);
                    }
                }
            }
        }
        i = i + 1;
    }
    assert(ids@.take(ids@.len() as int) =~= ids@);
    out
}

proof fn lemma_dag_nodes_len(edges: Seq<TaskEdge>)
    ensures
        dag_nodes(edges).len() <= 2 * edges.len(),
    decreases edges.len(),
{
    if edges.len() > 0 {
        lemma_dag_nodes_len(edges.drop_last());
    }
}

/// The graph `build_dag` makes has a cycle exactly when the edges do; its
/// nodes are the tasks the edges mention, each once.
pub proof fn lemma_dag_acyclic(edges: Seq<TaskEdge>)
    requires
        edges.len() < 0x7fff_ffff,
    ensures
        is_acyclic(dag_edges(edges)) == pairs_acyclic(task_pairs(edges)),
        dag_nodes(edges).no_duplicates(),
        forall|x: i64| dag_nodes(edges).contains(x) <==> mentioned(edges, x),
{
    let nodes = dag_nodes(edges);
    assert forall|x: i64| nodes.contains(x) <==> mentioned(edges, x) by {
        lemma_dag_nodes_mentioned(edges, x);
    }
    lemma_dag_nodes_mentioned(edges, 0);
    lemma_dag_nodes_len(edges);
    let ge = dag_edges(edges);
    let pairs = task_pairs(edges);
    assert forall|k: int| 0 <= k < ge.len() implies {
        &&& (#[trigger] ge[k]).0 < nodes.len()
        &&& ge[k].1 < nodes.len()
        &&& nodes[ge[k].0 as int] == pairs[k].0
        &&& nodes[ge[k].1 as int] == pairs[k].1
    } by {
        assert(touches(edges[k], edges[k].from_task_id));
        assert(touches(edges[k], edges[k].to_task_id));
        assert(nodes.contains(edges[k].from_task_id));
        assert(nodes.contains(edges[k].to_task_id));
    }
    lemma_acyclic_iff(nodes, pairs, ge);
}

/// A map that gives each node its position has as many keys as there are
/// nodes.
proof fn lemma_map_len(nodes: Seq<i64>, map: Map<i64, usize>)
    requires
        map_matches(nodes, map),
    ensures
        map.len() == nodes.len(),
{
    assert(map.dom() =~= nodes.to_set());
    nodes.unique_seq_to_set();
}

/// The edges with every edge type read as `before`: the order
/// `topological_sort` gives treats every kind of edge alike.
pub open spec fn as_before(edges: Seq<TaskEdge>) -> Seq<TaskEdge> {
    edges.map_values(
        |e: TaskEdge|
            TaskEdge {
                id: e.id,
                from_task_id: e.from_task_id,
                to_task_id: e.to_task_id,
                edge_type: EdgeType::Before,
                created_at: e.created_at,
            },
    )
}

fn edges_as_before(edges: &[TaskEdge]) -> (r: Vec<TaskEdge>)
    ensures
        r@ == as_before(edges@),
{
    let mut out: Vec<TaskEdge> = Vec::new();
    let mut i: usize = 0;
    while i < edges.len()
        invariant
            i <= edges@.len(),
            out@.len() == i,
            forall|k: int| 0 <= k < i ==> #[trigger] out@[k] == as_before(edges@)[k],
        decreases edges.len() - i,
    {
        let e = &edges[i];
        out.push(
            TaskEdge {
                id: e.id,
                from_task_id: e.from_task_id,
                to_task_id: e.to_task_id,
                edge_type: EdgeType::Before,
                created_at: e.created_at,
            },
        );
        i = i + 1;
    }
    assert(out@ =~= as_before(edges@));
    out
}

/// Produce a topological sort of task IDs from edges. Tasks with no edges
/// are not included — callers should merge with the full task list.
/// Uses task_id as a stable tiebreaker for deterministic ordering: of the
/// tasks whose every predecessor is already placed, the smallest ID comes
/// next. Should petgraph find a cycle, the IDs come sorted.
pub fn topological_sort(edges: &[TaskEdge]) -> (r: Vec<i64>)
    requires
        edges@.len() < 0x7fff_ffff,
    ensures
        edges@.len() == 0 ==> r@.len() == 0,
        pairs_acyclic(task_pairs(edges@)) ==> {
            &&& is_kahn_order(dag_nodes(edges@), as_before(edges@), r@)
            &&& r@.no_duplicates()
            &&& forall|x: i64| r@.contains(x) <==> mentioned(edges@, x)
            &&& forall|k: int, i: int, j: int|
                #![trigger edges@[k], r@[i], r@[j]]
                0 <= k < edges@.len() && 0 <= i < r@.len() && 0 <= j < r@.len() && r@[i]
                    == edges@[k].from_task_id && r@[j] == edges@[k].to_task_id ==> i < j
        },
        !pairs_acyclic(task_pairs(edges@)) ==> strictly_increasing(r@) && forall|x: i64|
            r@.contains(x) <==> mentioned(edges@, x),
{
    if edges.len() == 0 {
        let r: Vec<i64> = Vec::new();
        proof {
            assert(r@ =~= dag_nodes(edges@));
        }
        return r;
    }
    let (graph, node_map) = build_dag(edges);
    let ghost nodes = dag_nodes(edges@);
    proof {
        lemma_dag_acyclic(edges@);
    }
    let mut ids: Vec<i64> = Vec::new();
    let mut p: usize = 0;
    let count = node_map.len();
    proof {
        lemma_map_len(nodes, node_map@);
    }
    while p < count
        invariant
            count == nodes.len(),
            graph_nodes(graph) == nodes,
            p <= nodes.len(),
            ids@ =~= nodes.take(p as int),
        decreases nodes.len() - p,
    {
        ids.push(graph_node_id(&graph, p));
        p = p + 1;
    }
    proof {
        assert(ids@ =~= nodes);
    }
    if graph_is_cyclic(&graph) {
        sorted_ids(&ids)
    } else {
        let before = edges_as_before(edges);
        let r = ordered_ids(&ids, &before);
        proof {
            assert(task_pairs(before@) =~= task_pairs(edges@));
            lemma_acyclic_order_lists_all(ids@, before@, r@);
            lemma_kahn_order_respects_edges(ids@, before@, r@);
            assert forall|k: int, i: int, j: int|
                #![trigger edges@[k], r@[i], r@[j]]
                0 <= k < edges@.len() && 0 <= i < r@.len() && 0 <= j < r@.len() && r@[i]
                    == edges@[k].from_task_id && r@[j] == edges@[k].to_task_id implies i < j by {
                assert(touches(edges@[k], edges@[k].from_task_id));
                assert(touches(edges@[k], edges@[k].to_task_id));
                lemma_dag_nodes_mentioned(edges@, edges@[k].from_task_id);
                lemma_dag_nodes_mentioned(edges@, edges@[k].to_task_id);
                assert(before@[k].from_task_id == edges@[k].from_task_id);
                assert(counts_as_before(ids@, before@[k]));
            }
        }
        r
    }
}

/// Edge `e` is a `before` edge between two of the tasks in `ids`.
pub open spec fn counts_as_before(ids: Seq<i64>, e: TaskEdge) -> bool {
    &&& e.edge_type == EdgeType::Before
    &&& ids.contains(e.from_task_id)
    &&& ids.contains(e.to_task_id)
}

/// Task `x` can come next after the tasks in `done`: it is one of `ids`,
/// not yet placed, and every `before` edge into it comes from a placed task.
pub open spec fn ready_after(ids: Seq<i64>, edges: Seq<TaskEdge>, done: Seq<i64>, x: i64) -> bool {
    &&& ids.contains(x)
    &&& !done.contains(x)
    &&& forall|k: int|
        0 <= k < edges.len() && counts_as_before(ids, #[trigger] edges[k]) && edges[k].to_task_id
            == x ==> done.contains(edges[k].from_task_id)
}

/// Every task of `r` could come next after the ones before it, and is the
/// smallest that could.
pub open spec fn kahn_prefix(ids: Seq<i64>, edges: Seq<TaskEdge>, r: Seq<i64>) -> bool {
    &&& forall|k: int| 0 <= k < r.len() ==> ready_after(ids, edges, r.take(k), #[trigger] r[k])
    &&& forall|k: int, x: i64|
        0 <= k < r.len() && #[trigger] ready_after(ids, edges, r.take(k), x) ==> r[k] <= x
}

/// `r` is the order Kahn's algorithm with a smallest-ID-first queue produces:
/// each task is the smallest one that can come next, and at the end no task
/// can come next.
pub open spec fn is_kahn_order(ids: Seq<i64>, edges: Seq<TaskEdge>, r: Seq<i64>) -> bool {
    &&& kahn_prefix(ids, edges, r)
    &&& forall|x: i64| !ready_after(ids, edges, r, x)
}

/// Distinct entries of `ids`, in first-seen order.
fn distinct_ids(ids: &[i64]) -> (nodes: Vec<i64>)
    ensures
        nodes@.no_duplicates(),
        forall|x: i64| nodes@.contains(x) <==> ids@.contains(x),
{
    let mut nodes: Vec<i64> = Vec::new();
    let mut i: usize = 0;
    while i < ids.len()
        invariant
            i <= ids@.len(),
            nodes@.no_duplicates(),
            forall|x: i64| nodes@.contains(x) <==> ids@.take(i as int).contains(x),
        decreases ids.len() - i,
    {
        let id = ids[i];
        let found = find_node(&nodes, id).is_some();
        proof {
            broadcast use vstd::seq_lib::lemma_seq_contains_after_push;
            assert(ids@.take(i + 1) =~= ids@.take(i as int).push(id));
        }
        if !found {
            proof {
                broadcast use vstd::seq_lib::lemma_seq_contains_after_push;
                assert forall|p: int, q: int|
                    0 <= p < nodes@.push(id).len() && 0 <= q < nodes@.push(id).len() && p != q implies
                    nodes@.push(id)[p] != nodes@.push(id)[q] by {
                    if p < nodes@.len() && q < nodes@.len() {
                    } else if p < nodes@.len() {
                        assert(nodes@.contains(nodes@[p]));
                    } else {
                        assert(nodes@.contains(nodes@[q]));
                    }
                }
            }
            nodes.push(id);
        }
        i = i + 1;
    }
    assert(ids@.take(ids@.len() as int) =~= ids@);
    nodes
}

/// Position of `x` in `nodes`, if present.
fn find_node(nodes: &Vec<i64>, x: i64) -> (r: Option<usize>)
    ensures
        match r {
            Some(i) => i < nodes@.len() && nodes@[i as int] == x,
            None => !nodes@.contains(x),
        },
{
    let mut i: usize = 0;
    while i < nodes.len()
        invariant
            i <= nodes@.len(),
            forall|k: int| 0 <= k < i ==> nodes@[k] != x,
        decreases nodes.len() - i,
    {
        if nodes[i] == x {
            return Some(i);
        }
        i = i + 1;
    }
    None
}

/// For every node, the positions of the sources of the `before` edges into
/// it (edges between two of the nodes).
pub open spec fn preds_match(nodes: Seq<i64>, edges: Seq<TaskEdge>, preds: Seq<Vec<usize>>) -> bool {
    &&& preds.len() == nodes.len()
    &&& forall|v: int, j: int|
        0 <= v < preds.len() && 0 <= j < preds[v]@.len() ==> {
            &&& #[trigger] preds[v]@[j] < nodes.len()
            &&& exists|k: int|
                0 <= k < edges.len() && counts_as_before(nodes, #[trigger] edges[k])
                    && edges[k].to_task_id == nodes[v] && edges[k].from_task_id
                    == nodes[preds[v]@[j] as int]
        }
    &&& forall|k: int, v: int|
        0 <= k < edges.len() && 0 <= v < nodes.len() && counts_as_before(nodes, #[trigger] edges[k])
            && edges[k].to_task_id == #[trigger] nodes[v] ==> exists|j: int|
            0 <= j < preds[v]@.len() && nodes[#[trigger] preds[v]@[j] as int]
                == edges[k].from_task_id
}

fn predecessor_lists(nodes: &Vec<i64>, edges: &[TaskEdge]) -> (preds: Vec<Vec<usize>>)
    requires
        nodes@.no_duplicates(),
    ensures
        preds_match(nodes@, edges@, preds@),
{
    let mut preds: Vec<Vec<usize>> = Vec::new();
    let mut v: usize = 0;
    while v < nodes.len()
        invariant
            v <= nodes@.len(),
            preds@.len() == v,
            forall|w: int| 0 <= w < v ==> (#[trigger] preds@[w])@.len() == 0,
        decreases nodes.len() - v,
    {
        preds.push(Vec::new());
        v = v + 1;
    }
    let mut k: usize = 0;
    while k < edges.len()
        invariant
            nodes@.no_duplicates(),
            k <= edges@.len(),
            preds@.len() == nodes@.len(),
            forall|v: int, j: int|
                0 <= v < preds@.len() && 0 <= j < preds@[v]@.len() ==> {
                    &&& #[trigger] preds@[v]@[j] < nodes@.len()
                    &&& exists|k2: int|
                        0 <= k2 < edges@.len() && counts_as_before(nodes@, #[trigger] edges@[k2])
                            && edges@[k2].to_task_id == nodes@[v] && edges@[k2].from_task_id
                            == nodes@[preds@[v]@[j] as int]
                },
            forall|k2: int, v: int|
                0 <= k2 < k && 0 <= v < nodes@.len() && counts_as_before(nodes@, #[trigger] edges@[k2])
                    && edges@[k2].to_task_id == #[trigger] nodes@[v] ==> exists|j: int|
                    0 <= j < preds@[v]@.len() && nodes@[#[trigger] preds@[v]@[j] as int]
                        == edges@[k2].from_task_id,
        decreases edges.len() - k,
    {
        let e = &edges[k];
        if e.edge_type.is_before() {
            let from = find_node(nodes, e.from_task_id);
            let to = find_node(nodes, e.to_task_id);
            match (from, to) {
                (Some(u), Some(t)) => {
                    let ghost old_preds = preds@;
                    let mut list = preds[t].clone();
                    assert(list@ == old_preds[t as int]@) by {
                        assert(list@ =~= old_preds[t as int]@);
                    }
                    list.push(u);
                    preds.set(t, list);
                    assert(preds@[t as int]@ == old_preds[t as int]@.push(u));
                    assert forall|w: int| 0 <= w < preds@.len() && w != t implies preds@[w] == old_preds[w] by {}
                    assert(counts_as_before(nodes@, edges@[k as int]));
                    assert forall|v: int, j: int|
                        0 <= v < preds@.len() && 0 <= j < preds@[v]@.len() implies {
                            &&& #[trigger] preds@[v]@[j] < nodes@.len()
                            &&& exists|k2: int|
                                0 <= k2 < edges@.len() && counts_as_before(nodes@, #[trigger] edges@[k2])
                                    && edges@[k2].to_task_id == nodes@[v] && edges@[k2].from_task_id
                                    == nodes@[preds@[v]@[j] as int]
                        } by {
                        if v == t && j == old_preds[t as int]@.len() {
                            assert(edges@[k as int].to_task_id == nodes@[v]);
                        } else {
                            assert(preds@[v]@[j] == old_preds[v]@[j]);
                        }
                    }
                    assert forall|k2: int, v: int|
                        0 <= k2 < k + 1 && 0 <= v < nodes@.len() && counts_as_before(nodes@, #[trigger] edges@[k2])
                            && edges@[k2].to_task_id == #[trigger] nodes@[v] implies exists|j: int|
                            0 <= j < preds@[v]@.len() && nodes@[#[trigger] preds@[v]@[j] as int]
                                == edges@[k2].from_task_id by {
                        if k2 == k {
                            assert(nodes@[v] == nodes@[t as int]);
                            assert(v == t);
                            assert(preds@[v]@[old_preds[t as int]@.len() as int] == u);
                        } else {
                            let j = choose|j: int|
                                0 <= j < old_preds[v]@.len() && nodes@[#[trigger] old_preds[v]@[j] as int]
                                    == edges@[k2].from_task_id;
                            assert(preds@[v]@[j] == old_preds[v]@[j]);
                        }
                    }
                },
                _ => {
                    assert(!counts_as_before(nodes@, edges@[k as int]));
                },
            }
        } else {
            assert(!counts_as_before(nodes@, edges@[k as int]));
        }
        k = k + 1;
    }
    preds
}

/// Number of `true` entries.
pub open spec fn count_true(s: Seq<bool>) -> nat
    decreases s.len(),
{
    if s.len() == 0 {
        0
    } else {
        count_true(s.drop_last()) + if s.last() {
            1nat
        } else {
            0nat
        }
    }
}

proof fn lemma_count_true_bound(s: Seq<bool>)
    ensures
        count_true(s) <= s.len(),
    decreases s.len(),
{
    if s.len() > 0 {
        lemma_count_true_bound(s.drop_last());
    }
}

proof fn lemma_count_true_none(s: Seq<bool>)
    requires
        forall|i: int| 0 <= i < s.len() ==> !(#[trigger] s[i]),
    ensures
        count_true(s) == 0,
    decreases s.len(),
{
    if s.len() > 0 {
        lemma_count_true_none(s.drop_last());
    }
}

proof fn lemma_count_true_set(s: Seq<bool>, i: int)
    requires
        0 <= i < s.len(),
        !s[i],
    ensures
        count_true(s.update(i, true)) == count_true(s) + 1,
    decreases s.len(),
{
    let t = s.update(i, true);
    if i == s.len() - 1 {
        assert(t.drop_last() =~= s.drop_last());
    } else {
        assert(t.drop_last() =~= s.drop_last().update(i, true));
        lemma_count_true_set(s.drop_last(), i);
    }
}

/// Whether every listed position is marked placed.
fn all_placed(list: &Vec<usize>, placed: &Vec<bool>) -> (b: bool)
    requires
        forall|j: int| 0 <= j < list@.len() ==> #[trigger] list@[j] < placed@.len(),
    ensures
        b == forall|j: int| 0 <= j < list@.len() ==> placed@[#[trigger] list@[j] as int],
{
    let mut j: usize = 0;
    while j < list.len()
        invariant
            forall|j2: int| 0 <= j2 < list@.len() ==> #[trigger] list@[j2] < placed@.len(),
            j <= list@.len(),
            forall|j2: int| 0 <= j2 < j ==> placed@[#[trigger] list@[j2] as int],
        decreases list.len() - j,
    {
        if !placed[list[j]] {
            return false;
        }
        j = j + 1;
    }
    true
}

/// The placed marks follow the tasks placed so far.
pub open spec fn marks_follow(nodes: Seq<i64>, placed: Seq<bool>, r: Seq<i64>) -> bool {
    &&& placed.len() == nodes.len()
    &&& forall|u: int| 0 <= u < nodes.len() ==> #[trigger] placed[u] == r.contains(nodes[u])
    &&& forall|k: int| 0 <= k < r.len() ==> nodes.contains(#[trigger] r[k])
}

/// Node `w` is not placed and all its predecessors are.
pub open spec fn can_go(preds: Seq<Vec<usize>>, placed: Seq<bool>, w: int) -> bool {
    &&& !placed[w]
    &&& forall|j: int| 0 <= j < preds[w]@.len() ==> placed[#[trigger] preds[w]@[j] as int]
}

proof fn lemma_ready_iff(
    nodes: Seq<i64>,
    edges: Seq<TaskEdge>,
    preds: Seq<Vec<usize>>,
    placed: Seq<bool>,
    r: Seq<i64>,
    w: int,
)
    requires
        preds_match(nodes, edges, preds),
        marks_follow(nodes, placed, r),
        0 <= w < nodes.len(),
    ensures
        ready_after(nodes, edges, r, nodes[w]) == can_go(preds, placed, w),
{
    if ready_after(nodes, edges, r, nodes[w]) {
        assert forall|j: int| 0 <= j < preds[w]@.len() implies placed[#[trigger] preds[w]@[j] as int] by {
            let k = choose|k: int|
                0 <= k < edges.len() && counts_as_before(nodes, #[trigger] edges[k])
                    && edges[k].to_task_id == nodes[w] && edges[k].from_task_id
                    == nodes[preds[w]@[j] as int];
            assert(r.contains(edges[k].from_task_id));
        }
    }
    if can_go(preds, placed, w) {
        assert forall|k: int|
            0 <= k < edges.len() && counts_as_before(nodes, #[trigger] edges[k]) && edges[k].to_task_id
                == nodes[w] implies r.contains(edges[k].from_task_id) by {
            let j = choose|j: int|
                0 <= j < preds[w]@.len() && nodes[#[trigger] preds[w]@[j] as int] == edges[k].from_task_id;
            assert(placed[preds[w]@[j] as int]);
        }
    }
}

proof fn lemma_same_contains(ids: Seq<i64>, nodes: Seq<i64>, edges: Seq<TaskEdge>, done: Seq<i64>, x: i64)
    requires
        forall|y: i64| nodes.contains(y) <==> ids.contains(y),
    ensures
        ready_after(ids, edges, done, x) == ready_after(nodes, edges, done, x),
{
    assert forall|k: int| 0 <= k < edges.len() implies counts_as_before(ids, #[trigger] edges[k])
        == counts_as_before(nodes, edges[k]) by {}
}

proof fn lemma_kahn_same(ids: Seq<i64>, nodes: Seq<i64>, edges: Seq<TaskEdge>, r: Seq<i64>)
    requires
        forall|y: i64| nodes.contains(y) <==> ids.contains(y),
        is_kahn_order(nodes, edges, r),
    ensures
        is_kahn_order(ids, edges, r),
{
    assert forall|k: int| 0 <= k < r.len() implies ready_after(ids, edges, r.take(k), #[trigger] r[k]) by {
        lemma_same_contains(ids, nodes, edges, r.take(k), r[k]);
    }
    assert forall|k: int, x: i64|
        0 <= k < r.len() && #[trigger] ready_after(ids, edges, r.take(k), x) implies r[k] <= x by {
        lemma_same_contains(ids, nodes, edges, r.take(k), x);
    }
    assert forall|x: i64| !ready_after(ids, edges, r, x) by {
        lemma_same_contains(ids, nodes, edges, r, x);
    }
}

/// Placing the smallest task that can come next keeps the order a Kahn prefix
/// and the marks in step.
proof fn lemma_extend(
    nodes: Seq<i64>,
    edges: Seq<TaskEdge>,
    placed: Seq<bool>,
    r: Seq<i64>,
    b: int,
)
    requires
        marks_follow(nodes, placed, r),
        kahn_prefix(nodes, edges, r),
        nodes.no_duplicates(),
        0 <= b < nodes.len(),
        ready_after(nodes, edges, r, nodes[b]),
        forall|y: i64| ready_after(nodes, edges, r, y) ==> nodes[b] <= y,
    ensures
        marks_follow(nodes, placed.update(b, true), r.push(nodes[b])),
        kahn_prefix(nodes, edges, r.push(nodes[b])),
{
    let x = nodes[b];
    let r2 = r.push(x);
    let p2 = placed.update(b, true);
    assert(r2.take(r.len() as int) =~= r);
    assert forall|k: int| 0 <= k < r.len() implies r2.take(k) == r.take(k) by {
        assert(r2.take(k) =~= r.take(k));
    }
    assert forall|u: int| 0 <= u < nodes.len() implies #[trigger] p2[u] == r2.contains(nodes[u]) by {
        if u == b {
            assert(r2[r.len() as int] == x);
        } else {
            assert(nodes[u] != x);
            if r2.contains(nodes[u]) {
                let k = choose|k: int| 0 <= k < r2.len() && r2[k] == nodes[u];
                assert(k < r.len());
                assert(r[k] == nodes[u]);
            }
            if r.contains(nodes[u]) {
                let k = choose|k: int| 0 <= k < r.len() && r[k] == nodes[u];
                assert(r2[k] == nodes[u]);
            }
        }
    }
    assert forall|k: int| 0 <= k < r2.len() implies nodes.contains(#[trigger] r2[k]) by {
        if k < r.len() {
            assert(r2[k] == r[k]);
        } else {
            assert(nodes[b] == r2[k]);
        }
    }
    assert forall|k: int| 0 <= k < r2.len() implies ready_after(nodes, edges, r2.take(k), #[trigger] r2[k]) by {
        if k < r.len() {
            assert(r2[k] == r[k]);
        }
    }
    assert forall|k: int, y: i64|
        0 <= k < r2.len() && #[trigger] ready_after(nodes, edges, r2.take(k), y) implies r2[k] <= y by {
        if k < r.len() {
            assert(r2[k] == r[k]);
        }
    }
}

/// Position of the smallest node that is not placed and whose predecessors
/// all are.
fn pick_next(nodes: &Vec<i64>, preds: &Vec<Vec<usize>>, placed: &Vec<bool>) -> (best: Option<usize>)
    requires
        preds@.len() == nodes@.len(),
        placed@.len() == nodes@.len(),
        forall|v: int, j: int|
            0 <= v < preds@.len() && 0 <= j < preds@[v]@.len() ==> #[trigger] preds@[v]@[j]
                < nodes@.len(),
    ensures
        match best {
            Some(b) => b < nodes@.len() && can_go(preds@, placed@, b as int) && forall|w: int|
                0 <= w < nodes@.len() && can_go(preds@, placed@, w) ==> nodes@[b as int]
                    <= #[trigger] nodes@[w],
            None => forall|w: int| 0 <= w < nodes@.len() ==> !can_go(preds@, placed@, w),
        },
{
    let n = nodes.len();
    let mut best: Option<usize> = None;
    let mut u: usize = 0;
    while u < n
        invariant
            n == nodes@.len(),
            u <= n,
            preds@.len() == n,
            placed@.len() == n,
            forall|v: int, j: int|
                0 <= v < preds@.len() && 0 <= j < preds@[v]@.len() ==> #[trigger] preds@[v]@[j]
                    < nodes@.len(),
            match best {
                Some(b) => b < u && can_go(preds@, placed@, b as int) && forall|w: int|
                    0 <= w < u && can_go(preds@, placed@, w) ==> nodes@[b as int] <= #[trigger] nodes@[w],
                None => forall|w: int| 0 <= w < u ==> !can_go(preds@, placed@, w),
            },
        decreases n - u,
    {
        if !placed[u] && all_placed(&preds[u], &placed) {
            match best {
                None => {
                    best = Some(u);
                },
                Some(b) => {
                    if nodes[u] < nodes[b] {
                        best = Some(u);
                    }
                },
            }
        }
        u = u + 1;
    }
    best
}

/// Deterministic topological sort using Kahn's algorithm with min-ID tiebreaker.
///
/// Only considers `before` edges between task IDs in `task_ids`. No ID
/// appears twice; when those edges form no cycle, every ID in `task_ids`
/// appears exactly once in the output (`lemma_acyclic_order_lists_all`),
/// while tasks on a cycle are left out.
pub fn ordered_ids(task_ids: &[i64], edges: &[TaskEdge]) -> (r: Vec<i64>)
    ensures
        is_kahn_order(task_ids@, edges@, r@),
{
    let nodes = distinct_ids(task_ids);
    let preds = predecessor_lists(&nodes, edges);
    let n = nodes.len();
    let mut placed: Vec<bool> = Vec::new();
    let mut i: usize = 0;
    while i < n
        invariant
            i <= n,
            placed@.len() == i,
            forall|u: int| 0 <= u < i ==> !(#[trigger] placed@[u]),
        decreases n - i,
    {
        placed.push(false);
        i = i + 1;
    }
    let mut r: Vec<i64> = Vec::new();
    proof {
        lemma_count_true_none(placed@);
    }
    loop
        invariant
            n == nodes@.len(),
            nodes@.no_duplicates(),
            forall|y: i64| nodes@.contains(y) <==> task_ids@.contains(y),
            preds_match(nodes@, edges@, preds@),
            marks_follow(nodes@, placed@, r@),
            count_true(placed@) == r@.len(),
            kahn_prefix(nodes@, edges@, r@),
        decreases n - r@.len(),
    {
        let best = pick_next(&nodes, &preds, &placed);
        proof {
            assert forall|w: int| 0 <= w < n implies #[trigger] ready_after(nodes@, edges@, r@, nodes@[w])
                == can_go(preds@, placed@, w) by {
                lemma_ready_iff(nodes@, edges@, preds@, placed@, r@, w);
            }
        }
        match best {
            None => {
                proof {
                    assert forall|x: i64| !ready_after(nodes@, edges@, r@, x) by {
                        if ready_after(nodes@, edges@, r@, x) {
                            let w = choose|w: int| 0 <= w < nodes@.len() && nodes@[w] == x;
                            assert(ready_after(nodes@, edges@, r@, nodes@[w]));
                        }
                    }
                    lemma_kahn_same(task_ids@, nodes@, edges@, r@);
                }
                return r;
            },
            Some(b) => {
                let x = nodes[b];
                proof {
                    lemma_count_true_set(placed@, b as int);
                    lemma_count_true_bound(placed@.update(b as int, true));
                    assert(ready_after(nodes@, edges@, r@, nodes@[b as int]));
                    assert forall|y: i64| ready_after(nodes@, edges@, r@, y) implies x <= y by {
                        let w = choose|w: int| 0 <= w < nodes@.len() && nodes@[w] == y;
                        assert(ready_after(nodes@, edges@, r@, nodes@[w]));
                    }
                    lemma_extend(nodes@, edges@, placed@, r@, b as int);
                }
                r.push(x);
                placed.set(b, true);
            },
        }
    }
}

/// No task appears twice in the order, and every task in it is one of the
/// given tasks.
pub proof fn lemma_kahn_order_distinct(ids: Seq<i64>, edges: Seq<TaskEdge>, r: Seq<i64>)
    requires
        is_kahn_order(ids, edges, r),
    ensures
        r.no_duplicates(),
        forall|k: int| 0 <= k < r.len() ==> ids.contains(#[trigger] r[k]),
{
    assert forall|p: int, q: int| 0 <= p < r.len() && 0 <= q < r.len() && p != q implies r[p]
        != r[q] by {
        if p < q {
            assert(ready_after(ids, edges, r.take(q), r[q]));
            assert(r.take(q)[p] == r[p]);
        } else {
            assert(ready_after(ids, edges, r.take(p), r[p]));
            assert(r.take(p)[q] == r[q]);
        }
    }
    assert forall|k: int| 0 <= k < r.len() implies ids.contains(#[trigger] r[k]) by {
        assert(ready_after(ids, edges, r.take(k), r[k]));
    }
}

/// In the order, each `before` edge between two of the given tasks has its
/// source ahead of its target.
pub proof fn lemma_kahn_order_respects_edges(ids: Seq<i64>, edges: Seq<TaskEdge>, r: Seq<i64>)
    requires
        is_kahn_order(ids, edges, r),
    ensures
        forall|k: int, i: int, j: int|
            #![trigger edges[k], r[i], r[j]]
            0 <= k < edges.len() && counts_as_before(ids, edges[k]) && 0 <= i < r.len() && 0 <= j < r.len()
                && r[i] == edges[k].from_task_id && r[j] == edges[k].to_task_id ==> i < j,
{
    lemma_kahn_order_distinct(ids, edges, r);
    assert forall|k: int, i: int, j: int|
        #![trigger edges[k], r[i], r[j]]
        0 <= k < edges.len() && counts_as_before(ids, edges[k]) && 0 <= i < r.len() && 0 <= j < r.len()
            && r[i] == edges[k].from_task_id && r[j] == edges[k].to_task_id implies i < j by {
        assert(ready_after(ids, edges, r.take(j), r[j]));
        assert(r.take(j).contains(edges[k].from_task_id));
        let q = choose|q: int| 0 <= q < r.take(j).len() && r.take(j)[q] == edges[k].from_task_id;
        assert(r[q] == r.take(j)[q]);
    }
}

/// The `before` edges between the given tasks all go from a lower rank to a
/// higher one, so they form no cycle.
pub open spec fn ranked_by(ids: Seq<i64>, edges: Seq<TaskEdge>, rank: spec_fn(i64) -> nat) -> bool {
    forall|k: int|
        0 <= k < edges.len() && counts_as_before(ids, #[trigger] edges[k]) ==> rank(
            edges[k].from_task_id,
        ) < rank(edges[k].to_task_id)
}

/// When the `before` edges between the given tasks form no cycle, every given
/// task appears in the order.
pub proof fn lemma_kahn_order_complete(
    ids: Seq<i64>,
    edges: Seq<TaskEdge>,
    r: Seq<i64>,
    rank: spec_fn(i64) -> nat,
)
    requires
        is_kahn_order(ids, edges, r),
        ranked_by(ids, edges, rank),
    ensures
        forall|x: i64| ids.contains(x) ==> r.contains(x),
{
    assert forall|x: i64| ids.contains(x) implies r.contains(x) by {
        lemma_ranked_placed(ids, edges, r, rank, rank(x), x);
    }
}

proof fn lemma_ranked_placed(
    ids: Seq<i64>,
    edges: Seq<TaskEdge>,
    r: Seq<i64>,
    rank: spec_fn(i64) -> nat,
    n: nat,
    x: i64,
)
    requires
        is_kahn_order(ids, edges, r),
        ranked_by(ids, edges, rank),
        ids.contains(x),
        rank(x) <= n,
    ensures
        r.contains(x),
    decreases n,
{
    if !r.contains(x) {
        assert forall|k: int|
            0 <= k < edges.len() && counts_as_before(ids, #[trigger] edges[k]) && edges[k].to_task_id
                == x implies r.contains(edges[k].from_task_id) by {
            assert(rank(edges[k].from_task_id) < rank(x));
            lemma_ranked_placed(ids, edges, r, rank, (n - 1) as nat, edges[k].from_task_id);
        }
        assert(ready_after(ids, edges, r, x));
    }
}

/// When the edges form no cycle (as `check_cycle` keeps them), the order
/// lists every given task exactly once.
pub proof fn lemma_acyclic_order_lists_all(ids: Seq<i64>, edges: Seq<TaskEdge>, r: Seq<i64>)
    requires
        is_kahn_order(ids, edges, r),
        pairs_acyclic(task_pairs(edges)),
    ensures
        r.no_duplicates(),
        forall|x: i64| r.contains(x) <==> ids.contains(x),
{
    let rank = choose|rank: spec_fn(i64) -> nat| ranks_pairs(task_pairs(edges), rank);
    assert forall|k: int| 0 <= k < edges.len() && counts_as_before(ids, #[trigger] edges[k]) implies rank(
        edges[k].from_task_id,
    ) < rank(edges[k].to_task_id) by {
        assert(task_pairs(edges)[k] == (edges[k].from_task_id, edges[k].to_task_id));
    }
    assert(ranked_by(ids, edges, rank));
    lemma_kahn_order_complete(ids, edges, r, rank);
    lemma_kahn_order_distinct(ids, edges, r);
    assert forall|x: i64| r.contains(x) implies ids.contains(x) by {
        let k = choose|k: int| 0 <= k < r.len() && r[k] == x;
    }
}

// -- Rewiring `before` chains --

/// The `before` edges that take a task's place when it leaves its chains:
/// with a successor (the task's outgoing `before` edge), each predecessor
/// (an incoming `before` edge) is joined to that successor; without one,
/// none. The caller deletes the task's `before` edges and inserts these.
pub fn splice_out_before(outgoing: Option<&TaskEdge>, incoming: &[TaskEdge]) -> (r: Vec<(i64, i64)>)
    ensures
        outgoing is None ==> r@.len() == 0,
        outgoing matches Some(succ) ==> {
            &&& r@.len() == incoming@.len()
            &&& forall|k: int| 0 <= k < r@.len() ==> #[trigger] r@[k] == (incoming@[k].from_task_id, succ.to_task_id)
        },
{
    let mut r: Vec<(i64, i64)> = Vec::new();
    if let Some(succ) = outgoing {
        let mut k: usize = 0;
        while k < incoming.len()
            invariant
                k <= incoming@.len(),
                r@.len() == k,
                forall|j: int| 0 <= j < k ==> #[trigger] r@[j] == (incoming@[j].from_task_id, succ.to_task_id),
            decreases incoming.len() - k,
        {
            r.push((incoming[k].from_task_id, succ.to_task_id));
            k = k + 1;
        }
    }
    r
}

/// How a task is put immediately before `target_id`: each incoming `before`
/// edge of the target (by ID) is replaced by one from its source to the
/// task. The caller then adds the edge from the task to the target.
pub fn insert_before_task(task_id: i64, incoming: &[TaskEdge]) -> (r: Vec<(i64, i64, i64)>)
    ensures
        r@.len() == incoming@.len(),
        forall|k: int| 0 <= k < r@.len() ==> #[trigger] r@[k] == (incoming@[k].id, incoming@[k].from_task_id, task_id),
{
    let mut r: Vec<(i64, i64, i64)> = Vec::new();
    let mut k: usize = 0;
    while k < incoming.len()
        invariant
            k <= incoming@.len(),
            r@.len() == k,
            forall|j: int| 0 <= j < k ==> #[trigger] r@[j] == (incoming@[j].id, incoming@[j].from_task_id, task_id),
        decreases incoming.len() - k,
    {
        r.push((incoming[k].id, incoming[k].from_task_id, task_id));
        k = k + 1;
    }
    r
}

/// How a task is put immediately after `anchor_id`: each successor the
/// anchor's outgoing `before` edges reach moves behind the task, as pairs of
/// (edge to remove, edge to add). The caller then adds the edge from the
/// anchor to the task.
pub fn insert_after_task(task_id: i64, anchor_id: i64, outgoing: &[TaskEdge]) -> (r: Vec<((i64, i64), (i64, i64))>)
    ensures
        r@.len() == outgoing@.len(),
        forall|k: int|
            0 <= k < r@.len() ==> #[trigger] r@[k] == (
                (anchor_id, outgoing@[k].to_task_id),
                (task_id, outgoing@[k].to_task_id),
            ),
{
    let mut r: Vec<((i64, i64), (i64, i64))> = Vec::new();
    let mut k: usize = 0;
    while k < outgoing.len()
        invariant
            k <= outgoing@.len(),
            r@.len() == k,
            forall|j: int|
                0 <= j < k ==> #[trigger] r@[j] == (
                    (anchor_id, outgoing@[j].to_task_id),
                    (task_id, outgoing@[j].to_task_id),
                ),
        decreases outgoing.len() - k,
    {
        let succ = outgoing[k].to_task_id;
        r.push(((anchor_id, succ), (task_id, succ)));
        k = k + 1;
    }
    r
}

} // verus!
