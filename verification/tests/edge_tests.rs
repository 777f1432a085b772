use ranger::error::RangerError;
use ranger::models::{EdgeType, TaskEdge};
use ranger::ops::edge::{
    build_dag, check_cycle, insert_after_task, insert_before_task, ordered_ids, splice_out_before, topological_sort,
};
use ranger::timestamp::Timestamp;

fn edge(id: i64, from: i64, to: i64, edge_type: EdgeType) -> TaskEdge {
    TaskEdge {
        id,
        from_task_id: from,
        to_task_id: to,
        edge_type,
        created_at: Timestamp { seconds: 1_700_000_000 + id, nanoseconds: 0 },
    }
}

#[test]
fn build_dag_empty() {
    let (graph, node_map) = build_dag(&[]);
    assert_eq!(graph.node_count(), 0);
    assert!(node_map.is_empty());
}

#[test]
fn build_dag_numbers_tasks_by_first_mention() {
    let edges = vec![edge(1, 30, 10, EdgeType::Blocks), edge(2, 10, 20, EdgeType::Before)];
    let (graph, node_map) = build_dag(&edges);
    assert_eq!(graph.node_count(), 3);
    assert_eq!(graph.edge_count(), 2);
    assert_eq!(node_map[&30], 0);
    assert_eq!(node_map[&10], 1);
    assert_eq!(node_map[&20], 2);
}

#[test]
fn topological_sort_empty() {
    let result = topological_sort(&[]);
    assert!(result.is_empty());
}

#[test]
fn topological_sort_linear_chain() {
    let edges = vec![edge(1, 3, 2, EdgeType::Blocks), edge(2, 2, 1, EdgeType::Blocks)];
    assert_eq!(topological_sort(&edges), vec![3, 2, 1]);
}

#[test]
fn topological_sort_puts_sources_first() {
    let edges = vec![edge(1, 1, 2, EdgeType::Before), edge(2, 1, 3, EdgeType::Blocks), edge(3, 3, 2, EdgeType::Before)];
    let order = topological_sort(&edges);
    assert_eq!(order.len(), 3);
    let at = |x: i64| order.iter().position(|&y| y == x).unwrap();
    assert!(at(1) < at(2));
    assert!(at(1) < at(3));
    assert!(at(3) < at(2));
}

#[test]
fn topological_sort_breaks_ties_by_task_id() {
    let edges = vec![edge(1, 3, 4, EdgeType::Blocks), edge(2, 1, 2, EdgeType::Before)];
    assert_eq!(topological_sort(&edges), vec![1, 2, 3, 4]);
    let edges = vec![edge(1, 9, 2, EdgeType::Blocks), edge(2, 5, 2, EdgeType::Blocks), edge(3, 7, 1, EdgeType::Before)];
    assert_eq!(topological_sort(&edges), vec![5, 7, 1, 9, 2]);
}

#[test]
fn topological_sort_of_a_cycle_sorts_ids() {
    let edges = vec![edge(1, 5, 2, EdgeType::Blocks), edge(2, 2, 5, EdgeType::Blocks), edge(3, 2, 9, EdgeType::Blocks)];
    assert_eq!(topological_sort(&edges), vec![2, 5, 9]);
}

#[test]
fn ordered_ids_empty() {
    assert!(ordered_ids(&[], &[]).is_empty());
}

#[test]
fn ordered_ids_no_edges_sorts_by_id() {
    let result = ordered_ids(&[30, 10, 20], &[]);
    assert_eq!(result, vec![10, 20, 30]);
}

#[test]
fn ordered_ids_respects_before_edges() {
    let edges = vec![edge(1, 3, 1, EdgeType::Before)];
    assert_eq!(ordered_ids(&[1, 2, 3], &edges), vec![2, 3, 1]);
}

#[test]
fn ordered_ids_ignores_blocks_edges() {
    let edges = vec![edge(1, 2, 1, EdgeType::Blocks)];
    assert_eq!(ordered_ids(&[1, 2], &edges), vec![1, 2], "blocks edges should not affect order");
}

#[test]
fn ordered_ids_filters_to_given_ids() {
    let edges = vec![edge(1, 1, 2, EdgeType::Before)];
    assert_eq!(ordered_ids(&[2, 3], &edges), vec![2, 3]);
}

#[test]
fn ordered_ids_lists_each_id_once() {
    let edges = vec![edge(1, 4, 2, EdgeType::Before), edge(2, 2, 7, EdgeType::Before)];
    assert_eq!(ordered_ids(&[7, 2, 4, 2, 1], &edges), vec![1, 4, 2, 7]);
}

#[test]
fn ordered_ids_leaves_out_a_cycle() {
    let edges = vec![edge(1, 1, 2, EdgeType::Before), edge(2, 2, 1, EdgeType::Before)];
    assert_eq!(ordered_ids(&[1, 2, 3], &edges), vec![3]);
}

#[test]
fn check_cycle_accepts_a_new_branch() {
    let edges = vec![edge(1, 1, 2, EdgeType::Blocks)];
    assert!(check_cycle(&edges, 2, 3).is_ok());
    assert!(check_cycle(&edges, 1, 3).is_ok());
}

#[test]
fn check_cycle_detects_direct_indirect_and_self_loops() {
    let edges = vec![edge(1, 1, 2, EdgeType::Blocks), edge(2, 2, 3, EdgeType::Before)];
    for (from, to) in [(2, 1), (3, 1), (4, 4)] {
        match check_cycle(&edges, from, to) {
            Err(e) => {
                assert!(matches!(e, RangerError::CycleDetected));
                assert!(e.message().contains("cycle"));
            }
            Ok(()) => panic!("{from} -> {to} closes a cycle"),
        }
    }
}

#[test]
fn splice_joins_predecessors_to_successor() {
    let succ = edge(1, 5, 9, EdgeType::Before);
    let incoming = vec![edge(2, 3, 5, EdgeType::Before), edge(3, 4, 5, EdgeType::Before)];
    assert_eq!(splice_out_before(Some(&succ), &incoming), vec![(3, 9), (4, 9)]);
    assert!(splice_out_before(None, &incoming).is_empty());
}

#[test]
fn insert_before_rewires_predecessors() {
    let incoming = vec![edge(7, 3, 5, EdgeType::Before), edge(8, 4, 5, EdgeType::Before)];
    assert_eq!(insert_before_task(6, &incoming), vec![(7, 3, 6), (8, 4, 6)]);
}

#[test]
fn insert_after_moves_successors_behind_task() {
    let outgoing = vec![edge(7, 1, 5, EdgeType::Before)];
    assert_eq!(insert_after_task(6, 1, &outgoing), vec![((1, 5), (6, 5))]);
}
