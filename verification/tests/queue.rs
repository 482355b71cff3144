use route::{AlgorithmState, ExecutionType, HeapNode, NodeQueue};
use std::cmp::Ordering;
use std::str::FromStr;

#[test]
fn queue_pops_smallest_distance_first() {
    let mut queue = NodeQueue::new();
    queue.push(HeapNode { id: 7, distance: 30 });
    queue.push(HeapNode { id: 3, distance: 10 });
    queue.push(HeapNode { id: 5, distance: 20 });
    assert_eq!(queue.len(), 3);
    assert_eq!(queue.pop(), Some(HeapNode { id: 3, distance: 10 }));
    assert_eq!(queue.pop(), Some(HeapNode { id: 5, distance: 20 }));
    assert_eq!(queue.pop(), Some(HeapNode { id: 7, distance: 30 }));
    assert_eq!(queue.pop(), None);
    assert!(queue.is_empty());
}

#[test]
fn queue_breaks_ties_by_ascending_node_id() {
    let mut queue = NodeQueue::with_capacity(4);
    queue.push(HeapNode { id: 9, distance: 5 });
    queue.push(HeapNode { id: 2, distance: 5 });
    queue.push(HeapNode { id: 4, distance: 5 });
    queue.push(HeapNode { id: 1, distance: 6 });
    assert_eq!(queue.pop(), Some(HeapNode { id: 2, distance: 5 }));
    assert_eq!(queue.pop(), Some(HeapNode { id: 4, distance: 5 }));
    assert_eq!(queue.pop(), Some(HeapNode { id: 9, distance: 5 }));
    assert_eq!(queue.pop(), Some(HeapNode { id: 1, distance: 6 }));
}

#[test]
fn queue_keeps_duplicates() {
    let mut queue = NodeQueue::new();
    queue.push(HeapNode { id: 1, distance: 1 });
    queue.push(HeapNode { id: 1, distance: 1 });
    assert_eq!(queue.len(), 2);
    assert_eq!(queue.pop(), Some(HeapNode { id: 1, distance: 1 }));
    assert_eq!(queue.pop(), Some(HeapNode { id: 1, distance: 1 }));
    assert_eq!(queue.pop(), None);
}

#[test]
fn queue_sorts_many_entries() {
    let mut queue = NodeQueue::new();
    let mut seed: u32 = 12345;
    let mut expected: Vec<(u32, u32)> = Vec::new();
    for id in 0..200u32 {
        seed = seed.wrapping_mul(1664525).wrapping_add(1013904223);
        let distance = seed % 50;
        queue.push(HeapNode { id, distance });
        expected.push((distance, id));
    }
    expected.sort();
    for (distance, id) in expected {
        assert_eq!(queue.pop(), Some(HeapNode { id, distance }));
    }
    assert!(queue.is_empty());
}

#[test]
fn queue_clear_empties_it() {
    let mut queue = NodeQueue::new();
    queue.push(HeapNode { id: 1, distance: 1 });
    queue.clear();
    assert_eq!(queue.len(), 0);
    assert_eq!(queue.pop(), None);
}

#[test]
fn heap_node_greater_leaves_first() {
    let near = HeapNode { id: 8, distance: 1 };
    let far = HeapNode { id: 2, distance: 9 };
    assert!(near.is_before(&far));
    assert!(!far.is_before(&near));
    assert_eq!(near.partial_cmp(&far), Some(Ordering::Greater));
    assert_eq!(far.partial_cmp(&near), Some(Ordering::Less));
    assert_eq!(near.partial_cmp(&near), Some(Ordering::Equal));
    assert!(near > far);
    let low = HeapNode { id: 1, distance: 4 };
    let high = HeapNode { id: 3, distance: 4 };
    assert!(low.is_before(&high));
    assert_eq!(low.partial_cmp(&high), Some(Ordering::Greater));
}

#[test]
fn state_new_is_unreached_everywhere() {
    let state = AlgorithmState::new(5);
    assert_eq!(state.distances, vec![u32::MAX; 5]);
    assert_eq!(state.parent_nodes, vec![u32::MAX; 5]);
    assert_eq!(state.distances2, vec![u32::MAX; 5]);
    assert_eq!(state.parent_nodes2, vec![u32::MAX; 5]);
    assert!(state.queue.is_empty());
    assert!(state.queue2.is_empty());
}

#[test]
fn state_reset_restores_fresh_state() {
    let mut state = AlgorithmState::new(3);
    state.distances[1] = 7;
    state.parent_nodes[2] = 0;
    state.distances2[0] = 9;
    state.parent_nodes2[1] = 2;
    state.queue.push(HeapNode { id: 1, distance: 7 });
    state.queue2.push(HeapNode { id: 0, distance: 9 });
    state.reset();
    assert_eq!(state.distances, vec![u32::MAX; 3]);
    assert_eq!(state.parent_nodes, vec![u32::MAX; 3]);
    assert_eq!(state.distances2, vec![u32::MAX; 3]);
    assert_eq!(state.parent_nodes2, vec![u32::MAX; 3]);
    assert!(state.queue.is_empty());
    assert!(state.queue2.is_empty());
}

#[test]
fn execution_type_names() {
    assert_eq!(
        ExecutionType::get_strings(),
        vec!["Dijkstra", "BiDijkstra", "AStar", "ShortcutAStar"]
    );
}

#[test]
fn execution_type_parses_any_case() {
    assert_eq!(ExecutionType::parse("dijkstra"), Some(ExecutionType::Dijkstra));
    assert_eq!(ExecutionType::parse("DIJKSTRA"), Some(ExecutionType::Dijkstra));
    assert_eq!(ExecutionType::parse("BiDijkstra"), Some(ExecutionType::BiDijkstra));
    assert_eq!(ExecutionType::parse("AStar"), Some(ExecutionType::AStar));
    assert_eq!(ExecutionType::parse("ShortcutAStar"), Some(ExecutionType::ShortcutAStar));
    assert_eq!(ExecutionType::parse("a*"), None);
    assert_eq!(ExecutionType::parse(""), None);
    assert_eq!(ExecutionType::from_lowercase("astar"), Some(ExecutionType::AStar));
    assert_eq!(ExecutionType::from_lowercase("AStar"), None);
}

#[test]
fn execution_type_from_str() {
    assert_eq!(ExecutionType::from_str("bidijkstra"), Ok(ExecutionType::BiDijkstra));
    assert_eq!(ExecutionType::from_str("shortcutASTAR"), Ok(ExecutionType::ShortcutAStar));
    assert_eq!(ExecutionType::from_str("fastest"), Err(()));
}

#[test]
fn execution_type_flags() {
    assert!(ExecutionType::ShortcutAStar.uses_shortcut());
    assert!(!ExecutionType::AStar.uses_shortcut());
    assert!(!ExecutionType::Dijkstra.uses_shortcut());
    assert!(!ExecutionType::BiDijkstra.uses_shortcut());
    assert!(ExecutionType::AStar.uses_estimate());
    assert!(ExecutionType::ShortcutAStar.uses_estimate());
    assert!(!ExecutionType::Dijkstra.uses_estimate());
    assert!(!ExecutionType::BiDijkstra.uses_estimate());
}
