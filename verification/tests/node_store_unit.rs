use lightgraph::storage::node_store::NodeStore;
use lightgraph::types::MAX_TX_ID;

fn mk_store() -> NodeStore {
    NodeStore::with_capacity(64)
}

#[test]
fn test_alloc_monotonic() {
    let mut store = mk_store();
    assert_eq!(store.alloc_id(), 0);
    assert_eq!(store.alloc_id(), 1);
    assert_eq!(store.alloc_id(), 2);
}

#[test]
fn test_alloc_reuse_after_hard_delete() {
    let mut store = mk_store();
    let _id0 = store.insert_node(vec![0], 0, 1);
    let id1 = store.insert_node(vec![1], 1, 1);
    let _id2 = store.insert_node(vec![2], 2, 1);
    store.hard_delete(id1);
    assert_eq!(store.insert_node(vec![3], 3, 2), id1);
    assert_eq!(store.insert_node(vec![4], 4, 2), 3);
}

#[test]
fn node_store_test_insert_and_get() {
    let mut store = mk_store();
    let id = store.insert_node(vec![10, 20], 5, 1);
    let n = store.get(id).unwrap();
    assert_eq!(n.labels, vec![10, 20]);
    assert_eq!(n.deleted_tx, MAX_TX_ID);
}

#[test]
fn test_soft_delete_makes_node_invisible() {
    let mut store = mk_store();
    let id = store.insert_node(vec![0], 0, 1);
    store.soft_delete(id, 5);
    assert!(store.get(id).unwrap().is_alive(4));
    assert!(!store.get(id).unwrap().is_alive(5));
}

#[test]
fn test_hard_delete_removes_node() {
    let mut store = mk_store();
    let id = store.insert_node(vec![0], 0, 1);
    assert!(store.hard_delete(id));
    assert!(!store.contains(id));
}

#[test]
fn test_visible_nodes_respects_mvcc() {
    let mut store = mk_store();
    let n0 = store.insert_node(vec![0], 0, 1);
    let n1 = store.insert_node(vec![1], 1, 3);
    let n2 = store.insert_node(vec![2], 2, 5);
    store.soft_delete(n1, 10);
    let vis = store.visible_nodes(4);
    assert!(vis.contains(&n0));
    assert!(vis.contains(&n1));
    assert!(!vis.contains(&n2));
}

#[test]
fn test_alloc_id_direct_and_insert_with_id() {
    let mut store = mk_store();
    let id = store.alloc_id_direct();
    assert_eq!(id, 0);
    store.insert_with_id(id, vec![10], 99, 5);
    let n = store.get(id).unwrap();
    assert_eq!(n.labels, vec![10]);
    assert_eq!(n.props_row, 99);
    assert_eq!(n.created_tx, 5);
    assert!(store.contains(id));
}

#[test]
fn test_alloc_id_direct_reuses_freed_ids() {
    let mut store = mk_store();
    let a = store.insert_node(vec![0], 0, 1);
    let b = store.insert_node(vec![0], 0, 1);
    store.hard_delete(a);
    store.hard_delete(b);
    let recycled = store.alloc_id_direct();
    assert_eq!(recycled, a);
    store.insert_with_id(recycled, vec![1], 0, 2);
    assert!(store.contains(recycled));
}

#[test]
fn test_visible_count_respects_mvcc() {
    let mut store = mk_store();
    let n0 = store.insert_node(vec![0], 0, 1);
    let _n1 = store.insert_node(vec![1], 1, 3);
    let _n2 = store.insert_node(vec![2], 2, 5);
    store.soft_delete(n0, 10);
    assert_eq!(store.visible_count(4), 2);
    assert_eq!(store.visible_count(6), 3);
    assert_eq!(store.visible_count(10), 2);
    assert_eq!(store.visible_count(MAX_TX_ID - 1), 2);
}

#[test]
fn test_stats_accuracy() {
    let mut store = mk_store();
    assert_eq!(store.total_ever(), 0);
    assert_eq!(store.len(), 0);
    assert_eq!(store.next_fresh_id(), 0);
    assert_eq!(store.free_count(), 0);

    let id0 = store.insert_node(vec![0], 0, 1);
    assert_eq!(store.total_ever(), 1);
    assert_eq!(store.len(), 1);
    assert_eq!(store.next_fresh_id(), 1);

    store.insert_node(vec![0], 0, 1);
    assert_eq!(store.total_ever(), 2);
    assert_eq!(store.len(), 2);
    assert_eq!(store.next_fresh_id(), 2);

    store.hard_delete(id0);
    assert_eq!(store.total_ever(), 2);
    assert_eq!(store.len(), 1);
    assert_eq!(store.free_count(), 1);
    assert_eq!(store.next_fresh_id(), 2);
}

#[test]
fn test_in_memory_mode_no_wal() {
    let mut store = mk_store();
    let id = store.insert_node(vec![0], 0, 1);
    assert!(store.contains(id));
    store.update_labels(id, vec![1, 2]);
    store.update_props_row(id, 42);
    store.set_first_out(id, 100);
    store.set_first_in(id, 200);
    store.soft_delete(id, 10);
    assert!(!store.get(id).unwrap().is_alive(10));
    store.hard_delete(id);
    assert!(!store.contains(id));
    store.flush();
    assert_eq!(store.pending_wal_bytes(), 0);
}
