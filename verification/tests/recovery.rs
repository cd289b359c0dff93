use lightgraph::storage::edge_store::{EdgeRecord, EdgeStore};
use lightgraph::storage::node_store::{NodeRecord, NodeStore};
use lightgraph::storage::prop_store::{ColumnRecord, PropStore, Value};
use lightgraph::storage::WalOp;

fn node_records(ops: Vec<WalOp<lightgraph::storage::Node>>) -> Vec<NodeRecord> {
    ops.into_iter()
        .map(|op| match op {
            WalOp::Insert(id, n) => (1u8, id, Some(n)),
            WalOp::Delete(id) => (2u8, id, None),
        })
        .collect()
}

fn edge_records(ops: Vec<WalOp<lightgraph::storage::Edge>>) -> Vec<EdgeRecord> {
    ops.into_iter()
        .map(|op| match op {
            WalOp::Insert(id, e) => (1u8, id, Some(e)),
            WalOp::Delete(id) => (2u8, id, None),
        })
        .collect()
}

#[test]
fn node_store_replays_its_log() {
    let mut store = NodeStore::from_wal(None);
    let a = store.insert_node(vec![1], 0, 1);
    let b = store.insert_node(vec![2], 0, 1);
    let c = store.insert_node(vec![3], 0, 1);
    store.soft_delete(b, 10);
    store.hard_delete(c);
    store.update_labels(a, vec![99]);
    store.set_first_out(a, 12345);
    let recs = node_records(store.take_wal());
    assert!(store.take_wal().is_empty());

    let back = NodeStore::from_wal(Some(recs));
    assert_eq!(back.len(), 2);
    let na = back.get(a).unwrap();
    assert_eq!(na.labels, vec![99]);
    assert_eq!(na.first_out, 12345);
    assert!(!back.get(b).unwrap().is_alive(10));
    assert!(back.get(c).is_none());
    assert_eq!(back.free_count(), 1);
    assert_eq!(back.next_fresh_id(), 3);
}

#[test]
fn node_store_recovery_leaves_no_live_id_queued() {
    let mut store = NodeStore::from_wal(None);
    assert_eq!(store.insert_node(vec![1], 0, 1), 0);
    store.hard_delete(0);
    assert_eq!(store.insert_node(vec![2], 0, 1), 0);
    assert_eq!(store.free_count(), 0);
    let recs = node_records(store.take_wal());

    let mut back = NodeStore::from_wal(Some(recs));
    assert_eq!(back.len(), 1);
    assert_eq!(back.get(0).unwrap().labels, vec![2]);
    assert_eq!(back.free_count(), 0);
    assert_eq!(back.insert_node(vec![3], 0, 1), 1);
    assert_eq!(back.get(0).unwrap().labels, vec![2]);
}

#[test]
fn node_store_recovery_keeps_deleted_ids_in_order() {
    let recs: Vec<NodeRecord> = vec![
        (1, 0, Some(lightgraph::storage::Node::new(0, vec![1], 0, 1))),
        (1, 1, Some(lightgraph::storage::Node::new(1, vec![1], 0, 1))),
        (1, 2, Some(lightgraph::storage::Node::new(2, vec![1], 0, 1))),
        (2, 2, None),
        (2, 0, None),
        (2, 1, None),
        (1, 0, Some(lightgraph::storage::Node::new(0, vec![5], 0, 1))),
    ];
    let mut store = NodeStore::from_wal(Some(recs));
    assert_eq!(store.len(), 1);
    assert_eq!(store.free_count(), 2);
    assert_eq!(store.insert_node(vec![], 0, 1), 2);
    assert_eq!(store.insert_node(vec![], 0, 1), 1);
    assert_eq!(store.insert_node(vec![], 0, 1), 3);
}

#[test]
fn node_store_without_log_starts_at_zero() {
    let mut store = NodeStore::from_wal(None);
    assert_eq!(store.next_fresh_id(), 0);
    assert_eq!(store.insert_node(vec![], 0, 1), 0);
}

#[test]
fn node_store_skips_undecodable_and_unknown_records() {
    let recs: Vec<NodeRecord> = vec![(1, 4, None), (7, 5, None), (2, 9, None)];
    let store = NodeStore::from_wal(Some(recs));
    assert_eq!(store.len(), 0);
    assert_eq!(store.free_count(), 0);
    assert_eq!(store.next_fresh_id(), 1);
}

#[test]
fn edge_store_replays_its_log() {
    let mut store = EdgeStore::from_wal(None);
    let e1 = store.insert_edge(0, 1, 1, 0, 1);
    let e2 = store.insert_edge(1, 2, 2, 0, 1);
    store.soft_delete(e1, 50);
    store.hard_delete(e2);
    let recs = edge_records(store.take_wal());

    let back = EdgeStore::from_wal(Some(recs));
    assert_eq!(back.len(), 1);
    assert!(!back.get(e1).unwrap().is_alive(50));
    assert!(back.get(e2).is_none());
}

#[test]
fn edge_store_recovery_leaves_no_live_id_queued() {
    let mut store = EdgeStore::from_wal(None);
    let e = store.insert_edge(0, 1, 1, 0, 1);
    store.hard_delete(e);
    assert_eq!(store.insert_edge(2, 3, 1, 0, 1), e);
    let recs = edge_records(store.take_wal());

    let mut back = EdgeStore::from_wal(Some(recs));
    assert_eq!(back.len(), 1);
    assert_eq!(back.free_count(), 0);
    assert_ne!(back.insert_edge(4, 5, 1, 0, 1), e);
    assert_eq!(back.get(e).unwrap().src, 2);
}

#[test]
fn prop_store_replays_its_log() {
    let mut store = PropStore::from_wal(None);
    store.insert_row(0, &[
        ("name".into(), Value::String("Alice".into())),
        ("age".into(), Value::Int(30)),
    ]);
    store.insert_row(0, &[("name".into(), Value::String("Bob".into()))]);
    let recs: Vec<ColumnRecord> = store
        .take_wal()
        .into_iter()
        .map(|(l, n, c)| (l, n, c.into_values()))
        .collect();

    let back = PropStore::from_wal(Some(recs));
    assert_eq!(back.row_count(0), 2);
    assert_eq!(back.get_prop(0, "name", 0), Some(Value::String("Alice".into())));
    assert_eq!(back.get_prop(0, "age", 0), Some(Value::Int(30)));
    assert_eq!(back.get_prop(0, "name", 1), Some(Value::String("Bob".into())));
}
