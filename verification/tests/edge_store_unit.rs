use lightgraph::storage::edge_store::EdgeStore;
use lightgraph::types::{EdgeId, MAX_TX_ID, NULL_EDGE};

fn mk_store() -> EdgeStore {
    EdgeStore::with_capacity(64)
}

#[test]
fn edge_store_test_insert_and_get() {
    let mut store = mk_store();
    let id = store.insert_edge(0, 1, 42, 0, 1);

    let e = store.get(id).unwrap();
    assert_eq!(e.id, id);
    assert_eq!(e.src, 0);
    assert_eq!(e.dst, 1);
    assert_eq!(e.etype, 42);
    assert_eq!(e.created_tx, 1);
    assert_eq!(e.deleted_tx, MAX_TX_ID);
    assert!(e.is_alive(1));
}

#[test]
fn test_get_missing_returns_none() {
    let store = mk_store();
    assert!(store.get(999).is_none());
}

#[test]
fn test_hard_delete_removes_edge() {
    let mut store = mk_store();
    let id = store.insert_edge(0, 1, 0, 0, 1);
    assert!(store.contains(id));
    assert!(store.hard_delete(id));
    assert!(!store.contains(id));
    assert!(store.get(id).is_none());
}

#[test]
fn test_hard_delete_recycles_id() {
    let mut store = mk_store();
    let n = 5;
    let mut ids: Vec<EdgeId> = Vec::new();
    for _ in 0..n {
        ids.push(store.insert_edge(0, 1, 0, 0, 1));
    }
    for &id in &ids {
        store.hard_delete(id);
    }

    for _i in 0..n {
        let id = store.insert_edge(0, 1, 0, 0, 2);
        assert!(id < n as EdgeId, "Expected recycled ID, got {}", id);
    }
}

#[test]
fn test_insert_many() {
    let mut store = mk_store();
    for i in 0..1000u64 {
        let id = store.insert_edge(i, i + 1, 1, i as u32, 1);
        assert_eq!(id, i);
    }
    assert_eq!(store.len(), 1000);
}

#[test]
fn test_soft_delete_hides_edge() {
    let mut store = mk_store();
    let id = store.insert_edge(0, 1, 0, 0, 1);

    store.soft_delete(id, 5);
    let e = store.get(id).unwrap();
    assert!(e.is_alive(4));
    assert!(!e.is_alive(5));
    assert!(!e.is_alive(10));
}

#[test]
fn test_mvcc_edge_visible_to_creating_tx() {
    let mut store = mk_store();
    let id = store.insert_edge(0, 1, 0, 0, 10);
    assert!(store.get(id).unwrap().is_alive(10));
    assert!(!store.get(id).unwrap().is_alive(9));
}

#[test]
fn test_link_into_empty_chain() {
    let mut store = mk_store();
    let eid = store.insert_edge(0, 1, 0, 0, 1);

    let mut src_out = NULL_EDGE;
    let mut dst_in = NULL_EDGE;

    store.link_into_chains(eid, &mut src_out, &mut dst_in);

    assert_eq!(src_out, eid);
    assert_eq!(dst_in, eid);

    let edge = store.get(eid).unwrap();
    assert_eq!(edge.next_out, NULL_EDGE);
    assert_eq!(edge.next_in, NULL_EDGE);
}

#[test]
fn test_link_two_edges_into_chain() {
    let mut store = mk_store();
    let e1 = store.insert_edge(0, 1, 0, 0, 1);
    let e2 = store.insert_edge(0, 2, 0, 0, 1);

    let mut src_out = NULL_EDGE;
    let mut dst1_in = NULL_EDGE;
    let mut dst2_in = NULL_EDGE;

    store.link_into_chains(e1, &mut src_out, &mut dst1_in);
    store.link_into_chains(e2, &mut src_out, &mut dst2_in);

    assert_eq!(src_out, e2);
    assert_eq!(store.get(e2).unwrap().next_out, e1);
    assert_eq!(store.get(e1).unwrap().next_out, NULL_EDGE);
}

#[test]
fn test_out_edges_traversal() {
    let mut store = mk_store();
    let e1 = store.insert_edge(0, 1, 0, 0, 1);
    let e2 = store.insert_edge(0, 2, 0, 0, 1);
    let e3 = store.insert_edge(0, 3, 0, 0, 1);

    let mut src_out = NULL_EDGE;
    let mut ignored = NULL_EDGE;

    store.link_into_chains(e3, &mut src_out, &mut ignored);
    store.link_into_chains(e2, &mut src_out, &mut ignored);
    store.link_into_chains(e1, &mut src_out, &mut ignored);

    let chain = store.out_edges(src_out);
    assert_eq!(chain, vec![e1, e2, e3]);
}

#[test]
fn test_in_edges_traversal() {
    let mut store = mk_store();
    let e1 = store.insert_edge(1, 0, 0, 0, 1);
    let e2 = store.insert_edge(2, 0, 0, 0, 1);

    let mut ignored = NULL_EDGE;
    let mut dst_in = NULL_EDGE;

    store.link_into_chains(e2, &mut ignored, &mut dst_in);
    store.link_into_chains(e1, &mut ignored, &mut dst_in);

    let chain = store.in_edges(dst_in);
    assert_eq!(chain, vec![e1, e2]);
}

#[test]
fn test_traversal_skips_deleted_edges() {
    let mut store = mk_store();
    let e1 = store.insert_edge(0, 1, 0, 0, 1);
    let e2 = store.insert_edge(0, 2, 0, 0, 1);
    let e3 = store.insert_edge(0, 3, 0, 0, 1);

    let mut src_out = NULL_EDGE;
    let mut ignored = NULL_EDGE;

    store.link_into_chains(e3, &mut src_out, &mut ignored);
    store.link_into_chains(e2, &mut src_out, &mut ignored);
    store.link_into_chains(e1, &mut src_out, &mut ignored);

    store.soft_delete(e2, 100);

    let visible = store.out_edges_visible(src_out, 50);
    assert_eq!(visible, vec![e1, e2, e3]);
    assert!(!store.get(e2).unwrap().is_alive(100));
}

#[test]
fn test_unlink_middle_of_chain() {
    let mut store = mk_store();
    let e1 = store.insert_edge(0, 1, 0, 0, 1);
    let e2 = store.insert_edge(0, 2, 0, 0, 1);
    let e3 = store.insert_edge(0, 3, 0, 0, 1);

    let mut src_out = NULL_EDGE;
    let mut dummy_dst = NULL_EDGE;

    store.link_into_chains(e3, &mut src_out, &mut dummy_dst);
    store.link_into_chains(e2, &mut src_out, &mut dummy_dst);
    store.link_into_chains(e1, &mut src_out, &mut dummy_dst);

    store.unlink_from_chains(e2, &mut src_out, &mut dummy_dst);

    let chain = store.out_edges(src_out);
    assert_eq!(chain, vec![e1, e3]);
}

#[test]
fn test_unlink_head_of_chain() {
    let mut store = mk_store();
    let e1 = store.insert_edge(0, 1, 0, 0, 1);
    let e2 = store.insert_edge(0, 2, 0, 0, 1);

    let mut src_out = NULL_EDGE;
    let mut dummy_dst = NULL_EDGE;

    store.link_into_chains(e2, &mut src_out, &mut dummy_dst);
    store.link_into_chains(e1, &mut src_out, &mut dummy_dst);

    store.unlink_from_chains(e1, &mut src_out, &mut dummy_dst);

    let chain = store.out_edges(src_out);
    assert_eq!(chain, vec![e2]);
}

#[test]
fn unlink_of_missing_edge_reports_false_and_keeps_heads() {
    let mut store = mk_store();
    let mut out = 7;
    let mut inn = 9;
    assert!(!store.unlink_from_chains(42, &mut out, &mut inn));
    assert_eq!((out, inn), (7, 9));
}
