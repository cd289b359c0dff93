use lightgraph::storage::prop_store::Value;
use lightgraph::transaction::Database;
use lightgraph::types::MAX_TX_ID;

fn s(v: &str) -> Value {
    Value::String(v.into())
}
fn v(i: i64) -> Value {
    Value::Int(i)
}

#[test]
fn test_node_create_read() {
    let mut db = Database::memory();
    let mut tx = db.begin_write();
    let id = tx.create_node(&mut db, vec![1, 2], 0);
    tx.commit(&mut db).unwrap();
    drop(tx);

    let rx = db.begin_read();
    let n = rx.get_node(&db, id).unwrap();
    assert_eq!(n.labels, vec![1, 2]);
    assert_eq!(n.id, id);
    assert_eq!(n.deleted_tx, MAX_TX_ID);
}

#[test]
fn test_node_create_multiple() {
    let mut db = Database::memory();
    let mut tx = db.begin_write();
    let a = tx.create_node(&mut db, vec![0], 0);
    let b = tx.create_node(&mut db, vec![0], 1);
    let c = tx.create_node(&mut db, vec![1], 2);
    tx.commit(&mut db).unwrap();

    let rx = db.begin_read();
    assert!(rx.get_node(&db, a).is_some());
    assert!(rx.get_node(&db, b).is_some());
    assert!(rx.get_node(&db, c).is_some());
    assert_ne!(a, b);
    assert_ne!(b, c);
}

#[test]
fn test_node_update_labels() {
    let mut db = Database::memory();
    let mut tx = db.begin_write();
    let id = tx.create_node(&mut db, vec![0], 0);
    tx.commit(&mut db).unwrap();

    let mut tx = db.begin_write();
    tx.update_node_labels(id, vec![10, 20, 30]);
    tx.commit(&mut db).unwrap();

    let rx = db.begin_read();
    assert_eq!(rx.get_node(&db, id).unwrap().labels, vec![10, 20, 30]);
}

#[test]
fn test_node_update_labels_idempotent() {
    let mut db = Database::memory();
    let mut tx = db.begin_write();
    let id = tx.create_node(&mut db, vec![0], 0);
    tx.commit(&mut db).unwrap();

    for labels in [vec![1], vec![2, 3], vec![4, 5, 6]] {
        let mut tx = db.begin_write();
        tx.update_node_labels(id, labels.clone());
        tx.commit(&mut db).unwrap();
        let rx = db.begin_read();
        assert_eq!(rx.get_node(&db, id).unwrap().labels, labels);
    }
}

#[test]
fn test_node_delete_soft() {
    let mut db = Database::memory();
    let mut tx = db.begin_write();
    let id = tx.create_node(&mut db, vec![0], 0);
    tx.commit(&mut db).unwrap();

    let mut tx = db.begin_write();
    tx.delete_node(id);
    tx.commit(&mut db).unwrap();

    let rx = db.begin_read();
    assert!(rx.get_node(&db, id).is_none());
}

#[test]
fn test_node_delete_then_recreate() {
    let mut db = Database::memory();
    let mut tx = db.begin_write();
    let id = tx.create_node(&mut db, vec![0], 0);
    tx.commit(&mut db).unwrap();

    let mut tx = db.begin_write();
    tx.delete_node(id);
    tx.commit(&mut db).unwrap();

    let mut tx = db.begin_write();
    let new_id = tx.create_node(&mut db, vec![99], 0);
    tx.commit(&mut db).unwrap();

    let rx = db.begin_read();
    assert!(rx.get_node(&db, id).is_none());
    assert!(rx.get_node(&db, new_id).is_some());
    assert_eq!(rx.get_node(&db, new_id).unwrap().labels, vec![99]);
}

#[test]
fn test_node_mixed_ops_single_tx() {
    let mut db = Database::memory();
    let mut tx = db.begin_write();
    let keep = tx.create_node(&mut db, vec![0], 0);
    let update_me = tx.create_node(&mut db, vec![1], 1);
    let delete_me = tx.create_node(&mut db, vec![2], 2);
    tx.commit(&mut db).unwrap();

    let mut tx = db.begin_write();
    tx.create_node(&mut db, vec![3], 3);
    tx.update_node_labels(update_me, vec![99]);
    tx.delete_node(delete_me);
    tx.commit(&mut db).unwrap();

    let rx = db.begin_read();
    assert!(rx.get_node(&db, keep).is_some());
    assert_eq!(rx.get_node(&db, update_me).unwrap().labels, vec![99]);
    assert!(rx.get_node(&db, delete_me).is_none());
}

#[test]
fn test_edge_create_read() {
    let mut db = Database::memory();
    let mut tx = db.begin_write();
    let a = tx.create_node(&mut db, vec![0], 0);
    let b = tx.create_node(&mut db, vec![0], 1);
    let e = tx.create_edge(&mut db, a, b, 42, 100);
    tx.commit(&mut db).unwrap();

    let rx = db.begin_read();
    let edge = rx.get_edge(&db, e).unwrap();
    assert_eq!(edge.src, a);
    assert_eq!(edge.dst, b);
    assert_eq!(edge.etype, 42);
    assert_eq!(edge.props_row, 100);
    assert_eq!(edge.deleted_tx, MAX_TX_ID);
}

#[test]
fn test_edge_create_multiple() {
    let mut db = Database::memory();
    let mut tx = db.begin_write();
    let a = tx.create_node(&mut db, vec![0], 0);
    let b = tx.create_node(&mut db, vec![0], 1);
    let c = tx.create_node(&mut db, vec![0], 2);
    let e1 = tx.create_edge(&mut db, a, b, 1, 0);
    let e2 = tx.create_edge(&mut db, a, c, 2, 0);
    let e3 = tx.create_edge(&mut db, b, c, 3, 0);
    tx.commit(&mut db).unwrap();

    let rx = db.begin_read();
    assert!(rx.get_edge(&db, e1).is_some());
    assert!(rx.get_edge(&db, e2).is_some());
    assert!(rx.get_edge(&db, e3).is_some());
}

#[test]
fn test_edge_delete_soft() {
    let mut db = Database::memory();
    let mut tx = db.begin_write();
    let a = tx.create_node(&mut db, vec![0], 0);
    let b = tx.create_node(&mut db, vec![0], 1);
    let e = tx.create_edge(&mut db, a, b, 1, 0);
    tx.commit(&mut db).unwrap();

    let mut tx = db.begin_write();
    tx.delete_edge(e);
    tx.commit(&mut db).unwrap();

    let rx = db.begin_read();
    assert!(rx.get_edge(&db, e).is_none());
}

#[test]
fn test_edge_delete_does_not_affect_nodes() {
    let mut db = Database::memory();
    let mut tx = db.begin_write();
    let a = tx.create_node(&mut db, vec![0], 0);
    let b = tx.create_node(&mut db, vec![0], 1);
    let e = tx.create_edge(&mut db, a, b, 1, 0);
    tx.commit(&mut db).unwrap();

    let mut tx = db.begin_write();
    tx.delete_edge(e);
    tx.commit(&mut db).unwrap();

    let rx = db.begin_read();
    assert!(rx.get_node(&db, a).is_some());
    assert!(rx.get_node(&db, b).is_some());
    assert!(rx.get_edge(&db, e).is_none());
}

#[test]
fn test_crud_with_properties() {
    let mut db = Database::memory();
    let mut tx = db.begin_write();
    let _alice = tx.create_node(&mut db, vec![0], 0);
    tx.set_prop(0, "name", 0, Some(s("Alice")));
    tx.set_prop(0, "age", 0, Some(v(30)));
    tx.commit(&mut db).unwrap();

    assert_eq!(db.props.get_prop(0, "name", 0), Some(s("Alice")));
    assert_eq!(db.props.get_prop(0, "age", 0), Some(v(30)));

    let mut tx = db.begin_write();
    tx.set_prop(0, "age", 0, Some(v(31)));
    tx.set_prop(0, "city", 0, Some(s("NYC")));
    tx.commit(&mut db).unwrap();

    assert_eq!(db.props.get_prop(0, "age", 0), Some(v(31)));
    assert_eq!(db.props.get_prop(0, "city", 0), Some(s("NYC")));
    assert_eq!(db.props.get_prop(0, "name", 0), Some(s("Alice")));
}

#[test]
fn test_property_delete_by_setting_none() {
    let mut db = Database::memory();
    let mut tx = db.begin_write();
    tx.create_node(&mut db, vec![0], 0);
    tx.set_prop(0, "temp", 0, Some(s("remove_me")));
    tx.commit(&mut db).unwrap();

    assert_eq!(db.props.get_prop(0, "temp", 0), Some(s("remove_me")));

    let mut tx = db.begin_write();
    tx.set_prop(0, "temp", 0, None);
    tx.commit(&mut db).unwrap();

    assert_eq!(db.props.get_prop(0, "temp", 0), None);
}

#[test]
fn last_property_write_in_a_transaction_wins() {
    let mut db = Database::memory();
    let mut tx = db.begin_write();
    tx.set_prop(2, "k", 3, Some(v(1)));
    tx.set_prop(2, "k", 3, Some(v(2)));
    tx.set_prop(2, "k", 1, Some(v(9)));
    tx.commit(&mut db).unwrap();
    assert_eq!(db.props.get_prop(2, "k", 3), Some(v(2)));
    assert_eq!(db.props.get_prop(2, "k", 1), Some(v(9)));
    assert_eq!(db.props.get_prop(2, "k", 0), None);
}
