use lightgraph::storage::prop_store::Value;
use lightgraph::transaction::Database;

fn v(i: i64) -> Value {
    Value::Int(i)
}
fn s(t: &str) -> Value {
    Value::String(t.into())
}

#[test]
fn test_create_and_read_node() {
    let mut db = Database::memory();

    let mut tx = db.begin_write();
    let id = tx.create_node(&mut db, vec![1], 0);
    tx.commit(&mut db).unwrap();

    let rx = db.begin_read();
    let node = rx.get_node(&db, id).unwrap();
    assert_eq!(node.labels, vec![1]);
    assert!(node.is_alive(rx.snapshot()));
}

#[test]
fn test_create_node_with_properties() {
    let mut db = Database::memory();

    let mut tx = db.begin_write();
    let _id = tx.create_node(&mut db, vec![0], 0);
    tx.set_prop(0, "name", 0, Some(s("Alice")));
    tx.set_prop(0, "age", 0, Some(v(30)));
    tx.commit(&mut db).unwrap();

    assert_eq!(db.props.get_prop(0, "name", 0), Some(s("Alice")));
    assert_eq!(db.props.get_prop(0, "age", 0), Some(v(30)));
}

#[test]
fn test_create_edge_between_nodes() {
    let mut db = Database::memory();

    let mut tx = db.begin_write();
    let a = tx.create_node(&mut db, vec![0], 0);
    let b = tx.create_node(&mut db, vec![0], 1);
    let e = tx.create_edge(&mut db, a, b, 10, 100);
    tx.commit(&mut db).unwrap();

    let rx = db.begin_read();
    let edge = rx.get_edge(&db, e).unwrap();
    assert_eq!(edge.src, a);
    assert_eq!(edge.dst, b);
    assert_eq!(edge.etype, 10);
}

#[test]
fn test_snapshot_does_not_see_uncommitted() {
    let mut db = Database::memory();

    let mut tx = db.begin_write();
    let id = tx.create_node(&mut db, vec![1], 0);

    let rx = db.begin_read();
    assert!(rx.get_node(&db, id).is_none());
}

#[test]
fn test_snapshot_sees_committed_only() {
    let mut db = Database::memory();

    let mut tx1 = db.begin_write();
    let a = tx1.create_node(&mut db, vec![0], 0);
    tx1.commit(&mut db).unwrap();

    let mut tx2 = db.begin_write();
    let b = tx2.create_node(&mut db, vec![0], 1);

    let rx = db.begin_read();
    assert!(rx.get_node(&db, a).is_some());
    assert!(rx.get_node(&db, b).is_none());
}

#[test]
fn test_rollback_discards_writes() {
    let mut db = Database::memory();

    let mut tx = db.begin_write();
    let id = tx.create_node(&mut db, vec![0], 0);
    tx.rollback(&mut db);

    let rx = db.begin_read();
    assert!(rx.get_node(&db, id).is_none());
}

#[test]
fn test_rollback_does_not_affect_committed() {
    let mut db = Database::memory();

    let mut tx1 = db.begin_write();
    let a = tx1.create_node(&mut db, vec![0], 0);
    tx1.commit(&mut db).unwrap();

    let mut tx2 = db.begin_write();
    let _b = tx2.create_node(&mut db, vec![0], 1);
    tx2.rollback(&mut db);

    let rx = db.begin_read();
    assert!(rx.get_node(&db, a).is_some());
}

#[test]
fn test_atomic_node_edge_commit() {
    let mut db = Database::memory();

    let mut tx = db.begin_write();
    let alice = tx.create_node(&mut db, vec![0], 0);
    let bob = tx.create_node(&mut db, vec![0], 1);
    let knows = tx.create_edge(&mut db, alice, bob, 1, 100);
    tx.set_prop(0, "name", 0, Some(s("Alice")));
    tx.set_prop(0, "name", 1, Some(s("Bob")));
    tx.commit(&mut db).unwrap();

    let rx = db.begin_read();
    assert!(rx.get_node(&db, alice).is_some());
    assert!(rx.get_node(&db, bob).is_some());
    assert!(rx.get_edge(&db, knows).is_some());
    assert_eq!(db.props.get_prop(0, "name", 0), Some(s("Alice")));
    assert_eq!(db.props.get_prop(0, "name", 1), Some(s("Bob")));
}

#[test]
fn test_soft_delete_via_transaction() {
    let mut db = Database::memory();

    let mut tx = db.begin_write();
    let id = tx.create_node(&mut db, vec![0], 0);
    tx.commit(&mut db).unwrap();

    let mut tx = db.begin_write();
    tx.delete_node(id);
    tx.commit(&mut db).unwrap();

    let rx = db.begin_read();
    assert!(rx.get_node(&db, id).is_none());
}

#[test]
fn test_auto_rollback_on_drop() {
    let mut db = Database::memory();

    {
        let mut tx = db.begin_write();
        let _id = tx.create_node(&mut db, vec![0], 0);
    }

    let rx = db.begin_read();
    assert!(rx.get_node(&db, 0).is_none());
}

#[test]
fn commit_out_of_turn_times_out_and_applies_nothing() {
    let mut db = Database::memory();
    let mut first = db.begin_write();
    let mut second = db.begin_write();
    let id = second.create_node(&mut db, vec![5], 0);
    assert_eq!(second.commit(&mut db), Err("timeout"));
    assert!(db.nodes.get(id).is_none());
    first.rollback(&mut db);
    assert_eq!(second.commit(&mut db), Ok(()));
    assert!(db.nodes.get(id).is_some());
}

#[test]
fn read_transaction_commit_is_a_no_op() {
    let mut db = Database::memory();
    let mut rx = db.begin_read();
    assert_eq!(rx.commit(&mut db), Ok(()));
    assert_eq!(db.tx_manager.latest_committed(), 0);
    rx.rollback(&mut db);
    assert_eq!(db.tx_manager.latest_committed(), 0);
}

#[test]
fn second_commit_of_a_transaction_times_out() {
    let mut db = Database::memory();
    let mut tx = db.begin_write();
    tx.create_node(&mut db, vec![1], 0);
    assert_eq!(tx.commit(&mut db), Ok(()));
    assert_eq!(tx.commit(&mut db), Err("timeout"));
    tx.rollback(&mut db);
    assert_eq!(db.tx_manager.latest_committed(), 1);
}
