use lightgraph::transaction::Database;
use lightgraph::types::MAX_TX_ID;

#[test]
fn test_mvcc_initial_snapshot_is_zero() {
    let db = Database::memory();
    let rx = db.begin_read();
    assert_eq!(rx.snapshot(), 0);
}

#[test]
fn test_mvcc_snapshot_advances_after_commit() {
    let mut db = Database::memory();
    let snap0 = db.begin_read().snapshot();

    let mut tx = db.begin_write();
    tx.create_node(&mut db, vec![0], 0);
    tx.commit(&mut db).unwrap();

    let snap1 = db.begin_read().snapshot();
    assert!(snap1 > snap0);
}

#[test]
fn test_mvcc_old_snapshot_does_not_see_new_data() {
    let mut db = Database::memory();

    let rx = db.begin_read();
    let snap = rx.snapshot();
    drop(rx);

    let mut tx = db.begin_write();
    let id = tx.create_node(&mut db, vec![0], 0);
    tx.commit(&mut db).unwrap();

    let rx = db.begin_read();
    let snap_after = rx.snapshot();
    assert!(snap_after > snap);
    let n = db.nodes.get(id).unwrap();
    assert!(n.is_alive(snap_after));
    assert!(!n.is_alive(snap));
}

#[test]
fn test_mvcc_multiple_writers_serialized() {
    let mut db = Database::memory();

    let mut t1 = db.begin_write();
    let a = t1.create_node(&mut db, vec![1], 0);
    t1.commit(&mut db).unwrap();

    let mut t2 = db.begin_write();
    let b = t2.create_node(&mut db, vec![2], 0);
    t2.commit(&mut db).unwrap();

    let rx = db.begin_read();
    assert!(rx.get_node(&db, a).is_some());
    assert!(rx.get_node(&db, b).is_some());
}

#[test]
fn test_mvcc_delete_creates_new_version() {
    let mut db = Database::memory();

    let mut tx = db.begin_write();
    let id = tx.create_node(&mut db, vec![0], 0);
    tx.commit(&mut db).unwrap();

    let snap_before = db.begin_read().snapshot();

    let mut tx = db.begin_write();
    tx.delete_node(id);
    tx.commit(&mut db).unwrap();

    let n = db.nodes.get(id).unwrap();
    assert!(n.is_alive(snap_before));
    assert!(!n.is_alive(db.begin_read().snapshot()));
}

#[test]
fn test_mvcc_created_at_snapshot_is_visible() {
    let mut db = Database::memory();

    let mut tx = db.begin_write();
    let id = tx.create_node(&mut db, vec![0], 0);
    let created_tx = tx.tx_id();
    tx.commit(&mut db).unwrap();

    let n = db.nodes.get(id).unwrap();
    assert!(n.is_alive(created_tx));
    assert!(n.is_alive(created_tx + 1));
}

#[test]
fn test_mvcc_deleted_at_snapshot_is_invisible() {
    let mut db = Database::memory();

    let mut tx = db.begin_write();
    let id = tx.create_node(&mut db, vec![0], 0);
    let _created_tx = tx.tx_id();
    tx.commit(&mut db).unwrap();

    let mut tx = db.begin_write();
    tx.delete_node(id);
    let deleted_tx = tx.tx_id();
    tx.commit(&mut db).unwrap();

    let n = db.nodes.get(id).unwrap();
    assert!(n.is_alive(deleted_tx - 1));
    assert!(!n.is_alive(deleted_tx));
    assert!(!n.is_alive(deleted_tx + 1));
}

#[test]
fn test_mvcc_node_never_visible_before_creation() {
    let mut db = Database::memory();

    let mut tx = db.begin_write();
    let id = tx.create_node(&mut db, vec![0], 0);
    let created_tx = tx.tx_id();
    tx.commit(&mut db).unwrap();

    let n = db.nodes.get(id).unwrap();
    assert!(!n.is_alive(0));
    assert!(!n.is_alive(created_tx - 1));
    assert!(n.is_alive(created_tx));
}

#[test]
fn test_mvcc_alive_node_has_max_deleted_tx() {
    let mut db = Database::memory();
    let mut tx = db.begin_write();
    let id = tx.create_node(&mut db, vec![0], 0);
    tx.commit(&mut db).unwrap();

    let n = db.nodes.get(id).unwrap();
    assert_eq!(n.deleted_tx, MAX_TX_ID);
    assert!(n.is_alive(u64::MAX - 1));
}
