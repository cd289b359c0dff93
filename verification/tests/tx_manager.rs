use lightgraph::transaction::tx_manager::{commit_wait_step, CommitWait, TxManager, SPIN_LIMIT};

#[test]
fn test_read_snapshot() {
    let mut tm = TxManager::new();
    assert_eq!(tm.begin_read(), 0);
    let tx = tm.begin_write();
    tm.commit(tx).unwrap();
    assert_eq!(tm.begin_read(), tx);
}

#[test]
fn test_monotonic_tx_ids() {
    let mut tm = TxManager::new();
    let t1 = tm.begin_write();
    let t2 = tm.begin_write();
    let t3 = tm.begin_write();
    assert!(t1 < t2 && t2 < t3);
}

#[test]
fn test_commit_updates_snapshot() {
    let mut tm = TxManager::new();
    let snap = tm.begin_read();
    assert_eq!(snap, 0);

    let tx = tm.begin_write();
    tm.commit(tx).unwrap();
    assert!(tm.begin_read() > snap);
}

#[test]
fn test_rollback_advances_committed() {
    let mut tm = TxManager::new();
    let _snap = tm.latest_committed();

    let tx = tm.begin_write();
    tm.rollback(tx);

    assert_eq!(tm.latest_committed(), tx);
}

#[test]
fn test_ordered_commits() {
    let mut tm = TxManager::new();
    let t1 = tm.begin_write();
    let t2 = tm.begin_write();
    let t3 = tm.begin_write();

    tm.commit(t1).unwrap();
    tm.commit(t2).unwrap();
    tm.commit(t3).unwrap();

    assert_eq!(tm.latest_committed(), 3);
}

#[test]
fn test_rollback_unblocks_others() {
    let mut tm = TxManager::new();
    let t1 = tm.begin_write();
    let t2 = tm.begin_write();
    let t3 = tm.begin_write();

    tm.rollback(t1);
    tm.commit(t2).unwrap();
    tm.commit(t3).unwrap();
    assert_eq!(tm.latest_committed(), 3);
}

#[test]
fn test_commit_timeout_on_gap() {
    let mut tm = TxManager::new();
    let _t1 = tm.begin_write();
    let t2 = tm.begin_write();

    assert!(tm.commit(t2).is_err());
}

#[test]
fn commit_out_of_turn_reports_timeout_and_changes_nothing() {
    let mut tm = TxManager::new();
    let _t1 = tm.begin_write();
    let t2 = tm.begin_write();
    assert_eq!(tm.commit(t2), Err("timeout"));
    assert_eq!(tm.latest_committed(), 0);
}

#[test]
fn committing_twice_times_out() {
    let mut tm = TxManager::new();
    let t1 = tm.begin_write();
    assert_eq!(tm.commit(t1), Ok(()));
    assert_eq!(tm.commit(t1), Err("timeout"));
    assert_eq!(tm.latest_committed(), t1);
}

#[test]
fn commit_wait_backs_off_then_gives_up() {
    assert_eq!(commit_wait_step(0), (1, CommitWait::Spin));
    assert_eq!(commit_wait_step(14), (15, CommitWait::Spin));
    assert_eq!(commit_wait_step(15), (16, CommitWait::SpinBurst));
    assert_eq!(commit_wait_step(255), (256, CommitWait::Yield));
    assert_eq!(commit_wait_step(SPIN_LIMIT - 1), (SPIN_LIMIT, CommitWait::Yield));
    assert_eq!(commit_wait_step(SPIN_LIMIT), (SPIN_LIMIT + 1, CommitWait::GiveUp));
}

#[test]
fn successive_tickets_are_consecutive_and_leave_the_counter() {
    let mut tm = TxManager::new();
    let first = tm.begin_write();
    let ids: Vec<u64> = (0..5).map(|_| tm.begin_write()).collect();
    assert_eq!(ids, vec![first + 1, first + 2, first + 3, first + 4, first + 5]);
    assert_eq!(tm.latest_committed(), 0);
    assert_eq!(tm.begin_read(), tm.latest_committed());
}
