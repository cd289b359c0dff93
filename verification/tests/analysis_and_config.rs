use lightgraph::decimal::{push_decimal, push_zero_padded};
use lightgraph::distributed::{HashRing, NodeConfig, RaftNode, ShardInfo, ShardRouter};
use lightgraph::index::fulltext::analyzer::{is_cjk, CjkAnalyzer};
use lightgraph::index::vector::{DistanceMetric, HnswIndex, VectorIndex};
use lightgraph::query::{Direction, FilterTiming};
use lightgraph::snapshot::{
    snapshot_file_name, store_wal_files, Manifest, SnapshotManager, SnapshotReader, SnapshotWriter,
};
use lightgraph::storage::consistency::{Consistency, Durability};
use lightgraph::storage::{Edge, Node};
use lightgraph::types::{MAX_TX_ID, NULL_EDGE};

fn terms(text: &str) -> Vec<(String, u32)> {
    CjkAnalyzer::tokenize(text).into_iter().map(|t| (t.term, t.position)).collect()
}

#[test]
fn tokenize_empty_text() {
    assert!(CjkAnalyzer::tokenize("").is_empty());
}

#[test]
fn tokenize_latin_words_lowercased() {
    assert_eq!(terms("Hello, World!"), vec![("hello".to_string(), 0), ("world".to_string(), 1)]);
}

#[test]
fn tokenize_cjk_bigrams_and_singles() {
    let t: Vec<String> = CjkAnalyzer::tokenize("机械键盘").into_iter().map(|t| t.term).collect();
    assert_eq!(t, vec!["机械", "机", "械键", "械", "键盘", "键", "盘"]);
    let p: Vec<u32> = CjkAnalyzer::tokenize("机械键盘").into_iter().map(|t| t.position).collect();
    assert_eq!(p, vec![0, 1, 2, 3, 4, 5, 6]);
}

#[test]
fn tokenize_numbers_and_separators() {
    assert_eq!(terms("abc123 x-9"), vec![
        ("abc".to_string(), 0),
        ("123".to_string(), 1),
        ("x".to_string(), 2),
        ("9".to_string(), 3),
    ]);
}

#[test]
fn tokenize_cjk_ends_a_latin_word() {
    assert_eq!(terms("ab中文"), vec![
        ("ab".to_string(), 0),
        ("中文".to_string(), 1),
        ("中".to_string(), 2),
        ("文".to_string(), 3),
    ]);
    assert_eq!(terms("ABC中"), vec![("abc".to_string(), 0), ("中".to_string(), 1)]);
    assert_eq!(terms("中a"), vec![("中".to_string(), 0), ("a".to_string(), 1)]);
}

#[test]
fn tokenize_terms_are_non_empty() {
    for t in CjkAnalyzer::tokenize("Straße İ x9 ß 中") {
        assert!(!t.term.is_empty());
    }
    assert!(CjkAnalyzer::tokenize("  ,.;-!? ").is_empty());
}

#[test]
fn try_tokenize_agrees_with_tokenize() {
    let a = CjkAnalyzer::try_tokenize("こんにちは 2024").unwrap();
    let b = CjkAnalyzer::tokenize("こんにちは 2024");
    assert_eq!(a.len(), b.len());
    assert_eq!(a.last().unwrap().term, "2024");
}

#[test]
fn cjk_blocks() {
    assert!(is_cjk('中'));
    assert!(is_cjk('あ'));
    assert!(is_cjk('カ'));
    assert!(is_cjk('한'));
    assert!(!is_cjk('a'));
    assert!(!is_cjk('1'));
}

#[test]
fn decimal_rendering() {
    let mut s = String::new();
    push_decimal(&mut s, 0);
    push_decimal(&mut s, 12345);
    assert_eq!(s, "012345");
    let mut m = String::new();
    push_decimal(&mut m, u64::MAX);
    assert_eq!(m, "18446744073709551615");
    let mut p = String::new();
    push_zero_padded(&mut p, 7, 3);
    assert_eq!(p, "007");
}

#[test]
fn snapshot_file_names() {
    assert_eq!(snapshot_file_name(42), "snapshot-0042.bin");
    assert_eq!(snapshot_file_name(0), "snapshot-0000.bin");
    assert_eq!(snapshot_file_name(12345), "snapshot-12345.bin");
}

#[test]
fn test_manager_should_snapshot_rules() {
    let mut mgr = SnapshotManager::new("data", Manifest::empty());

    assert!(mgr.should_snapshot());

    let id = mgr.next_snapshot_id();
    mgr.record_snapshot(id);
    assert!(!mgr.should_snapshot());

    mgr.add_wal_bytes(600_000_000);
    assert!(mgr.should_snapshot());
}

#[test]
fn snapshot_manager_records_snapshots_and_merges() {
    let mut mgr = SnapshotManager::new("data", Manifest::empty());
    assert_eq!(mgr.next_snapshot_id(), 1);
    mgr.record_snapshot(1);
    assert_eq!(mgr.manifest().latest_snapshot_id, 1);
    assert_eq!(mgr.manifest().latest_snapshot_path, "snapshot-0001.bin");
    assert_eq!(mgr.next_snapshot_id(), 2);
    mgr.merge_wal("nodes.wal");
    assert!(mgr.manifest().merged_wal_files.contains(&"nodes.wal".to_string()));
    let files = store_wal_files();
    assert_eq!(files, vec!["nodes.wal", "edges.wal", "props.wal"]);
    assert_eq!(mgr.unmerged_wal(true, files.clone()), vec!["edges.wal", "props.wal"]);
    assert!(mgr.unmerged_wal(false, files).is_empty());
}

#[test]
fn snapshot_to_load_follows_manifest() {
    let mut m = Manifest::empty();
    assert_eq!(SnapshotReader::latest_to_load(&m), None);
    m.latest_snapshot_id = 3;
    assert_eq!(SnapshotReader::latest_to_load(&m), Some(3));
    assert_eq!(SnapshotReader::new("/d").data_dir(), "/d");
    assert_eq!(SnapshotWriter::new("/w").data_dir(), "/w");
}

#[test]
fn durability_levels() {
    assert_eq!(Durability::Immediate.crash_window_description(), "zero (every write is fsynced)");
    assert_eq!(
        Durability::Batch { interval_ms: 5, bytes: 65536 }.crash_window_description(),
        "at most 5ms of writes"
    );
    assert_eq!(Durability::Async.crash_window_description(), "unbounded on power loss; zero on process restart");
    assert_eq!(Durability::Immediate.expected_throughput(), "~500 ops/s");
    assert_eq!(Durability::Batch { interval_ms: 1, bytes: 1 }.expected_throughput(), "~40,000 ops/s");
    assert_eq!(Durability::Async.expected_throughput(), "~400,000+ ops/s");
    assert_eq!(Durability::Immediate.batch_timeout(), Some(0));
    assert_eq!(Durability::Batch { interval_ms: 9, bytes: 1 }.batch_timeout(), Some(9));
    assert_eq!(Durability::Async.batch_timeout(), None);
    assert_eq!(Durability::Immediate.batch_bytes(), 1);
    assert_eq!(Durability::Batch { interval_ms: 9, bytes: 77 }.batch_bytes(), 77);
    assert_eq!(Durability::Async.batch_bytes(), usize::MAX);
    assert!(Durability::Immediate.fsync_enabled());
    assert!(!Durability::Async.fsync_enabled());
    assert_eq!(Durability::default(), Durability::Batch { interval_ms: 5, bytes: 65536 });
}

#[test]
fn consistency_presets() {
    let c = Consistency::immediate();
    assert_eq!(c.durability, Durability::Immediate);
    assert_eq!(c.wal_channel_capacity, 1024);
    let b = Consistency::balanced();
    assert_eq!(b.durability, Durability::Batch { interval_ms: 5, bytes: 65536 });
    assert_eq!(b.wal_channel_capacity, 4096);
    let h = Consistency::high_throughput();
    assert_eq!(h.durability, Durability::Async);
    assert_eq!(h.wal_channel_capacity, 8192);
    let x = Consistency::batch(20, 1024);
    assert_eq!(x.durability, Durability::Batch { interval_ms: 20, bytes: 1024 });
    assert_eq!(x.wal_channel_capacity, 4096);
}

#[test]
fn cluster_and_index_descriptors() {
    let cfg = NodeConfig {
        node_id: 7,
        raft_addr: "a".into(),
        grpc_addr: "b".into(),
        data_dir: "d".into(),
        peers: vec![1, 2],
    };
    let raft = RaftNode::new(7, &cfg);
    assert!(!raft.is_leader());
    let _ring = HashRing::new(128);
    let _router = ShardRouter::new();
    let shard = ShardInfo { shard_id: 1, owner: 7, range_start: 0, range_end: 100 };
    assert_eq!(shard.clone().owner, 7);
    let idx = VectorIndex::new("emb", 4, DistanceMetric::Cosine, 16, 200);
    assert_eq!(idx.len(), 0);
    let _h = HnswIndex::new(4, 16, 200);
    assert_ne!(FilterTiming::Pre, FilterTiming::Adaptive);
    assert_ne!(Direction::Out, Direction::In);
}

#[test]
fn node_and_edge_visibility() {
    let mut n = Node::new(3, vec![1], 0, 5);
    assert_eq!(n.first_out, NULL_EDGE);
    assert_eq!(n.deleted_tx, MAX_TX_ID);
    assert!(!n.is_alive(4));
    assert!(n.is_alive(5));
    n.mark_deleted(8);
    assert!(n.is_alive(7));
    assert!(!n.is_alive(8));
    let mut e = Edge::new(1, 2, 3, 4, 5, 6);
    assert!(e.is_alive(6));
    e.mark_deleted(6);
    assert!(!e.is_alive(6));
}
