//! The node store: nodes keyed by id in a concurrent map, with recycled ids
//! queued for reuse and an optional write-ahead log outbox.
//!
//! A store opened from a log (`NodeStore::from_wal`) records every mutation
//! as a log record in its outbox; the application drains the outbox with
//! `take_wal`, frames and writes the records. Replaying the log rebuilds
//! the store (see `lemma_recovery`).

use vstd::prelude::*;
use crossbeam::queue::SegQueue;
use dashmap::DashMap;
use crate::storage::backing::{
    id_queue_contents, id_queue_new, id_queue_pop, id_queue_push, node_map_contains,
    node_map_contents, node_map_entries, node_map_get, node_map_insert, node_map_len,
    node_map_remove, node_map_with_capacity,
};
use crate::storage::{ops_view, replay_ops, apply_op, lemma_replay_concat, lemma_without, remove_id, without, Node, NodeView, WalOp};
use crate::types::{EdgeId, LabelId, NodeId, TxId, MAX_TX_ID, NULL_EDGE};

verus! {

/// A counter that wraps at 2^64, as the store's atomic counters do.
pub open spec fn wrap_count(n: nat) -> u64 {
    (n % 0x1_0000_0000_0000_0000) as u64
}

/// The node that a fresh insert creates.
pub open spec fn fresh_node(id: NodeId, labels: Seq<LabelId>, props_row: u32, created_tx: TxId) -> NodeView {
    NodeView {
        id,
        labels,
        first_out: NULL_EDGE,
        first_in: NULL_EDGE,
        props_row,
        created_tx,
        deleted_tx: MAX_TX_ID,
    }
}

/// An outbox after one more record, when a log is attached.
pub open spec fn logged<V>(w: Option<Seq<WalOp<V>>>, op: WalOp<V>) -> Option<Seq<WalOp<V>>> {
    match w {
        Some(s) => Some(s.push(op)),
        None => None,
    }
}

/// An outbox after a batch of records, when a log is attached.
pub open spec fn logged_all<V>(w: Option<Seq<WalOp<V>>>, ops: Seq<WalOp<V>>) -> Option<Seq<WalOp<V>>> {
    match w {
        Some(s) => Some(s + ops),
        None => None,
    }
}

/// One replayed log record: its opcode (1 insert, 2 delete, others are
/// skipped), the record id, and the decoded node of an insert (`None` when
/// the payload did not decode).
pub type NodeRecord = (u8, NodeId, Option<Node>);

/// What replaying records from an empty store builds: the node map, the
/// ids recycled by deletes (an id inserted again leaves the list, so no
/// live id waits for reuse), the number of inserts, and the largest id
/// inserted.
pub open spec fn replay_state(recs: Seq<NodeRecord>) -> (Map<NodeId, NodeView>, Seq<NodeId>, nat, u64)
    decreases recs.len(),
{
    if recs.len() == 0 {
        (Map::empty(), Seq::empty(), 0, 0)
    } else {
        let (m, f, c, mx) = replay_state(recs.drop_last());
        let (op, id, n) = recs.last();
        if op == 1 {
            match n {
                Some(node) => (m.insert(id, node@), without(f, id), c + 1, if mx < id { id } else { mx }),
                None => (m, f, c, mx),
            }
        } else if op == 2 {
            if m.contains_key(id) {
                (m.remove(id), f.push(id), c, mx)
            } else {
                (m, f, c, mx)
            }
        } else {
            (m, f, c, mx)
        }
    }
}

/// The log records that a sequence of replayed records stands for.
pub open spec fn record_ops(recs: Seq<NodeRecord>) -> Seq<WalOp<NodeView>>
    decreases recs.len(),
{
    if recs.len() == 0 {
        Seq::empty()
    } else {
        let pre = record_ops(recs.drop_last());
        let (op, id, n) = recs.last();
        if op == 1 {
            match n {
                Some(node) => pre.push(WalOp::Insert(id, node@)),
                None => pre,
            }
        } else if op == 2 {
            pre.push(WalOp::Delete(id))
        } else {
            pre
        }
    }
}

/// The replayed records that writing log records produces: inserts under
/// opcode 1, deletes under opcode 2.
pub open spec fn to_records(ops: Seq<WalOp<Node>>) -> Seq<NodeRecord> {
    ops.map_values(|o: WalOp<Node>| match o {
        WalOp::Insert(id, n) => (1u8, id, Some(n)),
        WalOp::Delete(id) => (2u8, id, None),
    })
}

/// Replaying records builds a sound id state: the recycled ids are
/// distinct, none of them is live, and every recycled or live id is at most
/// the largest id inserted.
pub proof fn lemma_replay_sound(recs: Seq<NodeRecord>)
    ensures
        replay_state(recs).1.no_duplicates(),
        forall|x: NodeId| #[trigger] replay_state(recs).1.contains(x)
            ==> !replay_state(recs).0.contains_key(x) && x <= replay_state(recs).3,
        forall|x: NodeId| #[trigger] replay_state(recs).0.contains_key(x) ==> x <= replay_state(recs).3,
    decreases recs.len(),
{
    if recs.len() > 0 {
        lemma_replay_sound(recs.drop_last());
        let (m, f, c, mx) = replay_state(recs.drop_last());
        let (op, id, n) = recs.last();
        if op == 1 {
            match n {
                Some(node) => {
                    lemma_without(f, id);
                    let m2 = m.insert(id, node@);
                    let f2 = without(f, id);
                    let mx2 = if mx < id { id } else { mx };
                    assert(replay_state(recs) == (m2, f2, c + 1, mx2));
                    assert forall|x: NodeId| #[trigger] f2.contains(x) implies !m2.contains_key(x) && x <= mx2 by {
                        assert(f.contains(x));
                    }
                },
                None => {},
            }
        } else if op == 2 {
            if m.contains_key(id) {
                let g = f.push(id);
                assert(replay_state(recs) == (m.remove(id), g, c, mx));
                assert forall|x: NodeId| g.contains(x) <==> f.contains(x) || x == id by {
                    if g.contains(x) {
                        let k = choose|k: int| 0 <= k < g.len() && g[k] == x;
                        if k < f.len() {
                            assert(f[k] == x);
                        }
                    }
                    if f.contains(x) {
                        let k = choose|k: int| 0 <= k < f.len() && f[k] == x;
                        assert(g[k] == x);
                    }
                    if x == id {
                        assert(g[f.len() as int] == x);
                    }
                }
                assert forall|a: int, b: int| 0 <= a < b < g.len() implies g[a] != g[b] by {
                    if b == f.len() {
                        assert(f.contains(f[a]));
                    }
                }
                assert forall|x: NodeId| #[trigger] g.contains(x) implies !m.remove(id).contains_key(x) && x <= mx by {
                    if x != id {
                        assert(f.contains(x));
                    }
                }
            }
        }
    }
}

pub struct NodeStore {
    nodes: DashMap<NodeId, Node>,
    next_id: u64,
    free_list: SegQueue<NodeId>,
    free_count: u64,
    total_ever: u64,
    wal: Option<Vec<WalOp<Node>>>,
    wal_base: Ghost<Map<NodeId, NodeView>>,
}

impl View for NodeStore {
    type V = Map<NodeId, NodeView>;

    closed spec fn view(&self) -> Map<NodeId, NodeView> {
        node_map_contents(self.nodes)
    }
}

impl NodeStore {
    /// Recycled ids, in the order they will be handed out again.
    pub closed spec fn free_ids(&self) -> Seq<NodeId> {
        id_queue_contents(self.free_list)
    }

    /// The next never-used id.
    pub closed spec fn next_fresh(&self) -> u64 {
        self.next_id
    }

    /// Inserts ever made, wrapping at 2^64.
    pub closed spec fn total(&self) -> u64 {
        self.total_ever
    }

    /// The records waiting in the log outbox, or `None` for a store without
    /// a log.
    pub closed spec fn wal_ops(&self) -> Option<Seq<WalOp<NodeView>>> {
        match self.wal {
            Some(v) => Some(ops_view(v@)),
            None => None,
        }
    }

    /// The node map as of the last drain of the outbox.
    pub closed spec fn wal_base(&self) -> Map<NodeId, NodeView> {
        self.wal_base@
    }

    pub closed spec fn wf(&self) -> bool {
        &&& self@.dom().finite()
        &&& self.free_count == wrap_count(self.free_ids().len())
        &&& match self.wal_ops() {
            Some(ops) => replay_ops(self.wal_base(), ops) == self@,
            None => true,
        }
    }

    /// The ids of nodes visible at snapshot `tx`.
    pub open spec fn visible_ids(&self, tx: TxId) -> Set<NodeId> {
        Set::new(|id: NodeId| self@.contains_key(id) && self@[id].alive_at(tx))
    }

    /// The ids of nodes deleted before `tx`, which no snapshot from `tx` on
    /// can see.
    pub open spec fn dead_ids(&self, tx: TxId) -> Set<NodeId> {
        Set::new(|id: NodeId| self@.contains_key(id) && self@[id].deleted_tx < tx)
    }

    /// Id allocation: the front recycled id when there is one, else the next
    /// fresh id, whose counter advances (wrapping).
    pub open spec fn allocates(&self, post: &NodeStore, id: NodeId) -> bool {
        if self.free_ids().len() > 0 {
            &&& id == self.free_ids()[0]
            &&& post.free_ids() == self.free_ids().drop_first()
            &&& post.next_fresh() == self.next_fresh()
        } else {
            &&& id == self.next_fresh()
            &&& post.free_ids() == self.free_ids()
            &&& post.next_fresh() == vstd::wrapping::u64_specs::wrapping_add(self.next_fresh(), 1)
        }
    }

    /// Everything but the node map and the outbox is as in `pre`.
    pub open spec fn keeps_counters(&self, pre: &NodeStore) -> bool {
        &&& self.free_ids() == pre.free_ids()
        &&& self.next_fresh() == pre.next_fresh()
        &&& self.total() == pre.total()
        &&& self.wal_base() == pre.wal_base()
    }

    /// Ids are handed out soundly: recycled ids are distinct, unused and
    /// below the fresh counter, and every stored id is below the counter.
    pub open spec fn alloc_sound(&self) -> bool {
        &&& self.free_ids().no_duplicates()
        &&& forall|i: int| 0 <= i < self.free_ids().len() ==> !self@.contains_key(#[trigger] self.free_ids()[i])
            && self.free_ids()[i] < self.next_fresh()
        &&& forall|id: NodeId| #[trigger] self@.contains_key(id) ==> id < self.next_fresh()
    }

    // ── Constructors ─────────────────────────────────────────────────

    /// An empty in-memory store (no log), sized for a million nodes.
    pub fn new() -> (s: Self)
        ensures
            s.wf(),
            s@ == Map::<NodeId, NodeView>::empty(),
            s.free_ids() == Seq::<NodeId>::empty(),
            s.next_fresh() == 0,
            s.total() == 0,
            s.wal_ops() is None,
    {
        Self::with_capacity(1_000_000)
    }

    /// An empty in-memory store (no log) with room for `cap` nodes.
    pub fn with_capacity(cap: usize) -> (s: Self)
        ensures
            s.wf(),
            s@ == Map::<NodeId, NodeView>::empty(),
            s.free_ids() == Seq::<NodeId>::empty(),
            s.next_fresh() == 0,
            s.total() == 0,
            s.wal_ops() is None,
    {
        let s = NodeStore {
            nodes: node_map_with_capacity(cap),
            next_id: 0,
            free_list: id_queue_new(),
            free_count: 0,
            total_ever: 0,
            wal: None,
            wal_base: Ghost(Map::empty()),
        };
        assert(s@.dom() =~= Set::<NodeId>::empty());
        s
    }

    /// A store rebuilt from its log, with the log attached. `records` holds
    /// the log's records in order, or `None` when there is no log yet
    /// (an empty store then starts at id 0). Inserts put their node,
    /// deletes of present ids remove the node and recycle the id; the fresh
    /// counter resumes after the largest id inserted.
    pub fn from_wal(records: Option<Vec<NodeRecord>>) -> (s: Self)
        requires
            records matches Some(r) ==> replay_state(r@).3 < u64::MAX,
        ensures
            s.wf(),
            s.alloc_sound(),
            s.wal_ops() == Some(Seq::<WalOp<NodeView>>::empty()),
            s.wal_base() == s@,
            match records {
                Some(r) => {
                    let st = replay_state(r@);
                    &&& s@ == st.0
                    &&& s.free_ids() == st.1
                    &&& s.total() == wrap_count(st.2)
                    &&& s.next_fresh() == st.3 + 1
                },
                None => {
                    &&& s@ == Map::<NodeId, NodeView>::empty()
                    &&& s.free_ids() == Seq::<NodeId>::empty()
                    &&& s.total() == 0
                    &&& s.next_fresh() == 0
                },
            },
    {
        let mut s = Self::new();
        match records {
            None => {},
            Some(recs) => {
                let mut max_id: u64 = 0;
                let mut free: Vec<NodeId> = Vec::new();
                let mut i: usize = 0;
                let n = recs.len();
                while i < n
                    invariant
                        n == recs@.len(),
                        0 <= i <= n,
                        s.wf(),
                        s.wal_ops() is None,
                        s.free_ids() == Seq::<NodeId>::empty(),
                        s.free_count == 0,
                        s.next_id == 0,
                        replay_state(recs@).3 < u64::MAX,
                        ({
                            let st = replay_state(recs@.take(i as int));
                            &&& s@ == st.0
                            &&& free@ == st.1
                            &&& s.total() == wrap_count(st.2)
                            &&& max_id == st.3
                        }),
                    decreases n - i,
                {
                    proof {
                        assert(recs@.take(i + 1).drop_last() =~= recs@.take(i as int));
                        Self::lemma_replay_max_prefix(recs@, i + 1);
                    }
                    let (op, id, node) = &recs[i];
                    if *op == 1 {
                        match node {
                            Some(nd) => {
                                if max_id < *id {
                                    max_id = *id;
                                }
                                s.total_ever = s.total_ever.wrapping_add(1);
                                let copy = nd.duplicate();
                                node_map_insert(&mut s.nodes, *id, copy);
                                free = remove_id(&free, *id);
                            },
                            None => {},
                        }
                    } else if *op == 2 {
                        match node_map_remove(&mut s.nodes, *id) {
                            Some(_) => {
                                free.push(*id);
                            },
                            None => {},
                        }
                    }
                    i += 1;
                }
                assert(recs@.take(n as int) =~= recs@);
                proof {
                    lemma_replay_sound(recs@);
                }
                let mut j: usize = 0;
                while j < free.len()
                    invariant
                        0 <= j <= free@.len(),
                        s.wf(),
                        s.wal_ops() is None,
                        s.free_ids() == free@.take(j as int),
                        s.free_count == j,
                        s@ == replay_state(recs@).0,
                        s.total() == wrap_count(replay_state(recs@).2),
                    decreases free@.len() - j,
                {
                    proof {
                        assert(free@.take(j + 1) =~= free@.take(j as int).push(free@[j as int]));
                    }
                    id_queue_push(&mut s.free_list, free[j]);
                    s.free_count = s.free_count + 1;
                    j += 1;
                }
                assert(free@.take(free@.len() as int) =~= free@);
                s.next_id = max_id + 1;
                proof {
                    assert forall|k: int| 0 <= k < s.free_ids().len() implies !s@.contains_key(#[trigger] s.free_ids()[k])
                        && s.free_ids()[k] < s.next_fresh() by {
                        assert(free@.contains(free@[k]));
                    }
                    assert(s.free_ids().no_duplicates());
                    assert forall|id: NodeId| #[trigger] s@.contains_key(id) implies id < s.next_fresh() by {
                        assert(replay_state(recs@).0.contains_key(id));
                    }
                    assert(s.alloc_sound());
                }
            },
        }
        s.wal = Some(Vec::new());
        s.wal_base = Ghost(s@);
        proof {
            assert(ops_view(Seq::<WalOp<Node>>::empty()) =~= Seq::<WalOp<NodeView>>::empty());
        }
        s
    }

    /// The largest id inserted by a prefix of the records is at most that
    /// of all the records.
    proof fn lemma_replay_max_prefix(recs: Seq<NodeRecord>, k: int)
        requires
            0 <= k <= recs.len(),
        ensures
            replay_state(recs.take(k)).3 <= replay_state(recs).3,
        decreases recs.len() - k,
    {
        if k < recs.len() {
            Self::lemma_replay_max_prefix(recs, k + 1);
            assert(recs.take(k + 1).drop_last() =~= recs.take(k));
        } else {
            assert(recs.take(k) =~= recs);
        }
    }

    // ── Log outbox ───────────────────────────────────────────────────

    fn log(&mut self, op: WalOp<Node>)
        ensures
            final(self).wal_ops() == logged(old(self).wal_ops(), op@),
            final(self)@ == old(self)@,
            final(self).keeps_counters(old(self)),
            final(self).free_count == old(self).free_count,
    {
        if let Some(v) = &mut self.wal {
            v.push(op);
        }
        proof {
            match old(self).wal {
                Some(v) => {
                    assert(ops_view(v@.push(op)) =~= ops_view(v@).push(op@));
                },
                None => {},
            }
        }
    }

    /// Hand out the records waiting in the outbox, oldest first, and empty
    /// it. Replaying them onto the map as of the previous drain gives the
    /// current map.
    pub fn take_wal(&mut self) -> (ops: Vec<WalOp<Node>>)
        requires
            old(self).wf(),
        ensures
            final(self).wf(),
            final(self)@ == old(self)@,
            final(self).free_ids() == old(self).free_ids(),
            final(self).next_fresh() == old(self).next_fresh(),
            final(self).total() == old(self).total(),
            match old(self).wal_ops() {
                Some(pending) => {
                    &&& ops_view(ops@) == pending
                    &&& replay_ops(old(self).wal_base(), ops_view(ops@)) == old(self)@
                    &&& final(self).wal_ops() == Some(Seq::<WalOp<NodeView>>::empty())
                    &&& final(self).wal_base() == old(self)@
                },
                None => ops@.len() == 0 && final(self).wal_ops() is None,
            },
    {
        let out = match self.wal.take() {
            Some(v) => {
                self.wal = Some(Vec::new());
                self.wal_base = Ghost(node_map_contents(self.nodes));
                v
            },
            None => Vec::new(),
        };
        proof {
            assert(ops_view(Seq::<WalOp<Node>>::empty()) =~= Seq::<WalOp<NodeView>>::empty());
        }
        out
    }

    /// Store a copy of `node` under `id` and log it.
    fn put(&mut self, id: NodeId, node: Node)
        requires
            old(self).wf(),
        ensures
            final(self).wf(),
            final(self)@ == old(self)@.insert(id, node@),
            final(self).keeps_counters(old(self)),
            final(self).wal_ops() == logged(old(self).wal_ops(), WalOp::Insert(id, node@)),
    {
        let copy = node.duplicate();
        node_map_insert(&mut self.nodes, id, copy);
        self.log(WalOp::Insert(id, node));
        proof {
            match self.wal_ops() {
                Some(ops) => {
                    assert(ops.drop_last() =~= old(self).wal_ops()->0);
                },
                None => {},
            }
        }
    }

    // ── Id allocation ────────────────────────────────────────────────

    /// Allocate an id: the front recycled id when there is one, else the
    /// next fresh id.
    pub fn alloc_id(&mut self) -> (id: NodeId)
        requires
            old(self).wf(),
        ensures
            final(self).wf(),
            old(self).allocates(final(self), id),
            final(self)@ == old(self)@,
            final(self).total() == old(self).total(),
            final(self).wal_ops() == old(self).wal_ops(),
            final(self).wal_base() == old(self).wal_base(),
    {
        match id_queue_pop(&mut self.free_list) {
            Some(id) => {
                self.free_count = self.free_count.wrapping_sub(1);
                id
            },
            None => {
                let id = self.next_id;
                self.next_id = self.next_id.wrapping_add(1);
                id
            },
        }
    }

    /// Allocate an id without inserting a node, for a transaction that
    /// inserts it on commit.
    pub fn alloc_id_direct(&mut self) -> (id: NodeId)
        requires
            old(self).wf(),
        ensures
            final(self).wf(),
            old(self).allocates(final(self), id),
            final(self)@ == old(self)@,
            final(self).total() == old(self).total(),
            final(self).wal_ops() == old(self).wal_ops(),
            final(self).wal_base() == old(self).wal_base(),
            old(self).alloc_sound() && old(self).next_fresh() < u64::MAX ==> {
                &&& !old(self)@.contains_key(id)
                &&& id < final(self).next_fresh()
                &&& final(self).alloc_sound()
            },
    {
        self.alloc_id()
    }

    // ── CRUD ─────────────────────────────────────────────────────────

    /// Insert a node under an id allocated beforehand.
    pub fn insert_with_id(&mut self, id: NodeId, labels: Vec<LabelId>, props_row: u32, tx_id: TxId)
        requires
            old(self).wf(),
        ensures
            final(self).wf(),
            final(self)@ == old(self)@.insert(id, fresh_node(id, labels@, props_row, tx_id)),
            final(self).free_ids() == old(self).free_ids(),
            final(self).next_fresh() == old(self).next_fresh(),
            final(self).total() == vstd::wrapping::u64_specs::wrapping_add(old(self).total(), 1),
            final(self).wal_base() == old(self).wal_base(),
            final(self).wal_ops() == logged(old(self).wal_ops(), WalOp::Insert(id, fresh_node(id, labels@, props_row, tx_id))),
    {
        let node = Node::new(id, labels, props_row, tx_id);
        self.put(id, node);
        self.total_ever = self.total_ever.wrapping_add(1);
    }

    /// Insert a new node under a freshly allocated id and return the id.
    pub fn insert_node(&mut self, labels: Vec<LabelId>, props_row: u32, tx_id: TxId) -> (id: NodeId)
        requires
            old(self).wf(),
        ensures
            final(self).wf(),
            old(self).allocates(final(self), id),
            final(self)@ == old(self)@.insert(id, fresh_node(id, labels@, props_row, tx_id)),
            final(self).total() == vstd::wrapping::u64_specs::wrapping_add(old(self).total(), 1),
            final(self).wal_base() == old(self).wal_base(),
            final(self).wal_ops() == logged(old(self).wal_ops(), WalOp::Insert(id, fresh_node(id, labels@, props_row, tx_id))),
            old(self).alloc_sound() && old(self).next_fresh() < u64::MAX ==> {
                &&& !old(self)@.contains_key(id)
                &&& final(self).alloc_sound()
            },
    {
        let id = self.alloc_id();
        self.insert_with_id(id, labels, props_row, tx_id);
        id
    }

    /// A copy of the node stored under `id`.
    pub fn get(&self, id: NodeId) -> (r: Option<Node>)
        ensures
            match r {
                Some(n) => self@.contains_key(id) && n@ == self@[id],
                None => !self@.contains_key(id),
            },
    {
        node_map_get(&self.nodes, id)
    }

    /// Replace the labels of a present node (logging the whole node);
    /// `false` when no node has this id.
    pub fn update_labels(&mut self, id: NodeId, labels: Vec<LabelId>) -> (b: bool)
        requires
            old(self).wf(),
        ensures
            final(self).wf(),
            old(self).alloc_sound() ==> final(self).alloc_sound(),
            final(self).keeps_counters(old(self)),
            b == old(self)@.contains_key(id),
            b ==> {
                let n = NodeView { labels: labels@, ..old(self)@[id] };
                &&& final(self)@ == old(self)@.insert(id, n)
                &&& final(self).wal_ops() == logged(old(self).wal_ops(), WalOp::Insert(id, n))
            },
            !b ==> final(self)@ == old(self)@ && final(self).wal_ops() == old(self).wal_ops(),
    {
        match node_map_get(&self.nodes, id) {
            Some(mut node) => {
                node.labels = labels;
                self.put(id, node);
                true
            },
            None => false,
        }
    }

    /// Point a present node at a new property row; `false` when no node
    /// has this id.
    pub fn update_props_row(&mut self, id: NodeId, props_row: u32) -> (b: bool)
        requires
            old(self).wf(),
        ensures
            final(self).wf(),
            old(self).alloc_sound() ==> final(self).alloc_sound(),
            final(self).keeps_counters(old(self)),
            b == old(self)@.contains_key(id),
            b ==> {
                let n = NodeView { props_row, ..old(self)@[id] };
                &&& final(self)@ == old(self)@.insert(id, n)
                &&& final(self).wal_ops() == logged(old(self).wal_ops(), WalOp::Insert(id, n))
            },
            !b ==> final(self)@ == old(self)@ && final(self).wal_ops() == old(self).wal_ops(),
    {
        match node_map_get(&self.nodes, id) {
            Some(mut node) => {
                node.props_row = props_row;
                self.put(id, node);
                true
            },
            None => false,
        }
    }

    /// Set the head of a present node's outgoing edge chain; `false` when
    /// no node has this id.
    pub fn set_first_out(&mut self, id: NodeId, edge_id: EdgeId) -> (b: bool)
        requires
            old(self).wf(),
        ensures
            final(self).wf(),
            old(self).alloc_sound() ==> final(self).alloc_sound(),
            final(self).keeps_counters(old(self)),
            b == old(self)@.contains_key(id),
            b ==> {
                let n = NodeView { first_out: edge_id, ..old(self)@[id] };
                &&& final(self)@ == old(self)@.insert(id, n)
                &&& final(self).wal_ops() == logged(old(self).wal_ops(), WalOp::Insert(id, n))
            },
            !b ==> final(self)@ == old(self)@ && final(self).wal_ops() == old(self).wal_ops(),
    {
        match node_map_get(&self.nodes, id) {
            Some(mut node) => {
                node.first_out = edge_id;
                self.put(id, node);
                true
            },
            None => false,
        }
    }

    /// Set the head of a present node's incoming edge chain; `false` when
    /// no node has this id.
    pub fn set_first_in(&mut self, id: NodeId, edge_id: EdgeId) -> (b: bool)
        requires
            old(self).wf(),
        ensures
            final(self).wf(),
            old(self).alloc_sound() ==> final(self).alloc_sound(),
            final(self).keeps_counters(old(self)),
            b == old(self)@.contains_key(id),
            b ==> {
                let n = NodeView { first_in: edge_id, ..old(self)@[id] };
                &&& final(self)@ == old(self)@.insert(id, n)
                &&& final(self).wal_ops() == logged(old(self).wal_ops(), WalOp::Insert(id, n))
            },
            !b ==> final(self)@ == old(self)@ && final(self).wal_ops() == old(self).wal_ops(),
    {
        match node_map_get(&self.nodes, id) {
            Some(mut node) => {
                node.first_in = edge_id;
                self.put(id, node);
                true
            },
            None => false,
        }
    }

    /// Mark a present node deleted at `tx_id` (MVCC soft delete); `false`
    /// when no node has this id.
    pub fn soft_delete(&mut self, id: NodeId, tx_id: TxId) -> (b: bool)
        requires
            old(self).wf(),
        ensures
            final(self).wf(),
            old(self).alloc_sound() ==> final(self).alloc_sound(),
            final(self).keeps_counters(old(self)),
            b == old(self)@.contains_key(id),
            b ==> {
                let n = NodeView { deleted_tx: tx_id, ..old(self)@[id] };
                &&& final(self)@ == old(self)@.insert(id, n)
                &&& final(self).wal_ops() == logged(old(self).wal_ops(), WalOp::Insert(id, n))
            },
            !b ==> final(self)@ == old(self)@ && final(self).wal_ops() == old(self).wal_ops(),
    {
        match node_map_get(&self.nodes, id) {
            Some(mut node) => {
                node.mark_deleted(tx_id);
                self.put(id, node);
                true
            },
            None => false,
        }
    }

    /// Remove a node and queue its id for reuse. The delete is logged even
    /// when the id is absent; `false` when it was.
    pub fn hard_delete(&mut self, id: NodeId) -> (b: bool)
        requires
            old(self).wf(),
        ensures
            final(self).wf(),
            old(self).alloc_sound() ==> final(self).alloc_sound(),
            b == old(self)@.contains_key(id),
            final(self)@ == old(self)@.remove(id),
            final(self).free_ids() == if b { old(self).free_ids().push(id) } else { old(self).free_ids() },
            final(self).next_fresh() == old(self).next_fresh(),
            final(self).total() == old(self).total(),
            final(self).wal_base() == old(self).wal_base(),
            final(self).wal_ops() == logged(old(self).wal_ops(), WalOp::Delete(id)),
    {
        self.log(WalOp::Delete(id));
        proof {
            match self.wal_ops() {
                Some(ops) => {
                    assert(ops.drop_last() =~= old(self).wal_ops()->0);
                },
                None => {},
            }
        }
        match node_map_remove(&mut self.nodes, id) {
            Some(_) => {
                id_queue_push(&mut self.free_list, id);
                self.free_count = self.free_count.wrapping_add(1);
                true
            },
            None => {
                assert(old(self)@.remove(id) =~= old(self)@);
                false
            },
        }
    }

    // ── MVCC ─────────────────────────────────────────────────────────

    /// The ids of the nodes visible at snapshot `tx`, each once, in the
    /// map's internal order.
    pub fn visible_nodes(&self, tx: TxId) -> (r: Vec<NodeId>)
        requires
            self.wf(),
        ensures
            r@.no_duplicates(),
            r@.to_set() == self.visible_ids(tx),
    {
        let entries = node_map_entries(&self.nodes);
        let mut r: Vec<NodeId> = Vec::new();
        let ghost mut src: Seq<int> = Seq::empty();
        let n = entries.len();
        let mut i: usize = 0;
        while i < n
            invariant
                n == entries@.len(),
                0 <= i <= n,
                forall|k: int| 0 <= k < entries@.len() ==> node_map_contents(self.nodes).contains_key(#[trigger] entries@[k].0)
                    && entries@[k].1@ == node_map_contents(self.nodes)[entries@[k].0],
                forall|a: int, b: int| 0 <= a < b < entries@.len() ==> #[trigger] entries@[a].0 != #[trigger] entries@[b].0,
                src.len() == r@.len(),
                forall|j: int| 0 <= j < src.len() ==> 0 <= #[trigger] src[j] < i && r@[j] == entries@[src[j]].0
                    && self@[r@[j]].alive_at(tx),
                forall|a: int, b: int| 0 <= a < b < src.len() ==> #[trigger] src[a] < #[trigger] src[b],
                forall|k: int| 0 <= k < i && self@[#[trigger] entries@[k].0].alive_at(tx)
                    ==> r@.contains(entries@[k].0),
            decreases n - i,
        {
            let ghost r0 = r@;
            if entries[i].1.is_alive(tx) {
                r.push(entries[i].0);
                proof {
                    src = src.push(i as int);
                    assert(r@[r0.len() as int] == entries@[i as int].0);
                }
            }
            proof {
                assert forall|k: int| 0 <= k < i + 1 && self@[#[trigger] entries@[k].0].alive_at(tx)
                    implies r@.contains(entries@[k].0) by {
                    if k < i {
                        let w = choose|w: int| 0 <= w < r0.len() && r0[w] == entries@[k].0;
                        assert(r@[w] == r0[w]);
                    } else {
                        assert(r@[r0.len() as int] == entries@[i as int].0);
                    }
                }
            }
            i += 1;
        }
        proof {
            assert(r@.no_duplicates()) by {
                assert forall|a: int, b: int| 0 <= a < r@.len() && 0 <= b < r@.len() && a != b implies r@[a] != r@[b] by {
                    if a < b {
                        assert(src[a] < src[b]);
                    } else {
                        assert(src[b] < src[a]);
                    }
                }
            }
            assert forall|id: NodeId| #[trigger] self.visible_ids(tx).contains(id) implies r@.to_set().contains(id) by {
                let k = choose|k: int| 0 <= k < entries@.len() && #[trigger] entries@[k].0 == id;
                assert(self@[entries@[k].0].alive_at(tx));
            }
            assert forall|id: NodeId| #[trigger] r@.to_set().contains(id) implies self.visible_ids(tx).contains(id) by {
                let j = choose|j: int| 0 <= j < r@.len() && r@[j] == id;
                assert(entries@[src[j]].0 == r@[j]);
            }
            assert(r@.to_set() =~= self.visible_ids(tx));
        }
        r
    }

    /// The number of nodes visible at snapshot `tx`.
    pub fn visible_count(&self, tx: TxId) -> (c: usize)
        requires
            self.wf(),
        ensures
            c == self.visible_ids(tx).len(),
    {
        let ids = self.visible_nodes(tx);
        proof {
            ids@.unique_seq_to_set();
        }
        ids.len()
    }

    // ── Statistics ───────────────────────────────────────────────────

    /// Inserts ever made; hard deletes do not decrease it.
    pub fn total_ever(&self) -> (r: u64)
        ensures
            r == self.total(),
    {
        self.total_ever
    }

    /// The number of stored nodes, soft-deleted ones included.
    pub fn len(&self) -> (r: usize)
        ensures
            r == self@.len(),
    {
        node_map_len(&self.nodes)
    }

    /// The number of recycled ids waiting for reuse.
    pub fn free_count(&self) -> (r: u64)
        requires
            self.wf(),
        ensures
            r == wrap_count(self.free_ids().len()),
    {
        self.free_count
    }

    /// The next never-used id.
    pub fn next_fresh_id(&self) -> (r: u64)
        ensures
            r == self.next_fresh(),
    {
        self.next_id
    }

    /// Bytes handed to a log thread and not yet synced. This store hands
    /// its records out through `take_wal` and holds none for a thread.
    pub fn pending_wal_bytes(&self) -> (r: u64)
        ensures
            r == 0,
    {
        0
    }

    // ── Compaction ───────────────────────────────────────────────────

    /// Hard-delete every node deleted before `oldest_active_tx` and return
    /// how many were removed. The removed ids join the recycled ids (and
    /// the outbox) in the map's internal order.
    pub fn compact(&mut self, oldest_active_tx: TxId) -> (n: usize)
        requires
            old(self).wf(),
        ensures
            final(self).wf(),
            old(self).alloc_sound() ==> final(self).alloc_sound(),
            final(self)@ == old(self)@.remove_keys(old(self).dead_ids(oldest_active_tx)),
            n == old(self).dead_ids(oldest_active_tx).len(),
            final(self).next_fresh() == old(self).next_fresh(),
            final(self).total() == old(self).total(),
            final(self).wal_base() == old(self).wal_base(),
            exists|removed: Seq<NodeId>| {
                &&& removed.no_duplicates()
                &&& removed.to_set() == old(self).dead_ids(oldest_active_tx)
                &&& final(self).free_ids() == old(self).free_ids() + removed
                &&& final(self).wal_ops() == logged_all(old(self).wal_ops(),
                    removed.map_values(|id: NodeId| WalOp::<NodeView>::Delete(id)))
            },
    {
        let entries = node_map_entries(&self.nodes);
        let mut to_remove: Vec<NodeId> = Vec::new();
        let ghost mut src: Seq<int> = Seq::empty();
        let n = entries.len();
        let ghost dead = old(self).dead_ids(oldest_active_tx);
        let mut i: usize = 0;
        while i < n
            invariant
                n == entries@.len(),
                0 <= i <= n,
                self == old(self),
                dead == self.dead_ids(oldest_active_tx),
                forall|k: int| 0 <= k < entries@.len() ==> node_map_contents(self.nodes).contains_key(#[trigger] entries@[k].0)
                    && entries@[k].1@ == node_map_contents(self.nodes)[entries@[k].0],
                forall|a: int, b: int| 0 <= a < b < entries@.len() ==> #[trigger] entries@[a].0 != #[trigger] entries@[b].0,
                src.len() == to_remove@.len(),
                forall|j: int| 0 <= j < src.len() ==> 0 <= #[trigger] src[j] < i && to_remove@[j] == entries@[src[j]].0
                    && dead.contains(to_remove@[j]),
                forall|a: int, b: int| 0 <= a < b < src.len() ==> #[trigger] src[a] < #[trigger] src[b],
                forall|k: int| 0 <= k < i && dead.contains(#[trigger] entries@[k].0)
                    ==> to_remove@.contains(entries@[k].0),
            decreases n - i,
        {
            let ghost r0 = to_remove@;
            if entries[i].1.deleted_tx < oldest_active_tx {
                to_remove.push(entries[i].0);
                proof {
                    src = src.push(i as int);
                    assert(to_remove@[r0.len() as int] == entries@[i as int].0);
                }
            }
            proof {
                assert forall|k: int| 0 <= k < i + 1 && dead.contains(#[trigger] entries@[k].0)
                    implies to_remove@.contains(entries@[k].0) by {
                    if k < i {
                        let w = choose|w: int| 0 <= w < r0.len() && r0[w] == entries@[k].0;
                        assert(to_remove@[w] == r0[w]);
                    } else {
                        assert(to_remove@[r0.len() as int] == entries@[i as int].0);
                    }
                }
            }
            i += 1;
        }
        proof {
            assert(to_remove@.no_duplicates()) by {
                assert forall|a: int, b: int| 0 <= a < to_remove@.len() && 0 <= b < to_remove@.len() && a != b
                    implies to_remove@[a] != to_remove@[b] by {
                    if a < b {
                        assert(src[a] < src[b]);
                    } else {
                        assert(src[b] < src[a]);
                    }
                }
            }
            assert forall|id: NodeId| #[trigger] dead.contains(id) implies to_remove@.to_set().contains(id) by {
                let k = choose|k: int| 0 <= k < entries@.len() && #[trigger] entries@[k].0 == id;
                assert(dead.contains(entries@[k].0));
            }
            assert forall|id: NodeId| #[trigger] to_remove@.to_set().contains(id) implies dead.contains(id) by {
                let j = choose|j: int| 0 <= j < to_remove@.len() && to_remove@[j] == id;
                assert(0 <= src[j] < entries@.len());
                assert(dead.contains(to_remove@[j]));
            }
            assert(to_remove@.to_set() =~= dead);
            assert forall|k: int| 0 <= k < to_remove@.len() implies old(self)@.contains_key(#[trigger] to_remove@[k]) by {
                assert(dead.contains(to_remove@[k]));
            }
            to_remove@.unique_seq_to_set();
        }
        let count = to_remove.len();
        let mut j: usize = 0;
        while j < count
            invariant
                count == to_remove@.len(),
                0 <= j <= count,
                to_remove@.no_duplicates(),
                forall|k: int| 0 <= k < to_remove@.len() ==> old(self)@.contains_key(#[trigger] to_remove@[k]),
                self.wf(),
                self@ == old(self)@.remove_keys(to_remove@.take(j as int).to_set()),
                self.free_ids() == old(self).free_ids() + to_remove@.take(j as int),
                self.next_fresh() == old(self).next_fresh(),
                self.total() == old(self).total(),
                self.wal_base() == old(self).wal_base(),
                self.wal_ops() == logged_all(old(self).wal_ops(),
                    to_remove@.take(j as int).map_values(|id: NodeId| WalOp::<NodeView>::Delete(id))),
            decreases count - j,
        {
            let id = to_remove[j];
            proof {
                assert(!to_remove@.take(j as int).contains(id)) by {
                    if to_remove@.take(j as int).contains(id) {
                        let a = choose|a: int| 0 <= a < j && to_remove@.take(j as int)[a] == id;
                        assert(to_remove@[a] == to_remove@[j as int]);
                    }
                }
                assert(self@.contains_key(id));
            }
            let removed = self.hard_delete(id);
            proof {
                assert(to_remove@.take(j + 1) =~= to_remove@.take(j as int).push(id));
                to_remove@.take(j as int).lemma_push_to_set_commute(id);
                assert(self@ =~= old(self)@.remove_keys(to_remove@.take(j + 1).to_set()));
                assert(old(self).free_ids() + to_remove@.take(j + 1) =~= (old(self).free_ids() + to_remove@.take(j as int)).push(id));
                assert(to_remove@.take(j + 1).map_values(|id: NodeId| WalOp::<NodeView>::Delete(id))
                    =~= to_remove@.take(j as int).map_values(|id: NodeId| WalOp::<NodeView>::Delete(id)).push(WalOp::Delete(id)));
                match old(self).wal_ops() {
                    Some(s) => {
                        assert(s + to_remove@.take(j + 1).map_values(|id: NodeId| WalOp::<NodeView>::Delete(id))
                            =~= (s + to_remove@.take(j as int).map_values(|id: NodeId| WalOp::<NodeView>::Delete(id))).push(WalOp::Delete(id)));
                    },
                    None => {},
                }
            }
            j += 1;
        }
        proof {
            assert(to_remove@.take(count as int) =~= to_remove@);
        }
        count
    }

    /// Whether a node (alive or soft-deleted) is stored under `id`.
    pub fn contains(&self, id: NodeId) -> (b: bool)
        ensures
            b == self@.contains_key(id),
    {
        node_map_contains(&self.nodes, id)
    }

    /// The sync point for durability. This store keeps no file of its own:
    /// its records leave through `take_wal`, so there is nothing to sync here.
    pub fn flush(&self) {
    }
}

/// The map that replaying log records builds is the replay, from an empty
/// map, of the records they stand for.
pub proof fn lemma_replay_state_is_replay(recs: Seq<NodeRecord>)
    ensures
        replay_state(recs).0 == replay_ops(Map::<NodeId, NodeView>::empty(), record_ops(recs)),
    decreases recs.len(),
{
    if recs.len() > 0 {
        lemma_replay_state_is_replay(recs.drop_last());
        let (op, id, n) = recs.last();
        let pre = record_ops(recs.drop_last());
        if op == 1 {
            match n {
                Some(node) => {
                    assert(pre.push(WalOp::Insert(id, node@)).drop_last() =~= pre);
                },
                None => {},
            }
        } else if op == 2 {
            assert(pre.push(WalOp::<NodeView>::Delete(id)).drop_last() =~= pre);
            let m = replay_state(recs.drop_last()).0;
            if !m.contains_key(id) {
                assert(m.remove(id) =~= m);
            }
        }
    }
}

/// Writing log records and reading them back gives the same records.
pub proof fn lemma_records_of_ops(recs: Seq<NodeRecord>, ops: Seq<WalOp<Node>>)
    ensures
        record_ops(recs + to_records(ops)) == record_ops(recs) + ops_view(ops),
    decreases ops.len(),
{
    if ops.len() == 0 {
        assert(recs + to_records(ops) =~= recs);
        assert(record_ops(recs) + ops_view(ops) =~= record_ops(recs));
    } else {
        let init = ops.drop_last();
        lemma_records_of_ops(recs, init);
        assert((recs + to_records(ops)).drop_last() =~= recs + to_records(init));
        assert(ops_view(ops) =~= ops_view(init).push(ops.last()@));
        assert(record_ops(recs) + ops_view(ops) =~= (record_ops(recs) + ops_view(init)).push(ops.last()@));
    }
}

/// Recovery law: a store whose outbox was last drained when it held what
/// the log `recs` rebuilds, and whose outbox now holds `ops`, holds exactly
/// what the log rebuilds once `ops` are appended to it.
pub proof fn lemma_recovery(store: &NodeStore, recs: Seq<NodeRecord>, ops: Seq<WalOp<Node>>)
    requires
        store.wf(),
        store.wal_base() == replay_state(recs).0,
        store.wal_ops() == Some(ops_view(ops)),
    ensures
        replay_state(recs + to_records(ops)).0 == store@,
{
    lemma_replay_state_is_replay(recs + to_records(ops));
    lemma_records_of_ops(recs, ops);
    lemma_replay_concat(Map::<NodeId, NodeView>::empty(), record_ops(recs), ops_view(ops));
    lemma_replay_state_is_replay(recs);
}

} // verus!
