//! The edge store: edges keyed by id in a concurrent map, threaded into
//! bidirectional adjacency chains, with recycled ids queued for reuse and
//! an optional write-ahead log outbox.
//!
//! Every edge carries a `next_out` link (the next edge leaving the same
//! source) and a `next_in` link (the next edge entering the same
//! destination); the heads of both chains live in the nodes. Traversal
//! follows the links until the null edge or an id that is not stored.

use vstd::prelude::*;
use crossbeam::queue::SegQueue;
use dashmap::DashMap;
use crate::storage::backing::{
    edge_map_contains, edge_map_contents, edge_map_get, edge_map_insert, edge_map_len,
    edge_map_remove, edge_map_with_capacity, id_queue_contents, id_queue_new, id_queue_pop,
    id_queue_push,
};
use crate::storage::chain::{
    chain, chain_terminates, ends_chain, is_walk, lemma_walk_frame, lemma_walk_is_walk, next_of,
    unlink_step, walk, walk_terminates,
};
use crate::storage::node_store::{logged, wrap_count};
use crate::storage::{lemma_replay_concat, lemma_without, ops_view, remove_id, replay_ops, without, Edge, WalOp};
use crate::types::{EdgeId, NodeId, TxId, TypeId, MAX_TX_ID, NULL_EDGE};

verus! {

/// One replayed edge log record: opcode (1 insert, 2 delete, others are
/// skipped), record id, and the decoded edge of an insert.
pub type EdgeRecord = (u8, EdgeId, Option<Edge>);

/// What replaying edge records from an empty store builds: the edge map,
/// the ids recycled by deletes (an id inserted again leaves the list, so no
/// live id waits for reuse), and the largest id inserted.
pub open spec fn edge_replay_state(recs: Seq<EdgeRecord>) -> (Map<EdgeId, Edge>, Seq<EdgeId>, u64)
    decreases recs.len(),
{
    if recs.len() == 0 {
        (Map::empty(), Seq::empty(), 0)
    } else {
        let (m, f, mx) = edge_replay_state(recs.drop_last());
        let (op, id, e) = recs.last();
        if op == 1 {
            match e {
                Some(edge) => (m.insert(id, edge), without(f, id), if mx < id { id } else { mx }),
                None => (m, f, mx),
            }
        } else if op == 2 {
            if m.contains_key(id) {
                (m.remove(id), f.push(id), mx)
            } else {
                (m, f, mx)
            }
        } else {
            (m, f, mx)
        }
    }
}

/// The log records that replayed edge records stand for.
pub open spec fn edge_record_ops(recs: Seq<EdgeRecord>) -> Seq<WalOp<Edge>>
    decreases recs.len(),
{
    if recs.len() == 0 {
        Seq::empty()
    } else {
        let pre = edge_record_ops(recs.drop_last());
        let (op, id, e) = recs.last();
        if op == 1 {
            match e {
                Some(edge) => pre.push(WalOp::Insert(id, edge)),
                None => pre,
            }
        } else if op == 2 {
            pre.push(WalOp::Delete(id))
        } else {
            pre
        }
    }
}

/// The replayed records that writing edge log records produces.
pub open spec fn edge_to_records(ops: Seq<WalOp<Edge>>) -> Seq<EdgeRecord> {
    ops.map_values(|o: WalOp<Edge>| match o {
        WalOp::Insert(id, e) => (1u8, id, Some(e)),
        WalOp::Delete(id) => (2u8, id, None),
    })
}

/// An outbox after an edge patched by an unlink was logged.
pub open spec fn logged_patch(w: Option<Seq<WalOp<Edge>>>, p: Option<EdgeId>, m: Map<EdgeId, Edge>) -> Option<Seq<WalOp<Edge>>> {
    match p {
        Some(id) => logged(w, WalOp::Insert(id, m[id])),
        None => w,
    }
}

pub struct EdgeStore {
    edges: DashMap<EdgeId, Edge>,
    next_id: u64,
    free_list: SegQueue<EdgeId>,
    free_count: u64,
    wal: Option<Vec<WalOp<Edge>>>,
    wal_base: Ghost<Map<EdgeId, Edge>>,
}

impl View for EdgeStore {
    type V = Map<EdgeId, Edge>;

    closed spec fn view(&self) -> Map<EdgeId, Edge> {
        edge_map_contents(self.edges)
    }
}

impl EdgeStore {
    /// Recycled ids, in the order they will be handed out again.
    pub closed spec fn free_ids(&self) -> Seq<EdgeId> {
        id_queue_contents(self.free_list)
    }

    /// The next never-used id.
    pub closed spec fn next_fresh(&self) -> u64 {
        self.next_id
    }

    /// The records waiting in the log outbox, or `None` for a store without
    /// a log.
    pub closed spec fn wal_ops(&self) -> Option<Seq<WalOp<Edge>>> {
        match self.wal {
            Some(v) => Some(ops_view(v@)),
            None => None,
        }
    }

    /// The edge map as of the last drain of the outbox.
    pub closed spec fn wal_base(&self) -> Map<EdgeId, Edge> {
        self.wal_base@
    }

    pub closed spec fn wf(&self) -> bool {
        &&& self@.dom().finite()
        &&& self.free_count == wrap_count(self.free_ids().len())
        &&& match self.wal_ops() {
            Some(ops) => replay_ops(self.wal_base(), ops) == self@,
            None => true,
        }
    }

    /// Id allocation: the front recycled id when there is one, else the next
    /// fresh id, whose counter advances (wrapping).
    pub open spec fn allocates(&self, post: &EdgeStore, id: EdgeId) -> bool {
        if self.free_ids().len() > 0 {
            &&& id == self.free_ids()[0]
            &&& post.free_ids() == self.free_ids().drop_first()
            &&& post.next_fresh() == self.next_fresh()
        } else {
            &&& id == self.next_fresh()
            &&& post.free_ids() == self.free_ids()
            &&& post.next_fresh() == vstd::wrapping::u64_specs::wrapping_add(self.next_fresh(), 1)
        }
    }

    /// Ids are handed out soundly: recycled ids are distinct, unused and
    /// below the fresh counter, and every stored id is below the counter.
    pub open spec fn alloc_sound(&self) -> bool {
        &&& self.free_ids().no_duplicates()
        &&& forall|i: int| 0 <= i < self.free_ids().len() ==> !self@.contains_key(#[trigger] self.free_ids()[i])
            && self.free_ids()[i] < self.next_fresh()
        &&& forall|id: EdgeId| #[trigger] self@.contains_key(id) ==> id < self.next_fresh()
    }

    /// The recycled ids, the fresh counter and the outbox base are as in `pre`.
    pub open spec fn keeps_counters(&self, pre: &EdgeStore) -> bool {
        &&& self.free_ids() == pre.free_ids()
        &&& self.next_fresh() == pre.next_fresh()
        &&& self.wal_base() == pre.wal_base()
    }

    /// The edges visible at snapshot `tx` among the edges of a chain.
    pub open spec fn visible_in(&self, s: Seq<EdgeId>, tx: TxId) -> Seq<EdgeId> {
        s.filter(|id: EdgeId| self@[id].alive_at(tx))
    }

    // ── Constructors ─────────────────────────────────────────────────

    /// An empty in-memory store (no log), sized for three million edges.
    pub fn new() -> (s: Self)
        ensures
            s.wf(),
            s@ == Map::<EdgeId, Edge>::empty(),
            s.free_ids() == Seq::<EdgeId>::empty(),
            s.next_fresh() == 0,
            s.wal_ops() is None,
    {
        Self::with_capacity(3_000_000)
    }

    /// An empty in-memory store (no log) with room for `cap` edges.
    pub fn with_capacity(cap: usize) -> (s: Self)
        ensures
            s.wf(),
            s@ == Map::<EdgeId, Edge>::empty(),
            s.free_ids() == Seq::<EdgeId>::empty(),
            s.next_fresh() == 0,
            s.wal_ops() is None,
    {
        let s = EdgeStore {
            edges: edge_map_with_capacity(cap),
            next_id: 0,
            free_list: id_queue_new(),
            free_count: 0,
            wal: None,
            wal_base: Ghost(Map::empty()),
        };
        assert(s@.dom() =~= Set::<EdgeId>::empty());
        s
    }

    /// A store rebuilt from its log, with the log attached. `records` holds
    /// the log's records in order, or `None` when there is no log yet.
    /// Inserts put their edge, deletes of present ids remove the edge and
    /// recycle the id; the fresh counter resumes after the largest id
    /// inserted.
    pub fn from_wal(records: Option<Vec<EdgeRecord>>) -> (s: Self)
        requires
            records matches Some(r) ==> edge_replay_state(r@).2 < u64::MAX,
        ensures
            s.wf(),
            s.alloc_sound(),
            s.wal_ops() == Some(Seq::<WalOp<Edge>>::empty()),
            s.wal_base() == s@,
            match records {
                Some(r) => {
                    let st = edge_replay_state(r@);
                    &&& s@ == st.0
                    &&& s.free_ids() == st.1
                    &&& s.next_fresh() == st.2 + 1
                },
                None => {
                    &&& s@ == Map::<EdgeId, Edge>::empty()
                    &&& s.free_ids() == Seq::<EdgeId>::empty()
                    &&& s.next_fresh() == 0
                },
            },
    {
        let mut s = Self::new();
        match records {
            None => {},
            Some(recs) => {
                let mut max_id: u64 = 0;
                let mut free: Vec<EdgeId> = Vec::new();
                let mut i: usize = 0;
                let n = recs.len();
                while i < n
                    invariant
                        n == recs@.len(),
                        0 <= i <= n,
                        s.wf(),
                        s.wal_ops() is None,
                        s.free_ids() == Seq::<EdgeId>::empty(),
                        s.free_count == 0,
                        edge_replay_state(recs@).2 < u64::MAX,
                        ({
                            let st = edge_replay_state(recs@.take(i as int));
                            &&& s@ == st.0
                            &&& free@ == st.1
                            &&& max_id == st.2
                        }),
                    decreases n - i,
                {
                    proof {
                        assert(recs@.take(i + 1).drop_last() =~= recs@.take(i as int));
                        lemma_edge_replay_max_prefix(recs@, i + 1);
                    }
                    let (op, id, edge) = &recs[i];
                    if *op == 1 {
                        match edge {
                            Some(e) => {
                                if max_id < *id {
                                    max_id = *id;
                                }
                                edge_map_insert(&mut s.edges, *id, *e);
                                free = remove_id(&free, *id);
                            },
                            None => {},
                        }
                    } else if *op == 2 {
                        match edge_map_remove(&mut s.edges, *id) {
                            Some(_) => {
                                free.push(*id);
                            },
                            None => {},
                        }
                    }
                    i += 1;
                }
                assert(recs@.take(n as int) =~= recs@);
                proof {
                    lemma_edge_replay_sound(recs@);
                }
                let mut j: usize = 0;
                while j < free.len()
                    invariant
                        0 <= j <= free@.len(),
                        s.wf(),
                        s.wal_ops() is None,
                        s.free_ids() == free@.take(j as int),
                        s.free_count == j,
                        s@ == edge_replay_state(recs@).0,
                    decreases free@.len() - j,
                {
                    proof {
                        assert(free@.take(j + 1) =~= free@.take(j as int).push(free@[j as int]));
                    }
                    id_queue_push(&mut s.free_list, free[j]);
                    s.free_count = s.free_count + 1;
                    j += 1;
                }
                assert(free@.take(free@.len() as int) =~= free@);
                s.next_id = max_id + 1;
                proof {
                    assert forall|k: int| 0 <= k < s.free_ids().len() implies !s@.contains_key(#[trigger] s.free_ids()[k])
                        && s.free_ids()[k] < s.next_fresh() by {
                        assert(free@.contains(free@[k]));
                    }
                    assert(s.free_ids().no_duplicates());
                    assert forall|id: EdgeId| #[trigger] s@.contains_key(id) implies id < s.next_fresh() by {
                        assert(edge_replay_state(recs@).0.contains_key(id));
                    }
                    assert(s.alloc_sound());
                }
            },
        }
        s.wal = Some(Vec::new());
        s.wal_base = Ghost(s@);
        proof {
            assert(ops_view(Seq::<WalOp<Edge>>::empty()) =~= Seq::<WalOp<Edge>>::empty());
        }
        s
    }

    // ── Log outbox ───────────────────────────────────────────────────

    fn log(&mut self, op: WalOp<Edge>)
        ensures
            final(self).wal_ops() == logged(old(self).wal_ops(), op@),
            final(self)@ == old(self)@,
            final(self).keeps_counters(old(self)),
            final(self).free_count == old(self).free_count,
    {
        if let Some(v) = &mut self.wal {
            v.push(op);
        }
        proof {
            match old(self).wal {
                Some(v) => {
                    assert(ops_view(v@.push(op)) =~= ops_view(v@).push(op@));
                },
                None => {},
            }
        }
    }

    /// Hand out the records waiting in the outbox, oldest first, and empty
    /// it. Replaying them onto the map as of the previous drain gives the
    /// current map.
    pub fn take_wal(&mut self) -> (ops: Vec<WalOp<Edge>>)
        requires
            old(self).wf(),
        ensures
            final(self).wf(),
            final(self)@ == old(self)@,
            final(self).free_ids() == old(self).free_ids(),
            final(self).next_fresh() == old(self).next_fresh(),
            match old(self).wal_ops() {
                Some(pending) => {
                    &&& ops_view(ops@) == pending
                    &&& replay_ops(old(self).wal_base(), ops_view(ops@)) == old(self)@
                    &&& final(self).wal_ops() == Some(Seq::<WalOp<Edge>>::empty())
                    &&& final(self).wal_base() == old(self)@
                },
                None => ops@.len() == 0 && final(self).wal_ops() is None,
            },
    {
        let out = match self.wal.take() {
            Some(v) => {
                self.wal = Some(Vec::new());
                self.wal_base = Ghost(edge_map_contents(self.edges));
                v
            },
            None => Vec::new(),
        };
        proof {
            assert(ops_view(Seq::<WalOp<Edge>>::empty()) =~= Seq::<WalOp<Edge>>::empty());
        }
        out
    }

    /// Store `edge` under `id` and log it.
    fn put(&mut self, id: EdgeId, edge: Edge)
        requires
            old(self).wf(),
        ensures
            final(self).wf(),
            final(self)@ == old(self)@.insert(id, edge),
            final(self).keeps_counters(old(self)),
            final(self).wal_ops() == logged(old(self).wal_ops(), WalOp::Insert(id, edge)),
    {
        edge_map_insert(&mut self.edges, id, edge);
        self.log(WalOp::Insert(id, edge));
        proof {
            match self.wal_ops() {
                Some(ops) => {
                    assert(ops.drop_last() =~= old(self).wal_ops()->0);
                },
                None => {},
            }
        }
    }

    // ── Id allocation ────────────────────────────────────────────────

    fn alloc_id(&mut self) -> (id: EdgeId)
        requires
            old(self).wf(),
        ensures
            final(self).wf(),
            old(self).allocates(final(self), id),
            final(self)@ == old(self)@,
            final(self).wal_ops() == old(self).wal_ops(),
            final(self).wal_base() == old(self).wal_base(),
    {
        match id_queue_pop(&mut self.free_list) {
            Some(id) => {
                self.free_count = self.free_count.wrapping_sub(1);
                id
            },
            None => {
                let id = self.next_id;
                self.next_id = self.next_id.wrapping_add(1);
                id
            },
        }
    }

    /// Allocate an id without inserting an edge, for a transaction that
    /// inserts it on commit.
    pub fn alloc_id_direct(&mut self) -> (id: EdgeId)
        requires
            old(self).wf(),
        ensures
            final(self).wf(),
            old(self).allocates(final(self), id),
            final(self)@ == old(self)@,
            final(self).wal_ops() == old(self).wal_ops(),
            final(self).wal_base() == old(self).wal_base(),
            old(self).alloc_sound() && old(self).next_fresh() < u64::MAX ==> {
                &&& !old(self)@.contains_key(id)
                &&& id < final(self).next_fresh()
                &&& final(self).alloc_sound()
            },
    {
        self.alloc_id()
    }

    // ── CRUD ─────────────────────────────────────────────────────────

    /// Insert an edge under an id allocated beforehand. The caller links it
    /// into the chains with `link_into_chains`.
    pub fn insert_with_id(&mut self, id: EdgeId, src: NodeId, dst: NodeId, etype: TypeId, props_row: u32, tx_id: TxId)
        requires
            old(self).wf(),
        ensures
            final(self).wf(),
            final(self)@ == old(self)@.insert(id, Edge {
                id, src, dst, etype, next_out: NULL_EDGE, next_in: NULL_EDGE, props_row,
                created_tx: tx_id, deleted_tx: MAX_TX_ID,
            }),
            final(self).keeps_counters(old(self)),
            final(self).wal_ops() == logged(old(self).wal_ops(), WalOp::Insert(id, final(self)@[id])),
    {
        let edge = Edge::new(id, src, dst, etype, props_row, tx_id);
        self.put(id, edge);
    }

    /// Insert a new edge under a freshly allocated id and return the id.
    /// The caller links it into the chains with `link_into_chains`.
    pub fn insert_edge(&mut self, src: NodeId, dst: NodeId, etype: TypeId, props_row: u32, tx_id: TxId) -> (id: EdgeId)
        requires
            old(self).wf(),
        ensures
            final(self).wf(),
            old(self).allocates(final(self), id),
            final(self)@ == old(self)@.insert(id, Edge {
                id, src, dst, etype, next_out: NULL_EDGE, next_in: NULL_EDGE, props_row,
                created_tx: tx_id, deleted_tx: MAX_TX_ID,
            }),
            final(self).wal_base() == old(self).wal_base(),
            final(self).wal_ops() == logged(old(self).wal_ops(), WalOp::Insert(id, final(self)@[id])),
            old(self).alloc_sound() && old(self).next_fresh() < u64::MAX ==> {
                &&& !old(self)@.contains_key(id)
                &&& final(self).alloc_sound()
            },
    {
        let id = self.alloc_id();
        self.insert_with_id(id, src, dst, etype, props_row, tx_id);
        id
    }

    /// Link `new_edge` in front of a source node's outgoing chain and a
    /// destination node's incoming chain: the edge's links take the old
    /// heads and both heads become `new_edge`. The heads are replaced even
    /// when `new_edge` is not stored.
    pub fn link_into_chains(&mut self, new_edge: EdgeId, src_first_out: &mut EdgeId, dst_first_in: &mut EdgeId)
        requires
            old(self).wf(),
        ensures
            final(self).wf(),
            old(self).alloc_sound() ==> final(self).alloc_sound(),
            final(self).keeps_counters(old(self)),
            *final(src_first_out) == new_edge,
            *final(dst_first_in) == new_edge,
            old(self)@.contains_key(new_edge) ==> {
                let e = Edge { next_out: *old(src_first_out), next_in: *old(dst_first_in), ..old(self)@[new_edge] };
                &&& final(self)@ == old(self)@.insert(new_edge, e)
                &&& final(self).wal_ops() == logged(old(self).wal_ops(), WalOp::Insert(new_edge, e))
            },
            !old(self)@.contains_key(new_edge) ==> final(self)@ == old(self)@ && final(self).wal_ops() == old(self).wal_ops(),
    {
        match edge_map_get(&self.edges, new_edge) {
            Some(e) => {
                let linked = Edge { next_out: *src_first_out, next_in: *dst_first_in, ..e };
                self.put(new_edge, linked);
            },
            None => {},
        }
        *src_first_out = new_edge;
        *dst_first_in = new_edge;
    }

    /// One half of an unlink: detach `target` from the chain headed by
    /// `head`, replacing the link that led to it with `repl`.
    fn unlink_one(&mut self, target: EdgeId, head: &mut EdgeId, repl: EdgeId, out: bool)
        requires
            old(self).wf(),
            *old(head) != target ==> walk_terminates(old(self)@, *old(head), out, Some(target)),
        ensures
            final(self).wf(),
            final(self).keeps_counters(old(self)),
            ({
                let (m, h, p) = unlink_step(old(self)@, *old(head), target, repl, out);
                &&& final(self)@ == m
                &&& *final(head) == h
                &&& final(self).wal_ops() == logged_patch(old(self).wal_ops(), p, m)
            }),
    {
        if *head == target {
            *head = repl;
            return;
        }
        let ghost m = self@;
        let ghost s = walk(m, *head, out, Some(target));
        proof {
            let w = choose|w: Seq<EdgeId>| is_walk(m, *head, out, Some(target), w);
            lemma_walk_is_walk(m, *head, out, Some(target), w);
        }
        let mut cur = *head;
        let ghost mut k: int = 0;
        while cur != NULL_EDGE
            invariant_except_break
                self@ == m,
                self.wal_ops() == old(self).wal_ops(),
                self.wf(),
                self.keeps_counters(old(self)),
                0 <= k <= s.len(),
                k < s.len() ==> cur == s[k],
                k == s.len() ==> ends_chain(m, cur),
                k == s.len() && s.len() > 0 ==> next_of(m[s.last()], out) != target,
            invariant
                m == old(self)@,
                *head == *old(head),
                *head != target,
                is_walk(m, *head, out, Some(target), s),
                s == walk(m, *head, out, Some(target)),
            ensures
                self.wf(),
                self.keeps_counters(old(self)),
                ({
                    let (m2, h, p) = unlink_step(m, *head, target, repl, out);
                    &&& self@ == m2
                    &&& self.wal_ops() == logged_patch(old(self).wal_ops(), p, m2)
                }),
            decreases s.len() - k,
        {
            match edge_map_get(&self.edges, cur) {
                Some(e) => {
                    let nx = if out { e.next_out } else { e.next_in };
                    if nx == target {
                        let patched = if out {
                            Edge { next_out: repl, ..e }
                        } else {
                            Edge { next_in: repl, ..e }
                        };
                        proof {
                            assert(k == s.len() - 1);
                        }
                        self.put(cur, patched);
                        break;
                    }
                    proof {
                        if k == s.len() - 1 {
                            assert(ends_chain(m, next_of(m[s.last()], out)));
                        }
                    }
                    cur = nx;
                    proof {
                        k = k + 1;
                    }
                },
                None => {
                    break;
                },
            }
        }
    }

    /// Unlink an edge from the outgoing chain headed by `src_first_out` and
    /// the incoming chain headed by `dst_first_in`: a head equal to the edge
    /// moves to the edge's link; otherwise the first edge of the chain that
    /// links to it is patched to skip it. The edge itself stays stored.
    /// `false` (and nothing changed) when the edge is not stored.
    pub fn unlink_from_chains(&mut self, edge_id: EdgeId, src_first_out: &mut EdgeId, dst_first_in: &mut EdgeId) -> (b: bool)
        requires
            old(self).wf(),
            old(self)@.contains_key(edge_id) && *old(src_first_out) != edge_id
                ==> walk_terminates(old(self)@, *old(src_first_out), true, Some(edge_id)),
            old(self)@.contains_key(edge_id) && *old(dst_first_in) != edge_id
                ==> walk_terminates(old(self)@, *old(dst_first_in), false, Some(edge_id)),
        ensures
            final(self).wf(),
            final(self).keeps_counters(old(self)),
            old(self).alloc_sound() ==> final(self).alloc_sound(),
            b == old(self)@.contains_key(edge_id),
            !b ==> {
                &&& final(self)@ == old(self)@
                &&& final(self).wal_ops() == old(self).wal_ops()
                &&& *final(src_first_out) == *old(src_first_out)
                &&& *final(dst_first_in) == *old(dst_first_in)
            },
            b ==> {
                let e = old(self)@[edge_id];
                let (m1, h1, p1) = unlink_step(old(self)@, *old(src_first_out), edge_id, e.next_out, true);
                let (m2, h2, p2) = unlink_step(m1, *old(dst_first_in), edge_id, e.next_in, false);
                &&& final(self)@ == m2
                &&& *final(src_first_out) == h1
                &&& *final(dst_first_in) == h2
                &&& final(self).wal_ops() == logged_patch(logged_patch(old(self).wal_ops(), p1, m1), p2, m2)
            },
    {
        let edge = match edge_map_get(&self.edges, edge_id) {
            Some(e) => e,
            None => {
                return false;
            },
        };
        self.unlink_one(edge_id, src_first_out, edge.next_out, true);
        proof {
            let m0 = old(self)@;
            let m1 = self@;
            if *old(src_first_out) != edge_id {
                let w = choose|w: Seq<EdgeId>| is_walk(m0, *old(src_first_out), true, Some(edge_id), w);
                lemma_walk_is_walk(m0, *old(src_first_out), true, Some(edge_id), w);
            }
            assert(m1.dom() =~= m0.dom());
            if *dst_first_in != edge_id {
                let w = choose|w: Seq<EdgeId>| is_walk(m0, *dst_first_in, false, Some(edge_id), w);
                lemma_walk_frame(m0, m1, *dst_first_in, false, Some(edge_id), w);
            }
        }
        self.unlink_one(edge_id, dst_first_in, edge.next_in, false);
        true
    }

    /// A copy of the edge stored under `id`.
    pub fn get(&self, id: EdgeId) -> (r: Option<Edge>)
        ensures
            match r {
                Some(e) => self@.contains_key(id) && e == self@[id],
                None => !self@.contains_key(id),
            },
    {
        edge_map_get(&self.edges, id)
    }

    /// Mark a present edge deleted at `tx_id` (MVCC soft delete); `false`
    /// when no edge has this id.
    pub fn soft_delete(&mut self, id: EdgeId, tx_id: TxId) -> (b: bool)
        requires
            old(self).wf(),
        ensures
            final(self).wf(),
            old(self).alloc_sound() ==> final(self).alloc_sound(),
            final(self).keeps_counters(old(self)),
            b == old(self)@.contains_key(id),
            b ==> {
                let e = Edge { deleted_tx: tx_id, ..old(self)@[id] };
                &&& final(self)@ == old(self)@.insert(id, e)
                &&& final(self).wal_ops() == logged(old(self).wal_ops(), WalOp::Insert(id, e))
            },
            !b ==> final(self)@ == old(self)@ && final(self).wal_ops() == old(self).wal_ops(),
    {
        match edge_map_get(&self.edges, id) {
            Some(mut e) => {
                e.mark_deleted(tx_id);
                self.put(id, e);
                true
            },
            None => false,
        }
    }

    /// Remove an edge and queue its id for reuse; `false` when no edge has
    /// this id. A present edge's removal is logged.
    pub fn hard_delete(&mut self, id: EdgeId) -> (b: bool)
        requires
            old(self).wf(),
        ensures
            final(self).wf(),
            old(self).alloc_sound() ==> final(self).alloc_sound(),
            b == old(self)@.contains_key(id),
            final(self)@ == old(self)@.remove(id),
            final(self).free_ids() == if b { old(self).free_ids().push(id) } else { old(self).free_ids() },
            final(self).next_fresh() == old(self).next_fresh(),
            final(self).wal_base() == old(self).wal_base(),
            final(self).wal_ops() == if b { logged(old(self).wal_ops(), WalOp::Delete(id)) } else { old(self).wal_ops() },
    {
        match edge_map_remove(&mut self.edges, id) {
            Some(_) => {
                id_queue_push(&mut self.free_list, id);
                self.free_count = self.free_count.wrapping_add(1);
                self.log(WalOp::Delete(id));
                proof {
                    match self.wal_ops() {
                        Some(ops) => {
                            assert(ops.drop_last() =~= old(self).wal_ops()->0);
                        },
                        None => {},
                    }
                }
                true
            },
            None => {
                assert(old(self)@.remove(id) =~= old(self)@);
                false
            },
        }
    }

    // ── Traversal ────────────────────────────────────────────────────

    fn collect_chain(&self, start: EdgeId, out: bool) -> (r: Vec<EdgeId>)
        requires
            chain_terminates(self@, start, out),
        ensures
            r@ == chain(self@, start, out),
    {
        let ghost m = self@;
        let ghost s = chain(m, start, out);
        proof {
            let w = choose|w: Seq<EdgeId>| is_walk(m, start, out, None, w);
            lemma_walk_is_walk(m, start, out, None, w);
        }
        let mut r: Vec<EdgeId> = Vec::new();
        let mut cur = start;
        while cur != NULL_EDGE
            invariant_except_break
                r@.len() <= s.len(),
                r@ == s.take(r@.len() as int),
                r@.len() < s.len() ==> cur == s[r@.len() as int],
                r@.len() == s.len() ==> ends_chain(m, cur),
            invariant
                m == self@,
                is_walk(m, start, out, None, s),
            ensures
                r@ == s,
            decreases s.len() - r@.len(),
        {
            match edge_map_get(&self.edges, cur) {
                Some(e) => {
                    let ghost k = r@.len() as int;
                    r.push(cur);
                    proof {
                        assert(r@ =~= s.take(k + 1));
                        if k == s.len() - 1 {
                            assert(ends_chain(m, next_of(m[s.last()], out)));
                        }
                    }
                    cur = if out { e.next_out } else { e.next_in };
                },
                None => {
                    proof {
                        if r@.len() < s.len() {
                            assert(m.contains_key(s[r@.len() as int]));
                        }
                        assert(s.take(s.len() as int) =~= s);
                    }
                    break;
                },
            }
        }
        proof {
            assert(s.take(s.len() as int) =~= s);
        }
        r
    }

    fn collect_visible(&self, start: EdgeId, out: bool, tx: TxId) -> (r: Vec<EdgeId>)
        requires
            chain_terminates(self@, start, out),
        ensures
            r@ == self.visible_in(chain(self@, start, out), tx),
    {
        let ghost m = self@;
        let ghost s = chain(m, start, out);
        proof {
            let w = choose|w: Seq<EdgeId>| is_walk(m, start, out, None, w);
            lemma_walk_is_walk(m, start, out, None, w);
            reveal(Seq::filter);
        }
        let mut r: Vec<EdgeId> = Vec::new();
        let mut cur = start;
        let ghost mut k: int = 0;
        proof {
            assert(s.take(s.len() as int) =~= s);
            assert(s.take(0) =~= Seq::<EdgeId>::empty());
        }
        while cur != NULL_EDGE
            invariant_except_break
                0 <= k <= s.len(),
                r@ == self.visible_in(s.take(k), tx),
                k < s.len() ==> cur == s[k],
                k == s.len() ==> ends_chain(m, cur),
            invariant
                m == self@,
                is_walk(m, start, out, None, s),
                s.take(s.len() as int) == s,
            ensures
                r@ == self.visible_in(s, tx),
            decreases s.len() - k,
        {
            match edge_map_get(&self.edges, cur) {
                Some(e) => {
                    proof {
                        reveal(Seq::filter);
                        assert(s.take(k + 1).drop_last() =~= s.take(k));
                        assert(s.take(k + 1).last() == cur);
                    }
                    if e.is_alive(tx) {
                        r.push(cur);
                    }
                    proof {
                        if k == s.len() - 1 {
                            assert(ends_chain(m, next_of(m[s.last()], out)));
                        }
                        k = k + 1;
                    }
                    cur = if out { e.next_out } else { e.next_in };
                },
                None => {
                    proof {
                        if k < s.len() {
                            assert(m.contains_key(s[k]));
                        }
                        assert(s.take(s.len() as int) =~= s);
                    }
                    break;
                },
            }
        }
        proof {
            assert(s.take(s.len() as int) =~= s);
        }
        r
    }

    /// The outgoing chain from `start` (a node's `first_out`), in chain
    /// order. The chain must end: on a cyclic chain the walk never returns.
    pub fn out_edges(&self, start: EdgeId) -> (r: Vec<EdgeId>)
        requires
            chain_terminates(self@, start, true),
        ensures
            r@ == chain(self@, start, true),
            is_walk(self@, start, true, None, r@),
    {
        let r = self.collect_chain(start, true);
        proof {
            let w = choose|w: Seq<EdgeId>| is_walk(self@, start, true, None, w);
            lemma_walk_is_walk(self@, start, true, None, w);
        }
        r
    }

    /// The incoming chain from `start` (a node's `first_in`), in chain
    /// order. The chain must end: on a cyclic chain the walk never returns.
    pub fn in_edges(&self, start: EdgeId) -> (r: Vec<EdgeId>)
        requires
            chain_terminates(self@, start, false),
        ensures
            r@ == chain(self@, start, false),
            is_walk(self@, start, false, None, r@),
    {
        let r = self.collect_chain(start, false);
        proof {
            let w = choose|w: Seq<EdgeId>| is_walk(self@, start, false, None, w);
            lemma_walk_is_walk(self@, start, false, None, w);
        }
        r
    }

    /// The edges of the outgoing chain from `start` that are visible at
    /// snapshot `tx`, in chain order.
    pub fn out_edges_visible(&self, start: EdgeId, tx: TxId) -> (r: Vec<EdgeId>)
        requires
            chain_terminates(self@, start, true),
        ensures
            r@ == self.visible_in(chain(self@, start, true), tx),
    {
        self.collect_visible(start, true, tx)
    }

    /// The edges of the incoming chain from `start` that are visible at
    /// snapshot `tx`, in chain order.
    pub fn in_edges_visible(&self, start: EdgeId, tx: TxId) -> (r: Vec<EdgeId>)
        requires
            chain_terminates(self@, start, false),
        ensures
            r@ == self.visible_in(chain(self@, start, false), tx),
    {
        self.collect_visible(start, false, tx)
    }

    // ── Statistics ───────────────────────────────────────────────────

    /// Whether an edge (alive or soft-deleted) is stored under `id`.
    pub fn contains(&self, id: EdgeId) -> (b: bool)
        ensures
            b == self@.contains_key(id),
    {
        edge_map_contains(&self.edges, id)
    }

    /// The number of stored edges, soft-deleted ones included.
    pub fn len(&self) -> (r: usize)
        ensures
            r == self@.len(),
    {
        edge_map_len(&self.edges)
    }

    /// The number of recycled ids waiting for reuse.
    pub fn free_count(&self) -> (r: u64)
        requires
            self.wf(),
        ensures
            r == wrap_count(self.free_ids().len()),
    {
        self.free_count
    }

    /// The sync point for durability. This store keeps no file of its own:
    /// its records leave through `take_wal`, so there is nothing to sync here.
    pub fn flush(&self) {
    }
}

/// Replaying edge records builds a sound id state: the recycled ids are
/// distinct, none of them is live, and every recycled or live id is at most
/// the largest id inserted.
pub proof fn lemma_edge_replay_sound(recs: Seq<EdgeRecord>)
    ensures
        edge_replay_state(recs).1.no_duplicates(),
        forall|x: EdgeId| #[trigger] edge_replay_state(recs).1.contains(x)
            ==> !edge_replay_state(recs).0.contains_key(x) && x <= edge_replay_state(recs).2,
        forall|x: EdgeId| #[trigger] edge_replay_state(recs).0.contains_key(x) ==> x <= edge_replay_state(recs).2,
    decreases recs.len(),
{
    if recs.len() > 0 {
        lemma_edge_replay_sound(recs.drop_last());
        let (m, f, mx) = edge_replay_state(recs.drop_last());
        let (op, id, e) = recs.last();
        if op == 1 {
            match e {
                Some(edge) => {
                    lemma_without(f, id);
                    let m2 = m.insert(id, edge);
                    let f2 = without(f, id);
                    let mx2 = if mx < id { id } else { mx };
                    assert(edge_replay_state(recs) == (m2, f2, mx2));
                    assert forall|x: EdgeId| #[trigger] f2.contains(x) implies !m2.contains_key(x) && x <= mx2 by {
                        assert(f.contains(x));
                    }
                },
                None => {},
            }
        } else if op == 2 {
            if m.contains_key(id) {
                let g = f.push(id);
                assert(edge_replay_state(recs) == (m.remove(id), g, mx));
                assert forall|x: EdgeId| g.contains(x) <==> f.contains(x) || x == id by {
                    if g.contains(x) {
                        let k = choose|k: int| 0 <= k < g.len() && g[k] == x;
                        if k < f.len() {
                            assert(f[k] == x);
                        }
                    }
                    if f.contains(x) {
                        let k = choose|k: int| 0 <= k < f.len() && f[k] == x;
                        assert(g[k] == x);
                    }
                    if x == id {
                        assert(g[f.len() as int] == x);
                    }
                }
                assert forall|a: int, b: int| 0 <= a < b < g.len() implies g[a] != g[b] by {
                    if b == f.len() {
                        assert(f.contains(f[a]));
                    }
                }
                assert forall|x: EdgeId| #[trigger] g.contains(x) implies !m.remove(id).contains_key(x) && x <= mx by {
                    if x != id {
                        assert(f.contains(x));
                    }
                }
            }
        }
    }
}

proof fn lemma_edge_replay_max_prefix(recs: Seq<EdgeRecord>, k: int)
    requires
        0 <= k <= recs.len(),
    ensures
        edge_replay_state(recs.take(k)).2 <= edge_replay_state(recs).2,
    decreases recs.len() - k,
{
    if k < recs.len() {
        lemma_edge_replay_max_prefix(recs, k + 1);
        assert(recs.take(k + 1).drop_last() =~= recs.take(k));
    } else {
        assert(recs.take(k) =~= recs);
    }
}

/// The map that replaying edge log records builds is the replay, from an
/// empty map, of the records they stand for.
pub proof fn lemma_edge_replay_state_is_replay(recs: Seq<EdgeRecord>)
    ensures
        edge_replay_state(recs).0 == replay_ops(Map::<EdgeId, Edge>::empty(), edge_record_ops(recs)),
    decreases recs.len(),
{
    if recs.len() > 0 {
        lemma_edge_replay_state_is_replay(recs.drop_last());
        let (op, id, e) = recs.last();
        let pre = edge_record_ops(recs.drop_last());
        if op == 1 {
            match e {
                Some(edge) => {
                    assert(pre.push(WalOp::Insert(id, edge)).drop_last() =~= pre);
                },
                None => {},
            }
        } else if op == 2 {
            assert(pre.push(WalOp::<Edge>::Delete(id)).drop_last() =~= pre);
            let m = edge_replay_state(recs.drop_last()).0;
            if !m.contains_key(id) {
                assert(m.remove(id) =~= m);
            }
        }
    }
}

/// Writing edge log records and reading them back gives the same records.
pub proof fn lemma_edge_records_of_ops(recs: Seq<EdgeRecord>, ops: Seq<WalOp<Edge>>)
    ensures
        edge_record_ops(recs + edge_to_records(ops)) == edge_record_ops(recs) + ops,
    decreases ops.len(),
{
    if ops.len() == 0 {
        assert(recs + edge_to_records(ops) =~= recs);
        assert(edge_record_ops(recs) + ops =~= edge_record_ops(recs));
    } else {
        let init = ops.drop_last();
        lemma_edge_records_of_ops(recs, init);
        assert((recs + edge_to_records(ops)).drop_last() =~= recs + edge_to_records(init));
        assert(ops =~= init.push(ops.last()));
        assert(edge_record_ops(recs) + ops =~= (edge_record_ops(recs) + init).push(ops.last()));
    }
}

/// Recovery law: an edge store whose outbox was last drained when it held
/// what the log `recs` rebuilds, and whose outbox now holds `ops`, holds
/// exactly what the log rebuilds once `ops` are appended to it.
pub proof fn lemma_edge_recovery(store: &EdgeStore, recs: Seq<EdgeRecord>, ops: Seq<WalOp<Edge>>)
    requires
        store.wf(),
        store.wal_base() == edge_replay_state(recs).0,
        store.wal_ops() == Some(ops),
    ensures
        edge_replay_state(recs + edge_to_records(ops)).0 == store@,
{
    lemma_edge_replay_state_is_replay(recs + edge_to_records(ops));
    lemma_edge_records_of_ops(recs, ops);
    lemma_replay_concat(Map::<EdgeId, Edge>::empty(), edge_record_ops(recs), ops);
    lemma_edge_replay_state_is_replay(recs);
}

/// Visibility law: the visible edges of a chain (what `out_edges_visible`
/// and `in_edges_visible` return) are the chain's edges (what `out_edges`
/// and `in_edges` return) that are alive at `tx`, in chain order: an edge
/// is listed exactly when it is on the chain and alive.
pub proof fn lemma_visible_edges_filter_chain(s: &EdgeStore, start: EdgeId, out: bool, tx: TxId, all: Seq<EdgeId>, vis: Seq<EdgeId>)
    requires
        all == chain(s@, start, out),
        vis == s.visible_in(chain(s@, start, out), tx),
    ensures
        vis == all.filter(|id: EdgeId| s@[id].alive_at(tx)),
        forall|id: EdgeId| vis.contains(id) <==> all.contains(id) && s@[id].alive_at(tx),
{
    let pred = |id: EdgeId| s@[id].alive_at(tx);
    assert(vis =~= all.filter(pred));
    assert forall|id: EdgeId| vis.contains(id) <==> all.contains(id) && s@[id].alive_at(tx) by {
        if all.contains(id) && s@[id].alive_at(tx) {
            let i = choose|i: int| 0 <= i < all.len() && all[i] == id;
            all.lemma_filter_contains(pred, i);
        }
        if vis.contains(id) {
            all.lemma_filter_contains_rev(pred, id);
            let k = choose|k: int| 0 <= k < vis.len() && vis[k] == id;
            all.lemma_filter_pred(pred, k);
        }
    }
}

} // verus!
