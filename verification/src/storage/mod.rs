//! Storage layer: nodes, edges and columnar properties.

pub mod backing;
pub mod chain;
pub mod column_record;
pub mod consistency;
pub mod edge_store;
pub mod node_store;
pub mod prop_store;
pub mod store_log;
pub mod wal_thread;

use vstd::prelude::*;
use crate::types::{EdgeId, LabelId, NodeId, TxId, TypeId, MAX_TX_ID, NULL_EDGE};

verus! {

/// A node of the graph.
#[derive(Debug, Clone)]
pub struct Node {
    pub id: NodeId,
    pub labels: Vec<LabelId>,
    /// Head of the outgoing edge chain.
    pub first_out: EdgeId,
    /// Head of the incoming edge chain.
    pub first_in: EdgeId,
    /// Row index in the columnar property store.
    pub props_row: u32,
    pub created_tx: TxId,
    /// `MAX_TX_ID` while the node is alive.
    pub deleted_tx: TxId,
}

/// A directed edge between two nodes.
#[derive(Debug, Clone, Copy)]
pub struct Edge {
    pub id: EdgeId,
    pub src: NodeId,
    pub dst: NodeId,
    pub etype: TypeId,
    /// Next edge with the same source.
    pub next_out: EdgeId,
    /// Next edge with the same destination.
    pub next_in: EdgeId,
    pub props_row: u32,
    pub created_tx: TxId,
    /// `MAX_TX_ID` while the edge is alive.
    pub deleted_tx: TxId,
}

/// What a node holds, its label list taken as a sequence.
pub struct NodeView {
    pub id: NodeId,
    pub labels: Seq<LabelId>,
    pub first_out: EdgeId,
    pub first_in: EdgeId,
    pub props_row: u32,
    pub created_tx: TxId,
    pub deleted_tx: TxId,
}

impl NodeView {
    pub open spec fn alive_at(self, tx: TxId) -> bool {
        visible_at(self.created_tx, self.deleted_tx, tx)
    }
}

impl View for Node {
    type V = NodeView;

    open spec fn view(&self) -> NodeView {
        NodeView {
            id: self.id,
            labels: self.labels@,
            first_out: self.first_out,
            first_in: self.first_in,
            props_row: self.props_row,
            created_tx: self.created_tx,
            deleted_tx: self.deleted_tx,
        }
    }
}

impl View for Edge {
    type V = Edge;

    open spec fn view(&self) -> Edge {
        *self
    }
}

/// One record of a store's write-ahead log: a record written in full under
/// its id, or the removal of an id.
#[derive(Debug, Clone)]
pub enum WalOp<T> {
    Insert(u64, T),
    Delete(u64),
}

impl<T: View> View for WalOp<T> {
    type V = WalOp<T::V>;

    open spec fn view(&self) -> WalOp<T::V> {
        match self {
            WalOp::Insert(id, t) => WalOp::Insert(*id, t@),
            WalOp::Delete(id) => WalOp::Delete(*id),
        }
    }
}

/// The views of a sequence of log records.
pub open spec fn ops_view<T: View>(ops: Seq<WalOp<T>>) -> Seq<WalOp<T::V>> {
    ops.map_values(|o: WalOp<T>| o@)
}

/// The effect of one log record on a record map.
pub open spec fn apply_op<V>(m: Map<u64, V>, op: WalOp<V>) -> Map<u64, V> {
    match op {
        WalOp::Insert(id, v) => m.insert(id, v),
        WalOp::Delete(id) => m.remove(id),
    }
}

/// Replaying log records in order onto a record map.
pub open spec fn replay_ops<V>(m: Map<u64, V>, ops: Seq<WalOp<V>>) -> Map<u64, V>
    decreases ops.len(),
{
    if ops.len() == 0 {
        m
    } else {
        apply_op(replay_ops(m, ops.drop_last()), ops.last())
    }
}

/// Replaying two batches of records one after the other is replaying their
/// concatenation.
pub proof fn lemma_replay_concat<V>(m: Map<u64, V>, a: Seq<WalOp<V>>, b: Seq<WalOp<V>>)
    ensures
        replay_ops(replay_ops(m, a), b) == replay_ops(m, a + b),
    decreases b.len(),
{
    if b.len() == 0 {
        assert(a + b =~= a);
    } else {
        lemma_replay_concat(m, a, b.drop_last());
        assert((a + b).drop_last() =~= a + b.drop_last());
        assert((a + b).last() == b.last());
    }
}

/// MVCC visibility: a record created at `created` and deleted at `deleted`
/// is visible to the snapshot `tx` exactly when `created <= tx < deleted`.
pub open spec fn visible_at(created: TxId, deleted: TxId, tx: TxId) -> bool {
    created <= tx && tx < deleted
}

impl Node {
    pub open spec fn alive_at(&self, tx: TxId) -> bool {
        visible_at(self.created_tx, self.deleted_tx, tx)
    }

    /// A copy of this node.
    pub fn duplicate(&self) -> (r: Node)
        ensures
            r@ == self@,
    {
        let labels = self.labels.clone();
        assert(labels@ =~= self.labels@);
        Node {
            id: self.id,
            labels,
            first_out: self.first_out,
            first_in: self.first_in,
            props_row: self.props_row,
            created_tx: self.created_tx,
            deleted_tx: self.deleted_tx,
        }
    }

    /// Create a new alive node with empty adjacency chains.
    pub fn new(id: NodeId, labels: Vec<LabelId>, props_row: u32, created_tx: TxId) -> (n: Self)
        ensures
            n.id == id,
            n.labels == labels,
            n.first_out == NULL_EDGE,
            n.first_in == NULL_EDGE,
            n.props_row == props_row,
            n.created_tx == created_tx,
            n.deleted_tx == MAX_TX_ID,
    {
        Node { id, labels, first_out: NULL_EDGE, first_in: NULL_EDGE, props_row, created_tx, deleted_tx: MAX_TX_ID }
    }

    /// Whether this node is visible to a transaction reading at snapshot `tx`.
    pub fn is_alive(&self, tx: TxId) -> (b: bool)
        ensures
            b == self.alive_at(tx),
    {
        self.created_tx <= tx && self.deleted_tx > tx
    }

    /// Mark the node deleted at transaction `tx`.
    pub fn mark_deleted(&mut self, tx: TxId)
        ensures
            *final(self) == (Node { deleted_tx: tx, ..*old(self) }),
    {
        self.deleted_tx = tx;
    }
}

impl Edge {
    pub open spec fn alive_at(&self, tx: TxId) -> bool {
        visible_at(self.created_tx, self.deleted_tx, tx)
    }

    /// Create a new alive edge that is not linked into any chain yet.
    pub fn new(id: EdgeId, src: NodeId, dst: NodeId, etype: TypeId, props_row: u32, created_tx: TxId) -> (e: Self)
        ensures
            e == (Edge {
                id,
                src,
                dst,
                etype,
                next_out: NULL_EDGE,
                next_in: NULL_EDGE,
                props_row,
                created_tx,
                deleted_tx: MAX_TX_ID,
            }),
    {
        Edge {
            id,
            src,
            dst,
            etype,
            next_out: NULL_EDGE,
            next_in: NULL_EDGE,
            props_row,
            created_tx,
            deleted_tx: MAX_TX_ID,
        }
    }

    /// Whether this edge is visible to a transaction reading at snapshot `tx`.
    pub fn is_alive(&self, tx: TxId) -> (b: bool)
        ensures
            b == self.alive_at(tx),
    {
        self.created_tx <= tx && self.deleted_tx > tx
    }

    /// Mark the edge deleted at transaction `tx`.
    pub fn mark_deleted(&mut self, tx: TxId)
        ensures
            *final(self) == (Edge { deleted_tx: tx, ..*old(self) }),
    {
        self.deleted_tx = tx;
    }
}

/// A list of recycled ids with every occurrence of `id` taken out, the rest
/// in order.
pub open spec fn without(f: Seq<u64>, id: u64) -> Seq<u64>
    decreases f.len(),
{
    if f.len() == 0 {
        f
    } else if f.last() == id {
        without(f.drop_last(), id)
    } else {
        without(f.drop_last(), id).push(f.last())
    }
}

/// `without(f, id)` holds exactly the ids of `f` other than `id`, and no
/// id twice when `f` holds none twice.
pub proof fn lemma_without(f: Seq<u64>, id: u64)
    ensures
        forall|x: u64| without(f, id).contains(x) <==> f.contains(x) && x != id,
        f.no_duplicates() ==> without(f, id).no_duplicates(),
    decreases f.len(),
{
    if f.len() > 0 {
        let g = f.drop_last();
        lemma_without(g, id);
        assert forall|x: u64| f.contains(x) <==> g.contains(x) || x == f.last() by {
            if f.contains(x) {
                let k = choose|k: int| 0 <= k < f.len() && f[k] == x;
                if k < f.len() - 1 {
                    assert(g[k] == x);
                }
            }
            if g.contains(x) {
                let k = choose|k: int| 0 <= k < g.len() && g[k] == x;
                assert(f[k] == x);
            }
            if x == f.last() {
                assert(f[f.len() - 1] == x);
            }
        }
        if f.last() != id {
            let w = without(g, id);
            assert forall|x: u64| w.push(f.last()).contains(x) <==> w.contains(x) || x == f.last() by {
                if w.push(f.last()).contains(x) {
                    let k = choose|k: int| 0 <= k < w.len() + 1 && w.push(f.last())[k] == x;
                    if k < w.len() {
                        assert(w[k] == x);
                    }
                }
                if w.contains(x) {
                    let k = choose|k: int| 0 <= k < w.len() && w[k] == x;
                    assert(w.push(f.last())[k] == x);
                }
                if x == f.last() {
                    assert(w.push(f.last())[w.len() as int] == x);
                }
            }
            if f.no_duplicates() {
                assert(g.no_duplicates());
                assert(!g.contains(f.last())) by {
                    if g.contains(f.last()) {
                        let k = choose|k: int| 0 <= k < g.len() && g[k] == f.last();
                        assert(f[k] == f[f.len() - 1]);
                    }
                }
                assert(!w.contains(f.last()));
                assert forall|a: int, b: int| 0 <= a < b < w.len() + 1 implies w.push(f.last())[a] != w.push(f.last())[b] by {
                    if b == w.len() {
                        assert(w.contains(w[a]));
                    }
                }
            }
        } else {
            if f.no_duplicates() {
                assert(g.no_duplicates());
            }
        }
    }
}

/// The recycled ids of `v` without `id`, in order.
pub fn remove_id(v: &Vec<u64>, id: u64) -> (r: Vec<u64>)
    ensures
        r@ == without(v@, id),
{
    let mut r: Vec<u64> = Vec::new();
    let mut i: usize = 0;
    proof {
        assert(v@.take(0) =~= Seq::<u64>::empty());
    }
    while i < v.len()
        invariant
            0 <= i <= v@.len(),
            r@ == without(v@.take(i as int), id),
        decreases v@.len() - i,
    {
        proof {
            assert(v@.take(i + 1).drop_last() =~= v@.take(i as int));
            assert(v@.take(i + 1).last() == v@[i as int]);
        }
        if v[i] != id {
            r.push(v[i]);
        }
        i += 1;
    }
    proof {
        assert(v@.take(v@.len() as int) =~= v@);
    }
    r
}

} // verus!
