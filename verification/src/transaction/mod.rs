//! Transactions: buffered writes applied atomically across the node, edge
//! and property stores, under snapshot reads.
//!
//! A write transaction takes a ticket from the transaction manager and
//! buffers its writes; nothing reaches a store before `commit`. Commit
//! succeeds on the ticket's turn, applies the buffers in a fixed order
//! (node inserts, label updates, node deletes, edge inserts, edge deletes,
//! property writes) stamped with the ticket, and advances the read
//! snapshot to the ticket. Readers see a record exactly when
//! `created_tx <= snapshot < deleted_tx`.

pub mod laws;
pub mod tx_manager;

use vstd::prelude::*;
use crate::storage::edge_store::EdgeStore;
use crate::storage::node_store::{fresh_node, NodeStore};
use crate::storage::prop_store::{cell_model, written, ColumnKey, PropStore, Value, ValueModel};
use crate::storage::{Edge, Node, NodeView};
use crate::types::{EdgeId, LabelId, NodeId, TxId, MAX_TX_ID, NULL_EDGE};
use tx_manager::{turn_of, TxManager};

verus! {

/// A buffered property write: label, property name, row and cell.
pub type PropWrite = (LabelId, Seq<char>, u32, Option<ValueModel>);

/// The node map after inserting fresh nodes, in order, stamped with `tx`.
pub open spec fn apply_node_inserts(m: Map<NodeId, NodeView>, ins: Seq<(NodeId, Seq<LabelId>, u32)>, tx: TxId) -> Map<NodeId, NodeView>
    decreases ins.len(),
{
    if ins.len() == 0 {
        m
    } else {
        let (id, labels, row) = ins.last();
        apply_node_inserts(m, ins.drop_last(), tx).insert(id, fresh_node(id, labels, row, tx))
    }
}

/// The node map after replacing the labels of each present node, in order.
pub open spec fn apply_label_updates(m: Map<NodeId, NodeView>, ups: Seq<(NodeId, Seq<LabelId>)>) -> Map<NodeId, NodeView>
    decreases ups.len(),
{
    if ups.len() == 0 {
        m
    } else {
        let pre = apply_label_updates(m, ups.drop_last());
        let (id, labels) = ups.last();
        if pre.contains_key(id) {
            pre.insert(id, NodeView { labels, ..pre[id] })
        } else {
            pre
        }
    }
}

/// The node map after marking each present node deleted at `tx`.
pub open spec fn apply_node_deletes(m: Map<NodeId, NodeView>, ids: Seq<NodeId>, tx: TxId) -> Map<NodeId, NodeView>
    decreases ids.len(),
{
    if ids.len() == 0 {
        m
    } else {
        let pre = apply_node_deletes(m, ids.drop_last(), tx);
        let id = ids.last();
        if pre.contains_key(id) {
            pre.insert(id, NodeView { deleted_tx: tx, ..pre[id] })
        } else {
            pre
        }
    }
}

/// The edge an insert creates: unlinked, alive from `tx`.
pub open spec fn fresh_edge(id: EdgeId, src: NodeId, dst: NodeId, etype: LabelId, props_row: u32, tx: TxId) -> Edge {
    Edge {
        id,
        src,
        dst,
        etype,
        next_out: NULL_EDGE,
        next_in: NULL_EDGE,
        props_row,
        created_tx: tx,
        deleted_tx: MAX_TX_ID,
    }
}

/// The edge map after inserting fresh edges, in order, stamped with `tx`.
pub open spec fn apply_edge_inserts(m: Map<EdgeId, Edge>, ins: Seq<(EdgeId, NodeId, NodeId, LabelId, u32)>, tx: TxId) -> Map<EdgeId, Edge>
    decreases ins.len(),
{
    if ins.len() == 0 {
        m
    } else {
        let (id, src, dst, etype, row) = ins.last();
        apply_edge_inserts(m, ins.drop_last(), tx).insert(id, fresh_edge(id, src, dst, etype, row, tx))
    }
}

/// The edge map after marking each present edge deleted at `tx`.
pub open spec fn apply_edge_deletes(m: Map<EdgeId, Edge>, ids: Seq<EdgeId>, tx: TxId) -> Map<EdgeId, Edge>
    decreases ids.len(),
{
    if ids.len() == 0 {
        m
    } else {
        let pre = apply_edge_deletes(m, ids.drop_last(), tx);
        let id = ids.last();
        if pre.contains_key(id) {
            pre.insert(id, Edge { deleted_tx: tx, ..pre[id] })
        } else {
            pre
        }
    }
}

/// The columns after each property write, in order; a write to a missing
/// column creates it, and a column grows with empty cells to reach the row.
pub open spec fn apply_prop_writes(cols: Map<ColumnKey, Seq<Option<ValueModel>>>, ws: Seq<PropWrite>) -> Map<ColumnKey, Seq<Option<ValueModel>>>
    decreases ws.len(),
{
    if ws.len() == 0 {
        cols
    } else {
        let pre = apply_prop_writes(cols, ws.drop_last());
        let (label, name, row, v) = ws.last();
        let col = if pre.contains_key((label, name)) { pre[(label, name)] } else { Seq::empty() };
        pre.insert((label, name), written(col, row, v))
    }
}

/// What a transaction holds: its ticket and snapshot, whether it may write,
/// whether it has finished, and its write buffers.
pub struct TxView {
    pub tx_id: TxId,
    pub snapshot: TxId,
    pub writable: bool,
    pub finished: bool,
    pub node_inserts: Seq<(NodeId, Seq<LabelId>, u32)>,
    pub label_updates: Seq<(NodeId, Seq<LabelId>)>,
    pub node_deletes: Seq<NodeId>,
    pub edge_inserts: Seq<(EdgeId, NodeId, NodeId, LabelId, u32)>,
    pub edge_deletes: Seq<EdgeId>,
    pub prop_writes: Seq<PropWrite>,
}

/// A transaction: reads at its snapshot, writes buffered until commit.
///
/// A read transaction (from `Database::begin_read`) has its snapshot as
/// its id; its commit and rollback change nothing. A write transaction
/// dropped without commit or rollback keeps its ticket open, and later
/// tickets cannot commit until it is rolled back.
pub struct Transaction {
    tx_id: TxId,
    snapshot: TxId,
    writable: bool,
    finished: bool,
    node_inserts: Vec<(NodeId, Vec<LabelId>, u32)>,
    label_updates: Vec<(NodeId, Vec<LabelId>)>,
    node_deletes: Vec<NodeId>,
    edge_inserts: Vec<(EdgeId, NodeId, NodeId, LabelId, u32)>,
    edge_deletes: Vec<EdgeId>,
    prop_writes: Vec<(LabelId, String, u32, Option<Value>)>,
}

impl View for Transaction {
    type V = TxView;

    closed spec fn view(&self) -> TxView {
        TxView {
            tx_id: self.tx_id,
            snapshot: self.snapshot,
            writable: self.writable,
            finished: self.finished,
            node_inserts: node_inserts_view(self.node_inserts@),
            label_updates: label_updates_view(self.label_updates@),
            node_deletes: self.node_deletes@,
            edge_inserts: self.edge_inserts@,
            edge_deletes: self.edge_deletes@,
            prop_writes: prop_writes_view(self.prop_writes@),
        }
    }
}

/// The transaction state after a finished commit or rollback: buffers
/// emptied, nothing else changed.
pub open spec fn finished_view(v: TxView) -> TxView {
    TxView {
        finished: true,
        node_inserts: Seq::empty(),
        label_updates: Seq::empty(),
        node_deletes: Seq::empty(),
        edge_inserts: Seq::empty(),
        edge_deletes: Seq::empty(),
        prop_writes: Seq::empty(),
        ..v
    }
}

/// Every buffered property row can be reached by growing a column on this
/// machine (a column index must fit in `usize`).
pub open spec fn rows_fit(v: TxView) -> bool {
    forall|i: int| 0 <= i < v.prop_writes.len() ==> (#[trigger] v.prop_writes[i]).2 < usize::MAX
}

/// A newly begun transaction: open, with empty buffers.
pub open spec fn opened(tx_id: TxId, snapshot: TxId, writable: bool) -> TxView {
    TxView {
        tx_id,
        snapshot,
        writable,
        finished: false,
        node_inserts: Seq::empty(),
        label_updates: Seq::empty(),
        node_deletes: Seq::empty(),
        edge_inserts: Seq::empty(),
        edge_deletes: Seq::empty(),
        prop_writes: Seq::empty(),
    }
}

/// What a node insert buffer holds.
pub open spec fn node_inserts_view(v: Seq<(NodeId, Vec<LabelId>, u32)>) -> Seq<(NodeId, Seq<LabelId>, u32)> {
    v.map_values(|r: (NodeId, Vec<LabelId>, u32)| (r.0, r.1@, r.2))
}

/// What a label update buffer holds.
pub open spec fn label_updates_view(v: Seq<(NodeId, Vec<LabelId>)>) -> Seq<(NodeId, Seq<LabelId>)> {
    v.map_values(|r: (NodeId, Vec<LabelId>)| (r.0, r.1@))
}

/// What a property write buffer holds.
pub open spec fn prop_writes_view(v: Seq<(LabelId, String, u32, Option<Value>)>) -> Seq<PropWrite> {
    v.map_values(|r: (LabelId, String, u32, Option<Value>)| (r.0, r.1@, r.2, cell_model(r.3)))
}

fn apply_node_insert_buffer(nodes: &mut NodeStore, ins: Vec<(NodeId, Vec<LabelId>, u32)>, tx: TxId)
    requires
        old(nodes).wf(),
    ensures
        final(nodes).wf(),
        final(nodes)@ == apply_node_inserts(old(nodes)@, node_inserts_view(ins@), tx),
        final(nodes).free_ids() == old(nodes).free_ids(),
        final(nodes).next_fresh() == old(nodes).next_fresh(),
        final(nodes).wal_base() == old(nodes).wal_base(),
{
    let ghost s0 = ins@;
    let ghost iv = node_inserts_view(ins@);
    let ghost m0 = nodes@;
    for r in it: ins.into_iter()
        invariant
            it.seq() == s0,
            iv == node_inserts_view(s0),
            nodes.wf(),
            nodes@ == apply_node_inserts(m0, iv.take(it.index()), tx),
            nodes.free_ids() == old(nodes).free_ids(),
            nodes.next_fresh() == old(nodes).next_fresh(),
            nodes.wal_base() == old(nodes).wal_base(),
    {
        let ghost k = it.index();
        let (id, labels, row) = r;
        proof {
            assert(iv.take(k + 1).drop_last() =~= iv.take(k));
            assert(iv.take(k + 1).last() == (id, labels@, row));
        }
        nodes.insert_with_id(id, labels, row, tx);
    }
    proof {
        assert(iv.take(iv.len() as int) =~= iv);
    }
}

fn apply_label_update_buffer(nodes: &mut NodeStore, ups: Vec<(NodeId, Vec<LabelId>)>)
    requires
        old(nodes).wf(),
    ensures
        final(nodes).wf(),
        final(nodes)@ == apply_label_updates(old(nodes)@, label_updates_view(ups@)),
        final(nodes).keeps_counters(old(nodes)),
{
    let ghost s0 = ups@;
    let ghost uv = label_updates_view(ups@);
    let ghost m0 = nodes@;
    for r in it: ups.into_iter()
        invariant
            it.seq() == s0,
            uv == label_updates_view(s0),
            nodes.wf(),
            nodes@ == apply_label_updates(m0, uv.take(it.index())),
            nodes.keeps_counters(old(nodes)),
    {
        let ghost k = it.index();
        let (id, labels) = r;
        proof {
            assert(uv.take(k + 1).drop_last() =~= uv.take(k));
            assert(uv.take(k + 1).last() == (id, labels@));
        }
        nodes.update_labels(id, labels);
    }
    proof {
        assert(uv.take(uv.len() as int) =~= uv);
    }
}

fn apply_node_delete_buffer(nodes: &mut NodeStore, ids: Vec<NodeId>, tx: TxId)
    requires
        old(nodes).wf(),
    ensures
        final(nodes).wf(),
        final(nodes)@ == apply_node_deletes(old(nodes)@, ids@, tx),
        final(nodes).keeps_counters(old(nodes)),
{
    let ghost m0 = nodes@;
    let mut i: usize = 0;
    while i < ids.len()
        invariant
            0 <= i <= ids.len(),
            nodes.wf(),
            nodes@ == apply_node_deletes(m0, ids@.take(i as int), tx),
            nodes.keeps_counters(old(nodes)),
        decreases ids.len() - i,
    {
        proof {
            assert(ids@.take(i + 1).drop_last() =~= ids@.take(i as int));
        }
        nodes.soft_delete(ids[i], tx);
        i += 1;
    }
    proof {
        assert(ids@.take(ids@.len() as int) =~= ids@);
    }
}

fn apply_edge_insert_buffer(edges: &mut EdgeStore, ins: Vec<(EdgeId, NodeId, NodeId, LabelId, u32)>, tx: TxId)
    requires
        old(edges).wf(),
    ensures
        final(edges).wf(),
        final(edges)@ == apply_edge_inserts(old(edges)@, ins@, tx),
        final(edges).keeps_counters(old(edges)),
{
    let ghost m0 = edges@;
    let mut i: usize = 0;
    while i < ins.len()
        invariant
            0 <= i <= ins.len(),
            edges.wf(),
            edges@ == apply_edge_inserts(m0, ins@.take(i as int), tx),
            edges.keeps_counters(old(edges)),
        decreases ins.len() - i,
    {
        proof {
            assert(ins@.take(i + 1).drop_last() =~= ins@.take(i as int));
        }
        let (id, src, dst, etype, row) = ins[i];
        edges.insert_with_id(id, src, dst, etype, row, tx);
        i += 1;
    }
    proof {
        assert(ins@.take(ins@.len() as int) =~= ins@);
    }
}

fn apply_edge_delete_buffer(edges: &mut EdgeStore, ids: Vec<EdgeId>, tx: TxId)
    requires
        old(edges).wf(),
    ensures
        final(edges).wf(),
        final(edges)@ == apply_edge_deletes(old(edges)@, ids@, tx),
        final(edges).keeps_counters(old(edges)),
{
    let ghost m0 = edges@;
    let mut i: usize = 0;
    while i < ids.len()
        invariant
            0 <= i <= ids.len(),
            edges.wf(),
            edges@ == apply_edge_deletes(m0, ids@.take(i as int), tx),
            edges.keeps_counters(old(edges)),
        decreases ids.len() - i,
    {
        proof {
            assert(ids@.take(i + 1).drop_last() =~= ids@.take(i as int));
        }
        edges.soft_delete(ids[i], tx);
        i += 1;
    }
    proof {
        assert(ids@.take(ids@.len() as int) =~= ids@);
    }
}

fn apply_prop_write_buffer(props: &mut PropStore, ws: Vec<(LabelId, String, u32, Option<Value>)>)
    requires
        old(props).wf(),
        forall|i: int| 0 <= i < ws@.len() ==> (#[trigger] ws@[i]).2 < usize::MAX,
    ensures
        final(props).wf(),
        final(props).columns() == apply_prop_writes(old(props).columns(), prop_writes_view(ws@)),
        final(props).rows() == old(props).rows(),
        final(props).wal_base() == old(props).wal_base(),
{
    let ghost s0 = ws@;
    let ghost wv = prop_writes_view(ws@);
    let ghost c0 = props.columns();
    for w in it: ws.into_iter()
        invariant
            it.seq() == s0,
            wv == prop_writes_view(s0),
            forall|i: int| 0 <= i < s0.len() ==> (#[trigger] s0[i]).2 < usize::MAX,
            props.wf(),
            props.columns() == apply_prop_writes(c0, wv.take(it.index())),
            props.rows() == old(props).rows(),
            props.wal_base() == old(props).wal_base(),
    {
        let ghost k = it.index();
        let (label, name, row, value) = w;
        proof {
            assert(wv.take(k + 1).drop_last() =~= wv.take(k));
            assert(wv.take(k + 1).last() == (label, name@, row, cell_model(value)));
            assert(s0[k].2 < usize::MAX);
        }
        props.insert_prop(label, name.as_str(), row, value);
    }
    proof {
        assert(wv.take(wv.len() as int) =~= wv);
    }
}

/// The database: the transaction manager and the three stores.
pub struct Database {
    pub tx_manager: TxManager,
    pub nodes: NodeStore,
    pub edges: EdgeStore,
    pub props: PropStore,
}

impl Database {
    pub open spec fn wf(&self) -> bool {
        &&& self.nodes.wf()
        &&& self.edges.wf()
        &&& self.props.wf()
    }

    /// The same stores and transaction counters as `other`.
    pub open spec fn same_as(&self, other: &Database) -> bool {
        &&& self.tx_manager.next_ticket() == other.tx_manager.next_ticket()
        &&& self.tx_manager.committed() == other.tx_manager.committed()
        &&& self.nodes == other.nodes
        &&& self.edges == other.edges
        &&& self.props == other.props
    }

    /// An empty in-memory database.
    pub fn memory() -> (db: Self)
        ensures
            db.wf(),
            db.tx_manager.next_ticket() == 1,
            db.tx_manager.committed() == 0,
            db.nodes@ == Map::<NodeId, NodeView>::empty(),
            db.nodes.free_ids().len() == 0,
            db.nodes.next_fresh() == 0,
            db.edges@ == Map::<EdgeId, Edge>::empty(),
            db.edges.free_ids().len() == 0,
            db.edges.next_fresh() == 0,
            db.props.columns() == Map::<ColumnKey, Seq<Option<ValueModel>>>::empty(),
            db.props.rows() == Map::<LabelId, u32>::empty(),
    {
        Database {
            tx_manager: TxManager::new(),
            nodes: NodeStore::new(),
            edges: EdgeStore::new(),
            props: PropStore::new(),
        }
    }

    /// Begin a read-only transaction at the latest committed snapshot.
    pub fn begin_read(&self) -> (tx: Transaction)
        ensures
            tx@ == opened(self.tx_manager.committed(), self.tx_manager.committed(), false),
    {
        let snap = self.tx_manager.begin_read();
        Transaction::new(snap, snap, false)
    }

    /// Begin a write transaction: take the next ticket, and read at the
    /// latest committed snapshot.
    pub fn begin_write(&mut self) -> (tx: Transaction)
        ensures
            tx@ == opened(old(self).tx_manager.next_ticket(), old(self).tx_manager.committed(), true),
            final(self).tx_manager.next_ticket() == vstd::wrapping::u64_specs::wrapping_add(old(self).tx_manager.next_ticket(), 1),
            final(self).tx_manager.committed() == old(self).tx_manager.committed(),
            final(self).nodes == old(self).nodes,
            final(self).edges == old(self).edges,
            final(self).props == old(self).props,
    {
        let tx_id = self.tx_manager.begin_write();
        let snap = self.tx_manager.latest_committed();
        Transaction::new(tx_id, snap, true)
    }
}

impl Transaction {
    fn new(tx_id: TxId, snapshot: TxId, writable: bool) -> (tx: Transaction)
        ensures
            tx@ == opened(tx_id, snapshot, writable),
    {
        let tx = Transaction {
            tx_id,
            snapshot,
            writable,
            finished: false,
            node_inserts: Vec::new(),
            label_updates: Vec::new(),
            node_deletes: Vec::new(),
            edge_inserts: Vec::new(),
            edge_deletes: Vec::new(),
            prop_writes: Vec::new(),
        };
        proof {
            assert(tx@.node_inserts =~= Seq::empty());
            assert(tx@.label_updates =~= Seq::empty());
            assert(tx@.prop_writes =~= Seq::empty());
        }
        tx
    }

    /// Our ticket (not yet committed: visible only to us).
    pub fn tx_id(&self) -> (t: TxId)
        ensures
            t == self@.tx_id,
    {
        self.tx_id
    }

    /// The snapshot our reads see.
    pub fn snapshot(&self) -> (s: TxId)
        ensures
            s == self@.snapshot,
    {
        self.snapshot
    }
    // ── Buffered writes ──────────────────────────────────────────────

    /// Create a node: its id is allocated now, the node is inserted on
    /// commit.
    pub fn create_node(&mut self, db: &mut Database, labels: Vec<LabelId>, props_row: u32) -> (id: NodeId)
        requires
            old(db).wf(),
        ensures
            final(db).wf(),
            old(db).nodes.allocates(&final(db).nodes, id),
            old(db).nodes.alloc_sound() && old(db).nodes.next_fresh() < u64::MAX ==> {
                &&& !old(db).nodes@.contains_key(id)
                &&& final(db).nodes.alloc_sound()
            },
            final(db).nodes@ == old(db).nodes@,
            final(db).nodes.total() == old(db).nodes.total(),
            final(db).nodes.wal_ops() == old(db).nodes.wal_ops(),
            final(db).nodes.wal_base() == old(db).nodes.wal_base(),
            final(db).edges == old(db).edges,
            final(db).props == old(db).props,
            final(db).tx_manager == old(db).tx_manager,
            final(self)@ == (TxView { node_inserts: old(self)@.node_inserts.push((id, labels@, props_row)), ..old(self)@ }),
    {
        let id = db.nodes.alloc_id_direct();
        let ghost labels_v = labels@;
        self.node_inserts.push((id, labels, props_row));
        proof {
            assert(self@.node_inserts =~= old(self)@.node_inserts.push((id, labels_v, props_row)));
        }
        id
    }

    /// Replace a node's labels on commit (a node not present then is left
    /// alone).
    pub fn update_node_labels(&mut self, id: NodeId, labels: Vec<LabelId>)
        ensures
            final(self)@ == (TxView { label_updates: old(self)@.label_updates.push((id, labels@)), ..old(self)@ }),
    {
        let ghost labels_v = labels@;
        self.label_updates.push((id, labels));
        proof {
            assert(self@.label_updates =~= old(self)@.label_updates.push((id, labels_v)));
        }
    }

    /// Delete a node on commit.
    pub fn delete_node(&mut self, id: NodeId)
        ensures
            final(self)@ == (TxView { node_deletes: old(self)@.node_deletes.push(id), ..old(self)@ }),
    {
        self.node_deletes.push(id);
    }

    /// Create an edge: its id is allocated now, the edge is inserted on
    /// commit.
    pub fn create_edge(&mut self, db: &mut Database, src: NodeId, dst: NodeId, etype: LabelId, props_row: u32) -> (id: EdgeId)
        requires
            old(db).wf(),
        ensures
            final(db).wf(),
            old(db).edges.allocates(&final(db).edges, id),
            old(db).edges.alloc_sound() && old(db).edges.next_fresh() < u64::MAX ==> {
                &&& !old(db).edges@.contains_key(id)
                &&& final(db).edges.alloc_sound()
            },
            final(db).edges@ == old(db).edges@,
            final(db).edges.wal_ops() == old(db).edges.wal_ops(),
            final(db).edges.wal_base() == old(db).edges.wal_base(),
            final(db).nodes == old(db).nodes,
            final(db).props == old(db).props,
            final(db).tx_manager == old(db).tx_manager,
            final(self)@ == (TxView { edge_inserts: old(self)@.edge_inserts.push((id, src, dst, etype, props_row)), ..old(self)@ }),
    {
        let id = db.edges.alloc_id_direct();
        self.edge_inserts.push((id, src, dst, etype, props_row));
        id
    }

    /// Delete an edge on commit.
    pub fn delete_edge(&mut self, id: EdgeId)
        ensures
            final(self)@ == (TxView { edge_deletes: old(self)@.edge_deletes.push(id), ..old(self)@ }),
    {
        self.edge_deletes.push(id);
    }

    /// Set (or, with `None`, clear) a property on commit.
    pub fn set_prop(&mut self, label: LabelId, prop: &str, row: u32, value: Option<Value>)
        requires
            (row as int) < usize::MAX,
        ensures
            final(self)@ == (TxView {
                prop_writes: old(self)@.prop_writes.push((label, prop@, row, cell_model(value))),
                ..old(self)@
            }),
    {
        let name = prop.to_string();
        let ghost cell = cell_model(value);
        self.prop_writes.push((label, name, row, value));
        proof {
            assert(self@.prop_writes =~= old(self)@.prop_writes.push((label, prop@, row, cell)));
        }
    }

    // ── Reads at the snapshot ────────────────────────────────────────

    /// The node `id` as our snapshot sees it: `None` when it is absent or
    /// not alive at the snapshot.
    pub fn get_node(&self, db: &Database, id: NodeId) -> (r: Option<Node>)
        ensures
            match r {
                Some(n) => db.nodes@.contains_key(id) && n@ == db.nodes@[id] && n@.alive_at(self@.snapshot),
                None => !(db.nodes@.contains_key(id) && db.nodes@[id].alive_at(self@.snapshot)),
            },
    {
        match db.nodes.get(id) {
            Some(n) => {
                if n.is_alive(self.snapshot) {
                    Some(n)
                } else {
                    None
                }
            },
            None => None,
        }
    }

    /// The edge `id` as our snapshot sees it: `None` when it is absent or
    /// not alive at the snapshot.
    pub fn get_edge(&self, db: &Database, id: EdgeId) -> (r: Option<Edge>)
        ensures
            match r {
                Some(e) => db.edges@.contains_key(id) && e == db.edges@[id] && e.alive_at(self@.snapshot),
                None => !(db.edges@.contains_key(id) && db.edges@[id].alive_at(self@.snapshot)),
            },
    {
        match db.edges.get(id) {
            Some(e) => {
                if e.is_alive(self.snapshot) {
                    Some(e)
                } else {
                    None
                }
            },
            None => None,
        }
    }
    // ── Commit / rollback ────────────────────────────────────────────

    /// Apply all buffered writes atomically, stamped with our ticket.
    ///
    /// A read transaction's commit changes nothing and succeeds. A write
    /// transaction that has already finished, or whose turn has not come
    /// (an earlier ticket is still open), gets `Err("timeout")` and
    /// nothing changes. Otherwise the read snapshot advances to our ticket
    /// and the buffers are applied in order: node inserts, label updates,
    /// node deletes, edge inserts, edge deletes, property writes.
    pub fn commit(&mut self, db: &mut Database) -> (r: Result<(), &'static str>)
        requires
            old(db).wf(),
            rows_fit(old(self)@),
        ensures
            final(db).wf(),
            final(db).tx_manager.next_ticket() == old(db).tx_manager.next_ticket(),
            !old(self)@.writable ==> r is Ok && final(db).same_as(old(db)) && final(self)@ == old(self)@,
            old(self)@.writable && (old(self)@.finished || old(db).tx_manager.committed() != turn_of(old(self)@.tx_id)) ==> {
                &&& r matches Err(msg) && msg@ == "timeout"@
                &&& final(db).same_as(old(db))
                &&& final(self)@ == old(self)@
            },
            old(self)@.writable && !old(self)@.finished && old(db).tx_manager.committed() == turn_of(old(self)@.tx_id) ==> {
                let v = old(self)@;
                &&& r is Ok
                &&& final(self)@ == finished_view(v)
                &&& final(db).tx_manager.committed() == v.tx_id
                &&& final(db).nodes@ == apply_node_deletes(
                    apply_label_updates(apply_node_inserts(old(db).nodes@, v.node_inserts, v.tx_id), v.label_updates),
                    v.node_deletes, v.tx_id)
                &&& final(db).nodes.free_ids() == old(db).nodes.free_ids()
                &&& final(db).nodes.next_fresh() == old(db).nodes.next_fresh()
                &&& final(db).nodes.wal_base() == old(db).nodes.wal_base()
                &&& final(db).edges@ == apply_edge_deletes(apply_edge_inserts(old(db).edges@, v.edge_inserts, v.tx_id), v.edge_deletes, v.tx_id)
                &&& final(db).edges.keeps_counters(&old(db).edges)
                &&& final(db).props.columns() == apply_prop_writes(old(db).props.columns(), v.prop_writes)
                &&& final(db).props.rows() == old(db).props.rows()
                &&& final(db).props.wal_base() == old(db).props.wal_base()
            },
    {
        if !self.writable {
            return Ok(());
        }
        if self.finished {
            proof {
                reveal_strlit("timeout");
            }
            return Err("timeout");
        }
        match db.tx_manager.commit(self.tx_id) {
            Err(e) => {
                return Err(e);
            },
            Ok(()) => {},
        }
        let tx = self.tx_id;
        let ghost v = self@;
        let mut node_inserts = Vec::new();
        std::mem::swap(&mut node_inserts, &mut self.node_inserts);
        let mut label_updates = Vec::new();
        std::mem::swap(&mut label_updates, &mut self.label_updates);
        let mut node_deletes = Vec::new();
        std::mem::swap(&mut node_deletes, &mut self.node_deletes);
        let mut edge_inserts = Vec::new();
        std::mem::swap(&mut edge_inserts, &mut self.edge_inserts);
        let mut edge_deletes = Vec::new();
        std::mem::swap(&mut edge_deletes, &mut self.edge_deletes);
        let mut prop_writes = Vec::new();
        std::mem::swap(&mut prop_writes, &mut self.prop_writes);
        proof {
            assert forall|i: int| 0 <= i < prop_writes@.len() implies (#[trigger] prop_writes@[i]).2 < usize::MAX by {
                assert(v.prop_writes[i].2 == prop_writes@[i].2);
            }
        }

        apply_node_insert_buffer(&mut db.nodes, node_inserts, tx);
        apply_label_update_buffer(&mut db.nodes, label_updates);
        apply_node_delete_buffer(&mut db.nodes, node_deletes, tx);
        apply_edge_insert_buffer(&mut db.edges, edge_inserts, tx);
        apply_edge_delete_buffer(&mut db.edges, edge_deletes, tx);
        apply_prop_write_buffer(&mut db.props, prop_writes);

        db.nodes.flush();
        db.edges.flush();
        db.props.flush();

        self.finished = true;
        proof {
            assert(self@.node_inserts =~= Seq::empty());
            assert(self@.label_updates =~= Seq::empty());
            assert(self@.prop_writes =~= Seq::empty());
        }
        Ok(())
    }

    /// Discard the buffered writes and release our ticket, so later tickets
    /// may commit. The ticket is released on its turn only: while an
    /// earlier ticket is still open, or once the transaction has finished,
    /// or for a read transaction, nothing changes. No store is touched.
    pub fn rollback(&mut self, db: &mut Database)
        ensures
            final(db).nodes == old(db).nodes,
            final(db).edges == old(db).edges,
            final(db).props == old(db).props,
            final(db).tx_manager.next_ticket() == old(db).tx_manager.next_ticket(),
            if old(self)@.writable && !old(self)@.finished && old(db).tx_manager.committed() == turn_of(old(self)@.tx_id) {
                &&& final(db).tx_manager.committed() == old(self)@.tx_id
                &&& final(self)@ == finished_view(old(self)@)
            } else {
                &&& final(db).tx_manager.committed() == old(db).tx_manager.committed()
                &&& final(self)@ == old(self)@
            },
    {
        if self.writable && !self.finished && db.tx_manager.latest_committed() == self.tx_id.wrapping_sub(1) {
            db.tx_manager.rollback(self.tx_id);
            self.finished = true;
            self.node_inserts = Vec::new();
            self.label_updates = Vec::new();
            self.node_deletes = Vec::new();
            self.edge_inserts = Vec::new();
            self.edge_deletes = Vec::new();
            self.prop_writes = Vec::new();
            proof {
                assert(self@.node_inserts =~= Seq::empty());
                assert(self@.label_updates =~= Seq::empty());
                assert(self@.prop_writes =~= Seq::empty());
            }
        }
    }
}

} // verus!
