//! What a committed transaction leaves behind, stated over the effect that
//! `Transaction::commit` promises on each store.

use vstd::prelude::*;
use crate::storage::prop_store::{written, ColumnKey, ValueModel};
use crate::storage::node_store::NodeStore;
use crate::storage::{Edge, NodeView};
use crate::transaction::{
    apply_edge_deletes, apply_edge_inserts, apply_label_updates, apply_node_deletes,
    apply_node_inserts, apply_prop_writes, PropWrite,
};
use crate::types::{EdgeId, LabelId, NodeId, TxId, MAX_TX_ID, NULL_EDGE};

verus! {

proof fn lemma_node_inserts_hold(m: Map<NodeId, NodeView>, ins: Seq<(NodeId, Seq<LabelId>, u32)>, tx: TxId, id: NodeId, i: int)
    requires
        0 <= i < ins.len(),
        ins[i].0 == id,
    ensures
        apply_node_inserts(m, ins, tx).contains_key(id),
        apply_node_inserts(m, ins, tx)[id].created_tx == tx,
        apply_node_inserts(m, ins, tx)[id].deleted_tx == MAX_TX_ID,
    decreases ins.len(),
{
    if ins.last().0 != id {
        assert(i != ins.len() - 1);
        assert(ins.drop_last()[i] == ins[i]);
        lemma_node_inserts_hold(m, ins.drop_last(), tx, id, i);
    }
}

proof fn lemma_label_updates_keep_stamps(m: Map<NodeId, NodeView>, ups: Seq<(NodeId, Seq<LabelId>)>, id: NodeId)
    ensures
        apply_label_updates(m, ups).contains_key(id) == m.contains_key(id),
        m.contains_key(id) ==> apply_label_updates(m, ups)[id].created_tx == m[id].created_tx,
        m.contains_key(id) ==> apply_label_updates(m, ups)[id].deleted_tx == m[id].deleted_tx,
    decreases ups.len(),
{
    if ups.len() > 0 {
        lemma_label_updates_keep_stamps(m, ups.drop_last(), id);
    }
}

proof fn lemma_node_deletes_elsewhere(m: Map<NodeId, NodeView>, dels: Seq<NodeId>, tx: TxId, id: NodeId)
    requires
        !dels.contains(id),
    ensures
        apply_node_deletes(m, dels, tx).contains_key(id) == m.contains_key(id),
        m.contains_key(id) ==> apply_node_deletes(m, dels, tx)[id] == m[id],
    decreases dels.len(),
{
    if dels.len() > 0 {
        assert(!dels.drop_last().contains(id)) by {
            if dels.drop_last().contains(id) {
                let j = choose|j: int| 0 <= j < dels.drop_last().len() && dels.drop_last()[j] == id;
                assert(dels[j] == id);
            }
        }
        assert(dels.last() != id) by {
            assert(dels[dels.len() - 1] == dels.last());
        }
        lemma_node_deletes_elsewhere(m, dels.drop_last(), tx, id);
    }
}

proof fn lemma_node_deletes_hit(m: Map<NodeId, NodeView>, dels: Seq<NodeId>, tx: TxId, id: NodeId)
    requires
        dels.contains(id),
        m.contains_key(id),
    ensures
        apply_node_deletes(m, dels, tx).contains_key(id),
        apply_node_deletes(m, dels, tx)[id].deleted_tx == tx,
    decreases dels.len(),
{
    let pre = apply_node_deletes(m, dels.drop_last(), tx);
    if dels.last() == id {
        if dels.drop_last().contains(id) {
            lemma_node_deletes_hit(m, dels.drop_last(), tx, id);
        } else {
            lemma_node_deletes_elsewhere(m, dels.drop_last(), tx, id);
        }
    } else {
        assert(dels.drop_last().contains(id)) by {
            let j = choose|j: int| 0 <= j < dels.len() && dels[j] == id;
            assert(j != dels.len() - 1);
            assert(dels.drop_last()[j] == id);
        }
        lemma_node_deletes_hit(m, dels.drop_last(), tx, id);
    }
}

/// A node that a committed transaction inserts and does not delete is
/// visible exactly to the snapshots from the transaction's ticket on (up to
/// the reserved `MAX_TX_ID`), whatever its label updates.
pub proof fn lemma_committed_node_visible_from_ticket(
    m: Map<NodeId, NodeView>,
    ins: Seq<(NodeId, Seq<LabelId>, u32)>,
    ups: Seq<(NodeId, Seq<LabelId>)>,
    dels: Seq<NodeId>,
    tx: TxId,
    id: NodeId,
    snapshot: TxId,
)
    requires
        exists|i: int| 0 <= i < ins.len() && (#[trigger] ins[i]).0 == id,
        !dels.contains(id),
        snapshot < MAX_TX_ID,
    ensures
        apply_node_deletes(apply_label_updates(apply_node_inserts(m, ins, tx), ups), dels, tx).contains_key(id),
        apply_node_deletes(apply_label_updates(apply_node_inserts(m, ins, tx), ups), dels, tx)[id].alive_at(snapshot)
            <==> tx <= snapshot,
{
    let i = choose|i: int| 0 <= i < ins.len() && (#[trigger] ins[i]).0 == id;
    let a = apply_node_inserts(m, ins, tx);
    lemma_node_inserts_hold(m, ins, tx, id, i);
    lemma_label_updates_keep_stamps(a, ups, id);
    lemma_node_deletes_elsewhere(apply_label_updates(a, ups), dels, tx, id);
}

/// A node that a committed transaction deletes, and that exists when the
/// commit applies its deletes, is hidden from every snapshot from the
/// transaction's ticket on.
pub proof fn lemma_committed_node_delete_hides(
    m: Map<NodeId, NodeView>,
    ins: Seq<(NodeId, Seq<LabelId>, u32)>,
    ups: Seq<(NodeId, Seq<LabelId>)>,
    dels: Seq<NodeId>,
    tx: TxId,
    id: NodeId,
    snapshot: TxId,
)
    requires
        dels.contains(id),
        apply_node_inserts(m, ins, tx).contains_key(id),
        tx <= snapshot,
    ensures
        apply_node_deletes(apply_label_updates(apply_node_inserts(m, ins, tx), ups), dels, tx).contains_key(id),
        !apply_node_deletes(apply_label_updates(apply_node_inserts(m, ins, tx), ups), dels, tx)[id].alive_at(snapshot),
{
    let a = apply_node_inserts(m, ins, tx);
    lemma_label_updates_keep_stamps(a, ups, id);
    lemma_node_deletes_hit(apply_label_updates(a, ups), dels, tx, id);
}

proof fn lemma_edge_inserts_hold(m: Map<EdgeId, Edge>, ins: Seq<(EdgeId, NodeId, NodeId, LabelId, u32)>, tx: TxId, id: EdgeId, i: int)
    requires
        0 <= i < ins.len(),
        ins[i].0 == id,
    ensures
        apply_edge_inserts(m, ins, tx).contains_key(id),
        apply_edge_inserts(m, ins, tx)[id].created_tx == tx,
        apply_edge_inserts(m, ins, tx)[id].deleted_tx == MAX_TX_ID,
    decreases ins.len(),
{
    if ins.last().0 != id {
        assert(i != ins.len() - 1);
        assert(ins.drop_last()[i] == ins[i]);
        lemma_edge_inserts_hold(m, ins.drop_last(), tx, id, i);
    }
}

proof fn lemma_edge_deletes_elsewhere(m: Map<EdgeId, Edge>, dels: Seq<EdgeId>, tx: TxId, id: EdgeId)
    requires
        !dels.contains(id),
    ensures
        apply_edge_deletes(m, dels, tx).contains_key(id) == m.contains_key(id),
        m.contains_key(id) ==> apply_edge_deletes(m, dels, tx)[id] == m[id],
    decreases dels.len(),
{
    if dels.len() > 0 {
        assert(!dels.drop_last().contains(id)) by {
            if dels.drop_last().contains(id) {
                let j = choose|j: int| 0 <= j < dels.drop_last().len() && dels.drop_last()[j] == id;
                assert(dels[j] == id);
            }
        }
        assert(dels.last() != id) by {
            assert(dels[dels.len() - 1] == dels.last());
        }
        lemma_edge_deletes_elsewhere(m, dels.drop_last(), tx, id);
    }
}

proof fn lemma_edge_deletes_hit(m: Map<EdgeId, Edge>, dels: Seq<EdgeId>, tx: TxId, id: EdgeId)
    requires
        dels.contains(id),
        m.contains_key(id),
    ensures
        apply_edge_deletes(m, dels, tx).contains_key(id),
        apply_edge_deletes(m, dels, tx)[id].deleted_tx == tx,
    decreases dels.len(),
{
    if dels.last() == id {
        if dels.drop_last().contains(id) {
            lemma_edge_deletes_hit(m, dels.drop_last(), tx, id);
        } else {
            lemma_edge_deletes_elsewhere(m, dels.drop_last(), tx, id);
        }
    } else {
        assert(dels.drop_last().contains(id)) by {
            let j = choose|j: int| 0 <= j < dels.len() && dels[j] == id;
            assert(j != dels.len() - 1);
            assert(dels.drop_last()[j] == id);
        }
        lemma_edge_deletes_hit(m, dels.drop_last(), tx, id);
    }
}

/// An edge that a committed transaction inserts and does not delete is
/// visible exactly to the snapshots from the transaction's ticket on (up to
/// the reserved `MAX_TX_ID`).
pub proof fn lemma_committed_edge_visible_from_ticket(
    m: Map<EdgeId, Edge>,
    ins: Seq<(EdgeId, NodeId, NodeId, LabelId, u32)>,
    dels: Seq<EdgeId>,
    tx: TxId,
    id: EdgeId,
    snapshot: TxId,
)
    requires
        exists|i: int| 0 <= i < ins.len() && (#[trigger] ins[i]).0 == id,
        !dels.contains(id),
        snapshot < MAX_TX_ID,
    ensures
        apply_edge_deletes(apply_edge_inserts(m, ins, tx), dels, tx).contains_key(id),
        apply_edge_deletes(apply_edge_inserts(m, ins, tx), dels, tx)[id].alive_at(snapshot) <==> tx <= snapshot,
{
    let i = choose|i: int| 0 <= i < ins.len() && (#[trigger] ins[i]).0 == id;
    lemma_edge_inserts_hold(m, ins, tx, id, i);
    lemma_edge_deletes_elsewhere(apply_edge_inserts(m, ins, tx), dels, tx, id);
}

/// An edge that a committed transaction deletes, and that exists when the
/// commit applies its deletes, is hidden from every snapshot from the
/// transaction's ticket on.
pub proof fn lemma_committed_edge_delete_hides(
    m: Map<EdgeId, Edge>,
    ins: Seq<(EdgeId, NodeId, NodeId, LabelId, u32)>,
    dels: Seq<EdgeId>,
    tx: TxId,
    id: EdgeId,
    snapshot: TxId,
)
    requires
        dels.contains(id),
        apply_edge_inserts(m, ins, tx).contains_key(id),
        tx <= snapshot,
    ensures
        apply_edge_deletes(apply_edge_inserts(m, ins, tx), dels, tx).contains_key(id),
        !apply_edge_deletes(apply_edge_inserts(m, ins, tx), dels, tx)[id].alive_at(snapshot),
{
    lemma_edge_deletes_hit(apply_edge_inserts(m, ins, tx), dels, tx, id);
}

/// Property writes read back: after a committed transaction's property
/// writes, the cell at (label, name, row) holds the value of the last write
/// to that cell.
pub proof fn lemma_prop_writes_read_back(
    cols: Map<ColumnKey, Seq<Option<ValueModel>>>,
    ws: Seq<PropWrite>,
    i: int,
)
    requires
        0 <= i < ws.len(),
        forall|j: int| i < j < ws.len() ==> ((#[trigger] ws[j]).0, ws[j].1, ws[j].2) != (ws[i].0, ws[i].1, ws[i].2),
    ensures
        apply_prop_writes(cols, ws).contains_key((ws[i].0, ws[i].1)),
        ws[i].2 < apply_prop_writes(cols, ws)[(ws[i].0, ws[i].1)].len(),
        apply_prop_writes(cols, ws)[(ws[i].0, ws[i].1)][ws[i].2 as int] == ws[i].3,
    decreases ws.len(),
{
    let (label, name, row, v) = ws[i];
    let pre = apply_prop_writes(cols, ws.drop_last());
    if i == ws.len() - 1 {
        let col = if pre.contains_key((label, name)) { pre[(label, name)] } else { Seq::empty() };
        assert(written(col, row, v)[row as int] == v);
    } else {
        assert forall|j: int| i < j < ws.drop_last().len() implies
            ((#[trigger] ws.drop_last()[j]).0, ws.drop_last()[j].1, ws.drop_last()[j].2) != (ws.drop_last()[i].0, ws.drop_last()[i].1, ws.drop_last()[i].2) by {
            assert(ws.drop_last()[j] == ws[j]);
        }
        assert(ws.drop_last()[i] == ws[i]);
        lemma_prop_writes_read_back(cols, ws.drop_last(), i);
        let (l2, n2, r2, v2) = ws.last();
        assert(ws[ws.len() - 1] == ws.last());
        if (l2, n2) == (label, name) {
            let col = pre[(label, name)];
            assert(r2 != row);
            assert(written(col, r2, v2)[row as int] == col[row as int]);
        }
    }
}

proof fn lemma_node_inserts_domain(m: Map<NodeId, NodeView>, ins: Seq<(NodeId, Seq<LabelId>, u32)>, tx: TxId, id: NodeId)
    ensures
        apply_node_inserts(m, ins, tx).contains_key(id)
            <==> (m.contains_key(id) || exists|i: int| 0 <= i < ins.len() && (#[trigger] ins[i]).0 == id),
    decreases ins.len(),
{
    if ins.len() > 0 {
        lemma_node_inserts_domain(m, ins.drop_last(), tx, id);
        if exists|i: int| 0 <= i < ins.len() && (#[trigger] ins[i]).0 == id {
            let i = choose|i: int| 0 <= i < ins.len() && (#[trigger] ins[i]).0 == id;
            if i < ins.len() - 1 {
                assert(ins.drop_last()[i] == ins[i]);
            }
        }
        if exists|i: int| 0 <= i < ins.drop_last().len() && (#[trigger] ins.drop_last()[i]).0 == id {
            let i = choose|i: int| 0 <= i < ins.drop_last().len() && (#[trigger] ins.drop_last()[i]).0 == id;
            assert(ins[i] == ins.drop_last()[i]);
        }
    }
}

proof fn lemma_node_deletes_domain(m: Map<NodeId, NodeView>, dels: Seq<NodeId>, tx: TxId, id: NodeId)
    ensures
        apply_node_deletes(m, dels, tx).contains_key(id) == m.contains_key(id),
    decreases dels.len(),
{
    if dels.len() > 0 {
        lemma_node_deletes_domain(m, dels.drop_last(), tx, id);
    }
}

/// Committing keeps id allocation sound: when every node a transaction
/// inserts has an id that was handed out (below the fresh counter and not
/// waiting for reuse), a store whose ids were sound before the commit has
/// sound ids after it.
pub proof fn lemma_commit_keeps_ids_sound(
    pre: NodeStore,
    post: NodeStore,
    ins: Seq<(NodeId, Seq<LabelId>, u32)>,
    ups: Seq<(NodeId, Seq<LabelId>)>,
    dels: Seq<NodeId>,
    tx: TxId,
)
    requires
        pre.alloc_sound(),
        post@ == apply_node_deletes(apply_label_updates(apply_node_inserts(pre@, ins, tx), ups), dels, tx),
        post.free_ids() == pre.free_ids(),
        post.next_fresh() == pre.next_fresh(),
        forall|i: int| 0 <= i < ins.len() ==> (#[trigger] ins[i]).0 < pre.next_fresh() && !pre.free_ids().contains(ins[i].0),
    ensures
        post.alloc_sound(),
{
    let a = apply_node_inserts(pre@, ins, tx);
    assert forall|id: NodeId| #[trigger] post@.contains_key(id) <==> a.contains_key(id) by {
        lemma_node_deletes_domain(apply_label_updates(a, ups), dels, tx, id);
        lemma_label_updates_keep_stamps(a, ups, id);
    }
    assert forall|id: NodeId| #[trigger] post@.contains_key(id) implies id < post.next_fresh() by {
        lemma_node_inserts_domain(pre@, ins, tx, id);
        if !pre@.contains_key(id) {
            let i = choose|i: int| 0 <= i < ins.len() && (#[trigger] ins[i]).0 == id;
        }
    }
    assert forall|k: int| 0 <= k < post.free_ids().len() implies !post@.contains_key(#[trigger] post.free_ids()[k])
        && post.free_ids()[k] < post.next_fresh() by {
        let id = post.free_ids()[k];
        lemma_node_inserts_domain(pre@, ins, tx, id);
        if a.contains_key(id) && !pre@.contains_key(id) {
            let i = choose|i: int| 0 <= i < ins.len() && (#[trigger] ins[i]).0 == id;
            assert(pre.free_ids()[k] == id);
            assert(pre.free_ids().contains(ins[i].0));
        }
    }
}

/// The last insert of `id` in the buffer decides what the inserts leave
/// under `id`: its labels and property row, no edges, stamped `tx`.
proof fn lemma_node_insert_last(m: Map<NodeId, NodeView>, ins: Seq<(NodeId, Seq<LabelId>, u32)>, tx: TxId, id: NodeId, i: int)
    requires
        0 <= i < ins.len(),
        ins[i].0 == id,
        forall|j: int| i < j < ins.len() ==> (#[trigger] ins[j]).0 != id,
    ensures
        apply_node_inserts(m, ins, tx).contains_key(id),
        apply_node_inserts(m, ins, tx)[id].id == id,
        apply_node_inserts(m, ins, tx)[id].labels == ins[i].1,
        apply_node_inserts(m, ins, tx)[id].props_row == ins[i].2,
        apply_node_inserts(m, ins, tx)[id].first_out == NULL_EDGE,
        apply_node_inserts(m, ins, tx)[id].first_in == NULL_EDGE,
        apply_node_inserts(m, ins, tx)[id].created_tx == tx,
        apply_node_inserts(m, ins, tx)[id].deleted_tx == MAX_TX_ID,
    decreases ins.len(),
{
    if i < ins.len() - 1 {
        assert(ins[ins.len() - 1].0 != id);
        assert(ins.drop_last()[i] == ins[i]);
        assert forall|j: int| i < j < ins.drop_last().len() implies (#[trigger] ins.drop_last()[j]).0 != id by {
            assert(ins.drop_last()[j] == ins[j]);
        }
        lemma_node_insert_last(m, ins.drop_last(), tx, id, i);
    }
}

/// Label updates change labels only: ids present, edges, property rows
/// and stamps stay; a node no update names keeps its labels too.
proof fn lemma_label_updates_keep_rows(m: Map<NodeId, NodeView>, ups: Seq<(NodeId, Seq<LabelId>)>, id: NodeId)
    requires
        m.contains_key(id),
    ensures
        apply_label_updates(m, ups).contains_key(id),
        apply_label_updates(m, ups)[id].id == m[id].id,
        apply_label_updates(m, ups)[id].props_row == m[id].props_row,
        apply_label_updates(m, ups)[id].first_out == m[id].first_out,
        apply_label_updates(m, ups)[id].first_in == m[id].first_in,
        (forall|k: int| 0 <= k < ups.len() ==> (#[trigger] ups[k]).0 != id)
            ==> apply_label_updates(m, ups)[id].labels == m[id].labels,
    decreases ups.len(),
{
    if ups.len() > 0 {
        lemma_label_updates_keep_rows(m, ups.drop_last(), id);
        if forall|k: int| 0 <= k < ups.len() ==> (#[trigger] ups[k]).0 != id {
            assert forall|k: int| 0 <= k < ups.drop_last().len() implies (#[trigger] ups.drop_last()[k]).0 != id by {
                assert(ups.drop_last()[k] == ups[k]);
            }
            assert(ups[ups.len() - 1].0 != id);
        }
    }
}

/// Commit law for node inserts: a node that a committed transaction
/// inserts (its last insert of the id being `ins[i]`) and does not delete
/// holds the property row it was created with, starts with no edges, and
/// keeps the labels it was created with unless the transaction updates
/// them.
pub proof fn lemma_committed_node_holds_its_row(
    m: Map<NodeId, NodeView>,
    ins: Seq<(NodeId, Seq<LabelId>, u32)>,
    ups: Seq<(NodeId, Seq<LabelId>)>,
    dels: Seq<NodeId>,
    tx: TxId,
    i: int,
)
    requires
        0 <= i < ins.len(),
        forall|j: int| i < j < ins.len() ==> (#[trigger] ins[j]).0 != ins[i].0,
        !dels.contains(ins[i].0),
    ensures
        apply_node_deletes(apply_label_updates(apply_node_inserts(m, ins, tx), ups), dels, tx).contains_key(ins[i].0),
        apply_node_deletes(apply_label_updates(apply_node_inserts(m, ins, tx), ups), dels, tx)[ins[i].0].id == ins[i].0,
        apply_node_deletes(apply_label_updates(apply_node_inserts(m, ins, tx), ups), dels, tx)[ins[i].0].props_row == ins[i].2,
        apply_node_deletes(apply_label_updates(apply_node_inserts(m, ins, tx), ups), dels, tx)[ins[i].0].first_out == NULL_EDGE,
        apply_node_deletes(apply_label_updates(apply_node_inserts(m, ins, tx), ups), dels, tx)[ins[i].0].first_in == NULL_EDGE,
        (forall|k: int| 0 <= k < ups.len() ==> (#[trigger] ups[k]).0 != ins[i].0)
            ==> apply_node_deletes(apply_label_updates(apply_node_inserts(m, ins, tx), ups), dels, tx)[ins[i].0].labels == ins[i].1,
{
    let id = ins[i].0;
    let a = apply_node_inserts(m, ins, tx);
    lemma_node_insert_last(m, ins, tx, id, i);
    lemma_label_updates_keep_rows(a, ups, id);
    lemma_node_deletes_elsewhere(apply_label_updates(a, ups), dels, tx, id);
}

} // verus!
