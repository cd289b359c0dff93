//! Trusted interface to the concurrent containers that back the stores:
//! `dashmap::DashMap` for the record maps and `crossbeam::queue::SegQueue`
//! for the recycled-id queues.
//!
//! Every item here is believed, not proved. Each wrapper holds exactly one
//! call into the outside crate; its contract states what the crate's source
//! and documentation show about that call, over a named model of the
//! container's contents.

use vstd::prelude::*;
use crossbeam::queue::SegQueue;
use dashmap::DashMap;
use crate::storage::prop_store::{LabelSchema, PropertyColumn, ValueModel};
use crate::storage::{Edge, Node, NodeView};
use crate::types::{EdgeId, LabelId, NodeId};

verus! {

/// `dashmap::DashMap`, a sharded concurrent hash map.
#[verifier::external_type_specification]
#[verifier::external_body]
#[verifier::reject_recursive_types(K)]
#[verifier::reject_recursive_types(V)]
#[verifier::reject_recursive_types(S)]
pub struct ExDashMap<K, V, S>(DashMap<K, V, S>);

/// `crossbeam::queue::SegQueue`, an unbounded MPMC FIFO queue.
#[verifier::external_type_specification]
#[verifier::external_body]
#[verifier::reject_recursive_types(T)]
pub struct ExSegQueue<T>(SegQueue<T>);

// ── Node map ─────────────────────────────────────────────────────────

/// The key/value pairs held by a node map, each node taken by its view.
pub uninterp spec fn node_map_contents(m: DashMap<NodeId, Node>) -> Map<NodeId, NodeView>;

/// `DashMap::with_capacity`: a new map holds no pairs.
#[verifier::external_body]
pub(crate) fn node_map_with_capacity(cap: usize) -> (fresh: DashMap<NodeId, Node>)
    ensures
        node_map_contents(fresh).dom().is_empty(),
{
    DashMap::with_capacity(cap)
}

/// `DashMap::insert`: afterwards `id` maps to `node`, all other keys keep
/// their values.
#[verifier::external_body]
pub(crate) fn node_map_insert(m: &mut DashMap<NodeId, Node>, id: NodeId, node: Node)
    ensures
        node_map_contents(*final(m)) == node_map_contents(*old(m)).insert(id, node@),
{
    m.insert(id, node);
}

/// `DashMap::get`, the referenced node copied out with the verified
/// `Node::duplicate`: the node stored under `id`, or `None` when the key is
/// absent.
#[verifier::external_body]
pub(crate) fn node_map_get(m: &DashMap<NodeId, Node>, id: NodeId) -> (r: Option<Node>)
    ensures
        match r {
            Some(n) => node_map_contents(*m).contains_key(id) && n@ == node_map_contents(*m)[id],
            None => !node_map_contents(*m).contains_key(id),
        },
{
    m.get(&id).map(|r| r.value().duplicate())
}

/// `DashMap::remove`: the key is gone afterwards; the removed node is
/// returned when the key was present.
#[verifier::external_body]
pub(crate) fn node_map_remove(m: &mut DashMap<NodeId, Node>, id: NodeId) -> (r: Option<Node>)
    ensures
        node_map_contents(*final(m)) == node_map_contents(*old(m)).remove(id),
        match r {
            Some(n) => node_map_contents(*old(m)).contains_key(id) && n@ == node_map_contents(*old(m))[id],
            None => !node_map_contents(*old(m)).contains_key(id),
        },
{
    m.remove(&id).map(|(_, n)| n)
}

/// `DashMap::contains_key`.
#[verifier::external_body]
pub(crate) fn node_map_contains(m: &DashMap<NodeId, Node>, id: NodeId) -> (b: bool)
    ensures
        b == node_map_contents(*m).contains_key(id),
{
    m.contains_key(&id)
}

/// `DashMap::len`: the number of pairs held.
#[verifier::external_body]
pub(crate) fn node_map_len(m: &DashMap<NodeId, Node>) -> (count: usize)
    ensures
        count == node_map_contents(*m).dom().len(),
{
    m.len()
}

/// `DashMap::iter`, each pair copied out (the node with the verified
/// `Node::duplicate`). Every pair appears exactly once;
/// the order is the map's internal shard order, which is left unstated.
#[verifier::external_body]
pub(crate) fn node_map_entries(m: &DashMap<NodeId, Node>) -> (r: Vec<(NodeId, Node)>)
    ensures
        forall|i: int| 0 <= i < r@.len() ==> node_map_contents(*m).contains_key(#[trigger] r@[i].0)
            && r@[i].1@ == node_map_contents(*m)[r@[i].0],
        forall|i: int, j: int| 0 <= i < j < r@.len() ==> #[trigger] r@[i].0 != #[trigger] r@[j].0,
        forall|k: NodeId| #[trigger] node_map_contents(*m).contains_key(k)
            ==> exists|i: int| 0 <= i < r@.len() && #[trigger] r@[i].0 == k,
{
    m.iter().map(|e| (*e.key(), e.value().duplicate())).collect()
}

// ── Edge map ─────────────────────────────────────────────────────────

/// The key/value pairs held by an edge map.
pub uninterp spec fn edge_map_contents(m: DashMap<EdgeId, Edge>) -> Map<EdgeId, Edge>;

/// `DashMap::with_capacity`: a new map holds no pairs.
#[verifier::external_body]
pub(crate) fn edge_map_with_capacity(cap: usize) -> (fresh: DashMap<EdgeId, Edge>)
    ensures
        edge_map_contents(fresh).dom().is_empty(),
{
    DashMap::with_capacity(cap)
}

/// `DashMap::insert`: afterwards `id` maps to `edge`, all other keys keep
/// their values.
#[verifier::external_body]
pub(crate) fn edge_map_insert(m: &mut DashMap<EdgeId, Edge>, id: EdgeId, edge: Edge)
    ensures
        edge_map_contents(*final(m)) == edge_map_contents(*old(m)).insert(id, edge),
{
    m.insert(id, edge);
}

/// `DashMap::get`, the referenced edge copied out: the edge stored under
/// `id`, or `None` when the key is absent.
#[verifier::external_body]
pub(crate) fn edge_map_get(m: &DashMap<EdgeId, Edge>, id: EdgeId) -> (r: Option<Edge>)
    ensures
        match r {
            Some(e) => edge_map_contents(*m).contains_key(id) && e == edge_map_contents(*m)[id],
            None => !edge_map_contents(*m).contains_key(id),
        },
{
    m.get(&id).map(|r| *r.value())
}

/// `DashMap::remove`: the key is gone afterwards; the removed edge is
/// returned when the key was present.
#[verifier::external_body]
pub(crate) fn edge_map_remove(m: &mut DashMap<EdgeId, Edge>, id: EdgeId) -> (r: Option<Edge>)
    ensures
        edge_map_contents(*final(m)) == edge_map_contents(*old(m)).remove(id),
        match r {
            Some(e) => edge_map_contents(*old(m)).contains_key(id) && e == edge_map_contents(*old(m))[id],
            None => !edge_map_contents(*old(m)).contains_key(id),
        },
{
    m.remove(&id).map(|(_, e)| e)
}

/// `DashMap::contains_key`.
#[verifier::external_body]
pub(crate) fn edge_map_contains(m: &DashMap<EdgeId, Edge>, id: EdgeId) -> (b: bool)
    ensures
        b == edge_map_contents(*m).contains_key(id),
{
    m.contains_key(&id)
}

/// `DashMap::len`: the number of pairs held.
#[verifier::external_body]
pub(crate) fn edge_map_len(m: &DashMap<EdgeId, Edge>) -> (count: usize)
    ensures
        count == edge_map_contents(*m).dom().len(),
{
    m.len()
}

// ── Property columns ─────────────────────────────────────────────────

/// The columns held by a column map: key (label, property name) to the
/// column's cells.
pub uninterp spec fn column_map_contents(m: DashMap<(LabelId, String), PropertyColumn>) -> Map<(LabelId, Seq<char>), Seq<Option<ValueModel>>>;

/// `DashMap::new`: a new map holds no pairs.
#[verifier::external_body]
pub(crate) fn column_map_new() -> (fresh: DashMap<(LabelId, String), PropertyColumn>)
    ensures
        column_map_contents(fresh).dom().is_empty(),
{
    DashMap::new()
}

/// `DashMap::remove`: the column is moved out of the map.
#[verifier::external_body]
pub(crate) fn column_map_take(m: &mut DashMap<(LabelId, String), PropertyColumn>, label: LabelId, name: &str) -> (r: Option<PropertyColumn>)
    ensures
        column_map_contents(*final(m)) == column_map_contents(*old(m)).remove((label, name@)),
        match r {
            Some(c) => column_map_contents(*old(m)).contains_key((label, name@)) && c@ == column_map_contents(*old(m))[(label, name@)],
            None => !column_map_contents(*old(m)).contains_key((label, name@)),
        },
{
    m.remove(&(label, name.to_string())).map(|(_, c)| c)
}

/// `DashMap::insert`: afterwards the key maps to `col`.
#[verifier::external_body]
pub(crate) fn column_map_put(m: &mut DashMap<(LabelId, String), PropertyColumn>, label: LabelId, name: &str, col: PropertyColumn)
    ensures
        column_map_contents(*final(m)) == column_map_contents(*old(m)).insert((label, name@), col@),
{
    m.insert((label, name.to_string()), col);
}

/// `DashMap::get`, the referenced column copied out with the verified
/// `PropertyColumn::duplicate`.
#[verifier::external_body]
pub(crate) fn column_map_get(m: &DashMap<(LabelId, String), PropertyColumn>, label: LabelId, name: &str) -> (r: Option<PropertyColumn>)
    ensures
        match r {
            Some(c) => column_map_contents(*m).contains_key((label, name@)) && c@ == column_map_contents(*m)[(label, name@)],
            None => !column_map_contents(*m).contains_key((label, name@)),
        },
{
    m.get(&(label, name.to_string())).map(|r| r.value().duplicate())
}

/// `DashMap::len`: the number of columns held.
#[verifier::external_body]
pub(crate) fn column_map_len(m: &DashMap<(LabelId, String), PropertyColumn>) -> (count: usize)
    ensures
        count == column_map_contents(*m).dom().len(),
{
    m.len()
}

/// `DashMap::iter`, each key copied out. Every key appears exactly once;
/// the order is the map's internal shard order, which is left unstated.
#[verifier::external_body]
pub(crate) fn column_map_keys(m: &DashMap<(LabelId, String), PropertyColumn>) -> (r: Vec<(LabelId, String)>)
    ensures
        forall|i: int| 0 <= i < r@.len() ==> column_map_contents(*m).contains_key((#[trigger] r@[i].0, r@[i].1@)),
        forall|i: int, j: int| 0 <= i < j < r@.len() ==> (#[trigger] r@[i].0, r@[i].1@) != (#[trigger] r@[j].0, r@[j].1@),
        forall|k: (LabelId, Seq<char>)| #[trigger] column_map_contents(*m).contains_key(k)
            ==> exists|i: int| 0 <= i < r@.len() && (#[trigger] r@[i].0, r@[i].1@) == k,
{
    m.iter().map(|e| e.key().clone()).collect()
}

/// The row counters held by a schema map: label to its next row.
pub uninterp spec fn schema_map_contents(m: DashMap<LabelId, LabelSchema>) -> Map<LabelId, u32>;

/// `DashMap::new`: a new map holds no pairs.
#[verifier::external_body]
pub(crate) fn schema_map_new() -> (fresh: DashMap<LabelId, LabelSchema>)
    ensures
        schema_map_contents(fresh).dom().is_empty(),
{
    DashMap::new()
}

/// `DashMap::get`, the referenced schema copied out.
#[verifier::external_body]
pub(crate) fn schema_map_get(m: &DashMap<LabelId, LabelSchema>, label: LabelId) -> (r: Option<LabelSchema>)
    ensures
        match r {
            Some(s) => schema_map_contents(*m).contains_key(label) && s.next_row == schema_map_contents(*m)[label],
            None => !schema_map_contents(*m).contains_key(label),
        },
{
    m.get(&label).map(|r| *r.value())
}

/// `DashMap::insert`: afterwards `label` maps to `schema`.
#[verifier::external_body]
pub(crate) fn schema_map_put(m: &mut DashMap<LabelId, LabelSchema>, label: LabelId, schema: LabelSchema)
    ensures
        schema_map_contents(*final(m)) == schema_map_contents(*old(m)).insert(label, schema.next_row),
{
    m.insert(label, schema);
}

/// `DashMap::len`: the number of labels held.
#[verifier::external_body]
pub(crate) fn schema_map_len(m: &DashMap<LabelId, LabelSchema>) -> (count: usize)
    ensures
        count == schema_map_contents(*m).dom().len(),
{
    m.len()
}

// ── Recycled-id queue ────────────────────────────────────────────────

/// The ids held by a queue, front first.
pub uninterp spec fn id_queue_contents(q: SegQueue<u64>) -> Seq<u64>;

/// `SegQueue::new`: a new queue is empty.
#[verifier::external_body]
pub(crate) fn id_queue_new() -> (q: SegQueue<u64>)
    ensures
        id_queue_contents(q).len() == 0,
{
    SegQueue::new()
}

/// `SegQueue::push`: "Pushes back an element to the tail."
#[verifier::external_body]
pub(crate) fn id_queue_push(q: &mut SegQueue<u64>, id: u64)
    ensures
        id_queue_contents(*final(q)) == id_queue_contents(*old(q)).push(id),
{
    q.push(id)
}

/// `SegQueue::pop`: "Pops the head element from the queue. If the queue is
/// empty, `None` is returned."
#[verifier::external_body]
pub(crate) fn id_queue_pop(q: &mut SegQueue<u64>) -> (r: Option<u64>)
    ensures
        id_queue_contents(*old(q)).len() == 0 ==> r is None && id_queue_contents(*final(q)) == id_queue_contents(*old(q)),
        id_queue_contents(*old(q)).len() > 0 ==> r == Some(id_queue_contents(*old(q))[0])
            && id_queue_contents(*final(q)) == id_queue_contents(*old(q)).drop_first(),
{
    q.pop()
}

} // verus!
