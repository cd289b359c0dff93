//! Adjacency chains: the singly linked lists of edges threaded through the
//! `next_out` links (edges leaving a node) and the `next_in` links (edges
//! entering a node), and the laws of linking into and unlinking from them.

use vstd::prelude::*;
use crate::storage::Edge;
use crate::types::{EdgeId, NULL_EDGE};

verus! {

/// The link an edge follows: `next_out` for outgoing chains, `next_in`
/// for incoming ones.
pub open spec fn next_of(e: Edge, out: bool) -> EdgeId {
    if out {
        e.next_out
    } else {
        e.next_in
    }
}

/// An edge with one of its links replaced.
pub open spec fn with_next(e: Edge, out: bool, v: EdgeId) -> Edge {
    if out {
        Edge { next_out: v, ..e }
    } else {
        Edge { next_in: v, ..e }
    }
}

/// A link value that ends a chain: the null edge or an id not stored.
pub open spec fn ends_chain(m: Map<EdgeId, Edge>, e: EdgeId) -> bool {
    e == NULL_EDGE || !m.contains_key(e)
}

/// `s` lists the edges that a walk from `start` along one kind of link
/// visits. Each visited edge is stored and not null; the walk stops at the
/// first visited edge whose link is `stop`, or where the link ends the
/// chain.
pub open spec fn is_walk(m: Map<EdgeId, Edge>, start: EdgeId, out: bool, stop: Option<EdgeId>, s: Seq<EdgeId>) -> bool {
    &&& forall|i: int| 0 <= i < s.len() ==> #[trigger] s[i] != NULL_EDGE && m.contains_key(s[i])
    &&& s.len() > 0 ==> s[0] == start
    &&& forall|i: int| 0 <= i < s.len() - 1 ==> next_of(m[#[trigger] s[i]], out) == s[i + 1]
        && stop != Some(next_of(m[s[i]], out))
    &&& if s.len() == 0 {
        ends_chain(m, start)
    } else {
        stop == Some(next_of(m[s.last()], out)) || ends_chain(m, next_of(m[s.last()], out))
    }
}

/// The walk from `start` comes to an end (it does not run around a cycle).
pub open spec fn walk_terminates(m: Map<EdgeId, Edge>, start: EdgeId, out: bool, stop: Option<EdgeId>) -> bool {
    exists|s: Seq<EdgeId>| is_walk(m, start, out, stop, s)
}

/// The edges a terminating walk visits (unique by `lemma_walk_unique`).
pub open spec fn walk(m: Map<EdgeId, Edge>, start: EdgeId, out: bool, stop: Option<EdgeId>) -> Seq<EdgeId> {
    choose|s: Seq<EdgeId>| is_walk(m, start, out, stop, s)
}

/// The whole chain from `start`: a walk that stops only at the chain's end.
pub open spec fn chain_terminates(m: Map<EdgeId, Edge>, start: EdgeId, out: bool) -> bool {
    walk_terminates(m, start, out, None)
}

pub open spec fn chain(m: Map<EdgeId, Edge>, start: EdgeId, out: bool) -> Seq<EdgeId> {
    walk(m, start, out, None)
}

/// The effect of unlinking `target` from the chain headed by `head`: a head
/// equal to `target` is replaced by `repl`; otherwise the walk from the
/// head that stops at the first edge linking to `target` patches that
/// edge's link to `repl`. Returns the new map, the new head and the
/// patched edge, if any.
pub open spec fn unlink_step(m: Map<EdgeId, Edge>, head: EdgeId, target: EdgeId, repl: EdgeId, out: bool) -> (Map<EdgeId, Edge>, EdgeId, Option<EdgeId>) {
    if head == target {
        (m, repl, None)
    } else {
        let s = walk(m, head, out, Some(target));
        if s.len() > 0 && next_of(m[s.last()], out) == target {
            (m.insert(s.last(), with_next(m[s.last()], out, repl)), head, Some(s.last()))
        } else {
            (m, head, None)
        }
    }
}

proof fn lemma_walk_agree(m: Map<EdgeId, Edge>, start: EdgeId, out: bool, stop: Option<EdgeId>, s1: Seq<EdgeId>, s2: Seq<EdgeId>, i: int)
    requires
        is_walk(m, start, out, stop, s1),
        is_walk(m, start, out, stop, s2),
        0 <= i < s1.len(),
        i < s2.len(),
    ensures
        s1[i] == s2[i],
    decreases i,
{
    if i > 0 {
        lemma_walk_agree(m, start, out, stop, s1, s2, i - 1);
        assert(next_of(m[s1[i - 1]], out) == s1[i]);
        assert(next_of(m[s2[i - 1]], out) == s2[i]);
    }
}

proof fn lemma_walk_not_shorter(m: Map<EdgeId, Edge>, start: EdgeId, out: bool, stop: Option<EdgeId>, s1: Seq<EdgeId>, s2: Seq<EdgeId>)
    requires
        is_walk(m, start, out, stop, s1),
        is_walk(m, start, out, stop, s2),
    ensures
        s1.len() >= s2.len(),
{
    if s1.len() < s2.len() {
        let k = s1.len() as int;
        assert(s2[k] != NULL_EDGE && m.contains_key(s2[k]));
        if k == 0 {
            assert(s2[0] == start);
        } else {
            lemma_walk_agree(m, start, out, stop, s1, s2, k - 1);
            assert(next_of(m[s2[k - 1]], out) == s2[k] && stop != Some(next_of(m[s2[k - 1]], out)));
        }
    }
}

/// A walk is determined by where it starts, the links it follows and where
/// it stops.
pub proof fn lemma_walk_unique(m: Map<EdgeId, Edge>, start: EdgeId, out: bool, stop: Option<EdgeId>, s1: Seq<EdgeId>, s2: Seq<EdgeId>)
    requires
        is_walk(m, start, out, stop, s1),
        is_walk(m, start, out, stop, s2),
    ensures
        s1 == s2,
{
    lemma_walk_not_shorter(m, start, out, stop, s1, s2);
    lemma_walk_not_shorter(m, start, out, stop, s2, s1);
    assert forall|i: int| 0 <= i < s1.len() implies s1[i] == s2[i] by {
        lemma_walk_agree(m, start, out, stop, s1, s2, i);
    }
    assert(s1 =~= s2);
}

/// `walk` names the walk whenever one exists.
pub proof fn lemma_walk_is_walk(m: Map<EdgeId, Edge>, start: EdgeId, out: bool, stop: Option<EdgeId>, s: Seq<EdgeId>)
    requires
        is_walk(m, start, out, stop, s),
    ensures
        walk(m, start, out, stop) == s,
        is_walk(m, start, out, stop, walk(m, start, out, stop)),
{
    lemma_walk_unique(m, start, out, stop, s, walk(m, start, out, stop));
}


proof fn lemma_walk_shift(m: Map<EdgeId, Edge>, start: EdgeId, out: bool, s: Seq<EdgeId>, i: int, j: int, t: int)
    requires
        is_walk(m, start, out, None, s),
        0 <= i < j,
        0 <= t,
        j + t < s.len(),
        s[i] == s[j],
    ensures
        s[i + t] == s[j + t],
    decreases t,
{
    if t > 0 {
        lemma_walk_shift(m, start, out, s, i, j, t - 1);
        assert(next_of(m[s[i + t - 1]], out) == s[i + t]);
        assert(next_of(m[s[j + t - 1]], out) == s[j + t]);
    }
}

/// A chain that ends visits no edge twice.
pub proof fn lemma_chain_no_duplicates(m: Map<EdgeId, Edge>, start: EdgeId, out: bool, s: Seq<EdgeId>)
    requires
        is_walk(m, start, out, None, s),
    ensures
        s.no_duplicates(),
{
    assert forall|i: int, j: int| 0 <= i < s.len() && 0 <= j < s.len() && i != j implies s[i] != s[j] by {
        if s[i] == s[j] {
            let (a, b) = if i < j { (i, j) } else { (j, i) };
            let t = s.len() - 1 - b;
            lemma_walk_shift(m, start, out, s, a, b, t);
            assert(next_of(m[s[a + t]], out) == s[a + t + 1]);
            assert(s[a + t + 1] != NULL_EDGE && m.contains_key(s[a + t + 1]));
        }
    }
}

proof fn lemma_walk_to_stop(m: Map<EdgeId, Edge>, start: EdgeId, out: bool, target: EdgeId, s: Seq<EdgeId>, k: int)
    requires
        is_walk(m, start, out, None, s),
        0 <= k <= s.len(),
        forall|i: int| 0 <= i < k ==> next_of(m[#[trigger] s[i]], out) != target,
    ensures
        walk_terminates(m, start, out, Some(target)),
    decreases s.len() - k,
{
    if k == s.len() {
        assert(is_walk(m, start, out, Some(target), s));
    } else if next_of(m[s[k]], out) == target {
        let w = s.take(k + 1);
        assert(is_walk(m, start, out, Some(target), w));
    } else {
        lemma_walk_to_stop(m, start, out, target, s, k + 1);
    }
}

/// A chain that ends can be walked until any edge: the walk that stops at
/// the first link to `target` ends too.
pub proof fn lemma_chain_walk_terminates(m: Map<EdgeId, Edge>, start: EdgeId, out: bool, target: EdgeId)
    requires
        chain_terminates(m, start, out),
    ensures
        walk_terminates(m, start, out, Some(target)),
{
    let s = choose|s: Seq<EdgeId>| is_walk(m, start, out, None, s);
    lemma_walk_to_stop(m, start, out, target, s, 0);
}

/// A walk only reads the stored ids and the links it follows: a map that
/// agrees on both has the same walk.
pub proof fn lemma_walk_frame(m1: Map<EdgeId, Edge>, m2: Map<EdgeId, Edge>, start: EdgeId, out: bool, stop: Option<EdgeId>, s: Seq<EdgeId>)
    requires
        is_walk(m1, start, out, stop, s),
        m1.dom() == m2.dom(),
        forall|x: EdgeId| #[trigger] m1.contains_key(x) ==> next_of(m1[x], out) == next_of(m2[x], out),
    ensures
        is_walk(m2, start, out, stop, s),
{
    assert forall|i: int| 0 <= i < s.len() - 1 implies next_of(m2[#[trigger] s[i]], out) == s[i + 1]
        && stop != Some(next_of(m2[s[i]], out)) by {
        assert(m1.contains_key(s[i]));
    }
    if s.len() > 0 {
        assert(m1.contains_key(s[s.len() - 1]));
    }
}

/// Linking law: an edge that is stored and not on the chain from `head`,
/// once its link points at `head`, heads a chain made of itself followed
/// by the old chain.
pub proof fn lemma_link_prepends(m: Map<EdgeId, Edge>, m2: Map<EdgeId, Edge>, e: EdgeId, head: EdgeId, out: bool)
    requires
        m.contains_key(e),
        e != NULL_EDGE,
        chain_terminates(m, head, out),
        !chain(m, head, out).contains(e),
        m2.dom() == m.dom(),
        next_of(m2[e], out) == head,
        forall|x: EdgeId| #[trigger] m.contains_key(x) && x != e ==> next_of(m2[x], out) == next_of(m[x], out),
    ensures
        chain_terminates(m2, e, out),
        chain(m2, e, out) == seq![e] + chain(m, head, out),
{
    let s = choose|s: Seq<EdgeId>| is_walk(m, head, out, None, s);
    lemma_walk_is_walk(m, head, out, None, s);
    let w = seq![e] + s;
    assert forall|i: int| 0 <= i < w.len() - 1 implies next_of(m2[#[trigger] w[i]], out) == w[i + 1] by {
        if i > 0 {
            assert(w[i] == s[i - 1]);
            assert(s[i - 1] != e);
        }
    }
    if s.len() > 0 {
        assert(w.last() == s.last());
        assert(s.last() != e);
        assert(s.contains(s.last()));
    }
    assert(is_walk(m2, e, out, None, w));
    lemma_walk_is_walk(m2, e, out, None, w);
}

/// Unlinking law: unlinking an edge that lies on a chain leaves the chain
/// without that edge (and only that edge), starting from the new head.
pub proof fn lemma_unlink_removes(m: Map<EdgeId, Edge>, head: EdgeId, e: EdgeId, out: bool)
    requires
        chain_terminates(m, head, out),
        chain(m, head, out).contains(e),
    ensures
        ({
            let s = chain(m, head, out);
            let (m2, h2, p) = unlink_step(m, head, e, next_of(m[e], out), out);
            &&& m2.dom() == m.dom()
            &&& forall|x: EdgeId| #[trigger] m.contains_key(x) ==> next_of(m2[x], !out) == next_of(m[x], !out)
            &&& chain_terminates(m2, h2, out)
            &&& chain(m2, h2, out) == s.remove(s.index_of(e))
        }),
{
    let s = choose|s: Seq<EdgeId>| is_walk(m, head, out, None, s);
    lemma_walk_is_walk(m, head, out, None, s);
    lemma_chain_no_duplicates(m, head, out, s);
    let j = s.index_of(e);
    assert(0 <= j < s.len() && s[j] == e);
    let r = next_of(m[e], out);
    if j == 0 {
        let w = s.drop_first();
        assert(is_walk(m, r, out, None, w));
        lemma_walk_is_walk(m, r, out, None, w);
        assert(s.remove(0) =~= w);
    } else {
        assert(s[0] != s[j]);
        let w1 = s.take(j);
        assert forall|i: int| 0 <= i < w1.len() - 1 implies next_of(m[#[trigger] w1[i]], out) == w1[i + 1]
            && Some(e) != Some(next_of(m[w1[i]], out)) by {
            assert(s[i + 1] != s[j]);
        }
        assert(is_walk(m, head, out, Some(e), w1));
        lemma_walk_is_walk(m, head, out, Some(e), w1);
        let p = s[j - 1];
        let m2 = m.insert(p, with_next(m[p], out, r));
        assert(m2.dom() =~= m.dom());
        let w2 = s.remove(j);
        assert forall|i: int| 0 <= i < w2.len() - 1 implies next_of(m2[#[trigger] w2[i]], out) == w2[i + 1] by {
            if i < j - 1 {
                assert(s[i] != s[j - 1]);
            } else if i == j - 1 {
            } else {
                assert(s[i + 1] != s[j - 1]);
            }
        }
        if j < s.len() - 1 {
            assert(s[s.len() - 1] != s[j - 1]);
        }
        assert(is_walk(m2, head, out, None, w2));
        lemma_walk_is_walk(m2, head, out, None, w2);
    }
}

/// Linking law for `EdgeStore::link_into_chains`: with the edge on neither
/// chain, its outgoing chain is the edge followed by the old outgoing chain,
/// and likewise for the incoming chain.
pub proof fn lemma_link_into_chains(m: Map<EdgeId, Edge>, e: EdgeId, src_head: EdgeId, dst_head: EdgeId)
    requires
        m.contains_key(e),
        e != NULL_EDGE,
        chain_terminates(m, src_head, true),
        !chain(m, src_head, true).contains(e),
        chain_terminates(m, dst_head, false),
        !chain(m, dst_head, false).contains(e),
    ensures
        ({
            let m2 = m.insert(e, Edge { next_out: src_head, next_in: dst_head, ..m[e] });
            &&& chain_terminates(m2, e, true)
            &&& chain(m2, e, true) == seq![e] + chain(m, src_head, true)
            &&& chain_terminates(m2, e, false)
            &&& chain(m2, e, false) == seq![e] + chain(m, dst_head, false)
        }),
{
    let m2 = m.insert(e, Edge { next_out: src_head, next_in: dst_head, ..m[e] });
    assert(m2.dom() =~= m.dom());
    lemma_link_prepends(m, m2, e, src_head, true);
    lemma_link_prepends(m, m2, e, dst_head, false);
}

/// Unlinking law for `EdgeStore::unlink_from_chains`: an edge on both of
/// the given chains leaves both of them and nothing else changes on them.
pub proof fn lemma_unlink_from_chains(m: Map<EdgeId, Edge>, e: EdgeId, src_head: EdgeId, dst_head: EdgeId)
    requires
        chain_terminates(m, src_head, true),
        chain(m, src_head, true).contains(e),
        chain_terminates(m, dst_head, false),
        chain(m, dst_head, false).contains(e),
    ensures
        ({
            let so = chain(m, src_head, true);
            let si = chain(m, dst_head, false);
            let (m1, h1, p1) = unlink_step(m, src_head, e, m[e].next_out, true);
            let (m2, h2, p2) = unlink_step(m1, dst_head, e, m[e].next_in, false);
            &&& chain_terminates(m2, h1, true)
            &&& chain(m2, h1, true) == so.remove(so.index_of(e))
            &&& chain_terminates(m2, h2, false)
            &&& chain(m2, h2, false) == si.remove(si.index_of(e))
        }),
{
    let (m1, h1, p1) = unlink_step(m, src_head, e, m[e].next_out, true);
    lemma_unlink_removes(m, src_head, e, true);
    let si_w = choose|s: Seq<EdgeId>| is_walk(m, dst_head, false, None, s);
    lemma_walk_is_walk(m, dst_head, false, None, si_w);
    lemma_walk_frame(m, m1, dst_head, false, None, si_w);
    lemma_walk_is_walk(m1, dst_head, false, None, si_w);
    assert(m1[e].next_in == m[e].next_in) by {
        let sw = chain(m, src_head, true);
        assert(sw.contains(e));
    }
    lemma_unlink_removes(m1, dst_head, e, false);
    let (m2, h2, p2) = unlink_step(m1, dst_head, e, m1[e].next_in, false);
    let so_w = chain(m1, h1, true);
    let so2 = choose|s: Seq<EdgeId>| is_walk(m1, h1, true, None, s);
    lemma_walk_is_walk(m1, h1, true, None, so2);
    lemma_walk_frame(m1, m2, h1, true, None, so2);
    lemma_walk_is_walk(m2, h1, true, None, so2);
}
} // verus!
