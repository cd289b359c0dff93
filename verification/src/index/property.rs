//! Property predicates: the predicate tree, its leaf lookups, and how the
//! leaves' node sets combine into the matching set at the bitmap level.
//!
//! A predicate's leaves are index lookups: an equality lookup for `Eq` and
//! for each value of `In`, a range scan for `Gt`, `Gte`, `Lt` and `Lte`.
//! The lookups themselves run against float-keyed indexes in the
//! application; the leaves are listed here in a fixed order, and the
//! bitmaps they give are combined here: `In` is the union of its lookups,
//! `And` the intersection, `Or` the union, and `Not` matches nothing (it
//! would need the set of all nodes).

use vstd::prelude::*;
use roaring::RoaringBitmap;
use crate::storage::prop_store::{Value, ValueModel};

verus! {

#[verifier::external_type_specification]
#[verifier::external_body]
pub struct ExRoaringBitmap(RoaringBitmap);

/// The node ids a bitmap holds.
pub uninterp spec fn bitmap_ids(b: RoaringBitmap) -> Set<u32>;

/// `RoaringBitmap::new`: an empty bitmap.
#[verifier::external_body]
fn bitmap_empty() -> (b: RoaringBitmap)
    ensures
        bitmap_ids(b) == Set::<u32>::empty(),
{
    RoaringBitmap::new()
}

/// `RoaringBitmap: Clone`: a bitmap with the same ids.
#[verifier::external_body]
fn bitmap_clone(b: &RoaringBitmap) -> (r: RoaringBitmap)
    ensures
        bitmap_ids(r) == bitmap_ids(*b),
{
    b.clone()
}

/// `RoaringBitmap | &RoaringBitmap`: the union of the two sets.
#[verifier::external_body]
fn bitmap_union(a: RoaringBitmap, b: &RoaringBitmap) -> (r: RoaringBitmap)
    ensures
        bitmap_ids(r) == bitmap_ids(a).union(bitmap_ids(*b)),
{
    a | b
}

/// `RoaringBitmap & RoaringBitmap`: the intersection of the two sets.
#[verifier::external_body]
fn bitmap_intersection(a: RoaringBitmap, b: RoaringBitmap) -> (r: RoaringBitmap)
    ensures
        bitmap_ids(r) == bitmap_ids(a).intersect(bitmap_ids(b)),
{
    a & b
}

/// A predicate over indexed properties; each comparison names a label and
/// a property.
pub enum Predicate {
    /// property == value
    Eq(String, String, Value),
    /// property > value
    Gt(String, String, Value),
    /// property >= value
    Gte(String, String, Value),
    /// property < value
    Lt(String, String, Value),
    /// property <= value
    Lte(String, String, Value),
    /// property is one of the values
    In(String, String, Vec<Value>),
    /// both hold
    And(Box<Predicate>, Box<Predicate>),
    /// either holds
    Or(Box<Predicate>, Box<Predicate>),
    /// the inner predicate does not hold
    Not(Box<Predicate>),
}

/// What a leaf lookup asks of the index.
#[derive(Debug, Clone, Copy, PartialEq, Eq, Structural)]
pub enum LeafKind {
    /// Rows whose value equals the leaf's value.
    Equal,
    /// Rows whose numeric value is above the leaf's (`Gt`).
    Above,
    /// Rows whose numeric value is at least the leaf's (`Gte`).
    AtLeast,
    /// Rows whose numeric value is below the leaf's (`Lt`).
    Below,
    /// Rows whose numeric value is at most the leaf's (`Lte`).
    AtMost,
}

/// One index lookup of a predicate.
pub struct Leaf {
    pub kind: LeafKind,
    pub label: String,
    pub prop: String,
    pub value: Value,
}

/// What a leaf asks: its kind, label, property and value.
pub type LeafModel = (LeafKind, Seq<char>, Seq<char>, ValueModel);

impl Leaf {
    pub open spec fn model(&self) -> LeafModel {
        (self.kind, self.label@, self.prop@, self.value.model())
    }
}

/// The models of a list of leaves.
pub open spec fn leaf_models(s: Seq<Leaf>) -> Seq<LeafModel> {
    s.map_values(|l: Leaf| l.model())
}

/// The equality lookups of `In(label, prop, values)`, one per value.
pub open spec fn in_leaves(label: Seq<char>, prop: Seq<char>, values: Seq<Value>) -> Seq<LeafModel> {
    values.map_values(|v: Value| (LeafKind::Equal, label, prop, v.model()))
}

/// The union of a list of sets.
pub open spec fn union_all(s: Seq<Set<u32>>) -> Set<u32>
    decreases s.len(),
{
    if s.len() == 0 {
        Set::empty()
    } else {
        union_all(s.drop_last()).union(s.last())
    }
}

impl Predicate {
    /// The index lookups of the predicate, left to right; a `Not` needs
    /// none.
    pub open spec fn leaves(self) -> Seq<LeafModel>
        decreases self,
    {
        match self {
            Predicate::Eq(l, p, v) => seq![(LeafKind::Equal, l@, p@, v.model())],
            Predicate::Gt(l, p, v) => seq![(LeafKind::Above, l@, p@, v.model())],
            Predicate::Gte(l, p, v) => seq![(LeafKind::AtLeast, l@, p@, v.model())],
            Predicate::Lt(l, p, v) => seq![(LeafKind::Below, l@, p@, v.model())],
            Predicate::Lte(l, p, v) => seq![(LeafKind::AtMost, l@, p@, v.model())],
            Predicate::In(l, p, vs) => in_leaves(l@, p@, vs@),
            Predicate::And(a, b) => a.leaves() + b.leaves(),
            Predicate::Or(a, b) => a.leaves() + b.leaves(),
            Predicate::Not(_) => Seq::empty(),
        }
    }

    /// The ids matching the predicate, given the sets its lookups found,
    /// in the order of `leaves`.
    pub open spec fn matching(self, found: Seq<Set<u32>>) -> Set<u32>
        decreases self,
    {
        match self {
            Predicate::In(_, _, vs) => union_all(found.take(vs@.len() as int)),
            Predicate::And(a, b) => a.matching(found).intersect(b.matching(found.skip(a.leaves().len() as int))),
            Predicate::Or(a, b) => a.matching(found).union(b.matching(found.skip(a.leaves().len() as int))),
            Predicate::Not(_) => Set::empty(),
            _ => found[0],
        }
    }

    /// The index lookups of the predicate, left to right (see `leaves`).
    pub fn leaf_queries(&self) -> (r: Vec<Leaf>)
        ensures
            leaf_models(r@) == self.leaves(),
        decreases self,
    {
        match self {
            Predicate::Eq(l, p, v) => single_leaf(LeafKind::Equal, l, p, v),
            Predicate::Gt(l, p, v) => single_leaf(LeafKind::Above, l, p, v),
            Predicate::Gte(l, p, v) => single_leaf(LeafKind::AtLeast, l, p, v),
            Predicate::Lt(l, p, v) => single_leaf(LeafKind::Below, l, p, v),
            Predicate::Lte(l, p, v) => single_leaf(LeafKind::AtMost, l, p, v),
            Predicate::In(l, p, vs) => {
                let mut r: Vec<Leaf> = Vec::new();
                let mut i: usize = 0;
                while i < vs.len()
                    invariant
                        0 <= i <= vs@.len(),
                        leaf_models(r@) == in_leaves(l@, p@, vs@.take(i as int)),
                    decreases vs@.len() - i,
                {
                    let ghost r0 = r@;
                    let leaf = Leaf { kind: LeafKind::Equal, label: l.clone(), prop: p.clone(), value: vs[i].duplicate() };
                    proof {
                        assert(leaf.model() == (LeafKind::Equal, l@, p@, vs@[i as int].model()));
                    }
                    r.push(leaf);
                    proof {
                        assert(r@ == r0.push(leaf));
                        assert(vs@.take(i + 1) =~= vs@.take(i as int).push(vs@[i as int]));
                        assert(leaf_models(r@) =~= leaf_models(r0).push(leaf.model()));
                        assert(in_leaves(l@, p@, vs@.take(i + 1)) =~= in_leaves(l@, p@, vs@.take(i as int)).push(leaf.model()));
                    }
                    i += 1;
                }
                proof {
                    assert(vs@.take(vs@.len() as int) =~= vs@);
                }
                r
            },
            Predicate::And(a, b) | Predicate::Or(a, b) => {
                let mut x = a.leaf_queries();
                let mut y = b.leaf_queries();
                let ghost x0 = x@;
                let ghost y0 = y@;
                x.append(&mut y);
                proof {
                    assert(leaf_models(x@) =~= leaf_models(x0) + leaf_models(y0));
                }
                x
            },
            Predicate::Not(_) => {
                let r: Vec<Leaf> = Vec::new();
                proof {
                    assert(leaf_models(r@) =~= Seq::<LeafModel>::empty());
                }
                r
            },
        }
    }
}

impl Predicate {
    /// The ids matching the predicate, from the bitmaps its lookups found:
    /// `found[i]` answers the `i`-th of `leaves`.
    pub fn combine(&self, found: &Vec<RoaringBitmap>) -> (r: RoaringBitmap)
        requires
            found@.len() == self.leaves().len(),
        ensures
            bitmap_ids(r) == self.matching(ids_of(found@)),
    {
        proof {
            assert(ids_of(found@).skip(0) =~= ids_of(found@));
        }
        let (r, _) = self.combine_from(found, 0);
        r
    }

    /// Combine the lookups answered from `found[start]` on; also returns
    /// the index just past the last lookup used.
    fn combine_from(&self, found: &Vec<RoaringBitmap>, start: usize) -> (r: (RoaringBitmap, usize))
        requires
            start + self.leaves().len() <= found@.len(),
        ensures
            r.1 == start + self.leaves().len(),
            bitmap_ids(r.0) == self.matching(ids_of(found@).skip(start as int)),
        decreases self,
    {
        let ghost f = ids_of(found@).skip(start as int);
        let n = found.len();
        match self {
            Predicate::In(_, _, vs) => {
                let mut acc = bitmap_empty();
                let mut k: usize = 0;
                proof {
                    assert(self.leaves().len() == vs@.len());
                    assert(f.take(0) =~= Seq::<Set<u32>>::empty());
                }
                while k < vs.len()
                    invariant
                        0 <= k <= vs@.len(),
                        start + vs@.len() <= found@.len(),
                        n == found@.len(),
                        f == ids_of(found@).skip(start as int),
                        bitmap_ids(acc) == union_all(f.take(k as int)),
                    decreases vs@.len() - k,
                {
                    acc = bitmap_union(acc, &found[start + k]);
                    proof {
                        assert(f.take(k + 1).drop_last() =~= f.take(k as int));
                        assert(f.take(k + 1).last() == f[k as int]);
                    }
                    k += 1;
                }
                (acc, start + vs.len())
            },
            Predicate::And(a, b) => {
                let (x, mid) = a.combine_from(found, start);
                let (y, end) = b.combine_from(found, mid);
                proof {
                    assert(f.skip(a.leaves().len() as int) =~= ids_of(found@).skip(mid as int));
                }
                (bitmap_intersection(x, y), end)
            },
            Predicate::Or(a, b) => {
                let (x, mid) = a.combine_from(found, start);
                let (y, end) = b.combine_from(found, mid);
                proof {
                    assert(f.skip(a.leaves().len() as int) =~= ids_of(found@).skip(mid as int));
                }
                (bitmap_union(x, &y), end)
            },
            Predicate::Not(_) => (bitmap_empty(), start),
            _ => {
                proof {
                    assert(self.leaves().len() == 1);
                }
                (bitmap_clone(&found[start]), start + 1)
            },
        }
    }
}

/// The ids each of a list of bitmaps holds.
pub open spec fn ids_of(bs: Seq<RoaringBitmap>) -> Seq<Set<u32>> {
    bs.map_values(|b: RoaringBitmap| bitmap_ids(b))
}

/// A list of the one leaf asking `kind` of `label`'s `prop` with `value`.
fn single_leaf(kind: LeafKind, label: &String, prop: &String, value: &Value) -> (r: Vec<Leaf>)
    ensures
        leaf_models(r@) == seq![(kind, label@, prop@, value.model())],
{
    let mut r: Vec<Leaf> = Vec::new();
    r.push(Leaf { kind, label: label.clone(), prop: prop.clone(), value: value.duplicate() });
    proof {
        assert(leaf_models(r@) =~= seq![(kind, label@, prop@, value.model())]);
    }
    r
}

/// A predicate's matching set depends only on the sets found for its own
/// lookups: the first `leaves().len()` entries of `found`.
pub proof fn lemma_matching_own_lookups(p: Predicate, found: Seq<Set<u32>>, k: int)
    requires
        p.leaves().len() <= k <= found.len(),
    ensures
        p.matching(found) == p.matching(found.take(k)),
    decreases p,
{
    match p {
        Predicate::In(_, _, vs) => {
            assert(p.leaves().len() == vs@.len());
            assert(found.take(vs@.len() as int) =~= found.take(k).take(vs@.len() as int));
        },
        Predicate::And(a, b) => {
            let la = a.leaves().len() as int;
            lemma_matching_own_lookups(*a, found, k);
            lemma_matching_own_lookups(*b, found.skip(la), k - la);
            lemma_matching_own_lookups(*b, found.take(k).skip(la), k - la);
            assert(found.skip(la).take(k - la) =~= found.take(k).skip(la).take(k - la));
        },
        Predicate::Or(a, b) => {
            let la = a.leaves().len() as int;
            lemma_matching_own_lookups(*a, found, k);
            lemma_matching_own_lookups(*b, found.skip(la), k - la);
            lemma_matching_own_lookups(*b, found.take(k).skip(la), k - la);
            assert(found.skip(la).take(k - la) =~= found.take(k).skip(la).take(k - la));
        },
        Predicate::Not(_) => {},
        _ => {
            assert(p.leaves().len() == 1);
            assert(found.take(k)[0] == found[0]);
        },
    }
}

/// Composition law: an `And` matches the intersection, and an `Or` the
/// union, of what each operand matches on its own lookups (the first
/// operand's lookups come first).
pub proof fn lemma_combine_composes(a: Predicate, b: Predicate, found: Seq<Set<u32>>)
    requires
        found.len() == a.leaves().len() + b.leaves().len(),
    ensures
        Predicate::And(Box::new(a), Box::new(b)).matching(found)
            == a.matching(found.take(a.leaves().len() as int)).intersect(b.matching(found.skip(a.leaves().len() as int))),
        Predicate::Or(Box::new(a), Box::new(b)).matching(found)
            == a.matching(found.take(a.leaves().len() as int)).union(b.matching(found.skip(a.leaves().len() as int))),
{
    lemma_matching_own_lookups(a, found, a.leaves().len() as int);
}

/// Composition law for `In`: its lookups are those of `Eq` on each value,
/// in order, and it matches the union of what each of those `Eq`s matches
/// on its own lookup (nothing, for an empty list of values).
pub proof fn lemma_in_is_union_of_eq(label: String, prop: String, values: Vec<Value>, found: Seq<Set<u32>>)
    requires
        found.len() == values@.len(),
    ensures
        Predicate::In(label, prop, values).leaves()
            == Seq::new(values@.len(), |i: int| Predicate::Eq(label, prop, values@[i]).leaves()[0]),
        Predicate::In(label, prop, values).matching(found)
            == union_all(Seq::new(values@.len(), |i: int| Predicate::Eq(label, prop, values@[i]).matching(found.subrange(i, i + 1)))),
        values@.len() == 0 ==> Predicate::In(label, prop, values).matching(found) == Set::<u32>::empty(),
{
    let n = values@.len();
    assert(Predicate::In(label, prop, values).leaves()
        =~= Seq::new(n, |i: int| Predicate::Eq(label, prop, values@[i]).leaves()[0]));
    let per = Seq::new(n, |i: int| Predicate::Eq(label, prop, values@[i]).matching(found.subrange(i, i + 1)));
    assert forall|i: int| 0 <= i < n implies per[i] == found[i] by {
        assert(found.subrange(i, i + 1)[0] == found[i]);
    }
    assert(per =~= found.take(n as int));
    assert(found.take(n as int) =~= found);
}

/// Whether a lookup of `kind` with bound `bound` asks for a stored value
/// `x`: equal to it, above it, at least it, below it, or at most it.
pub open spec fn kind_admits(kind: LeafKind, x: int, bound: int) -> bool {
    match kind {
        LeafKind::Equal => x == bound,
        LeafKind::Above => x > bound,
        LeafKind::AtLeast => x >= bound,
        LeafKind::Below => x < bound,
        LeafKind::AtMost => x <= bound,
    }
}

/// Comparison law: a comparison needs exactly one lookup, of its own
/// label, property and value, and that lookup asks for the values the
/// comparison accepts: `Eq` equal ones, `Gt` greater, `Gte` greater or
/// equal, `Lt` smaller, `Lte` smaller or equal.
pub proof fn lemma_comparison_lookups(l: String, p: String, v: Value)
    ensures
        Predicate::Eq(l, p, v).leaves() == seq![(LeafKind::Equal, l@, p@, v.model())],
        Predicate::Gt(l, p, v).leaves() == seq![(LeafKind::Above, l@, p@, v.model())],
        Predicate::Gte(l, p, v).leaves() == seq![(LeafKind::AtLeast, l@, p@, v.model())],
        Predicate::Lt(l, p, v).leaves() == seq![(LeafKind::Below, l@, p@, v.model())],
        Predicate::Lte(l, p, v).leaves() == seq![(LeafKind::AtMost, l@, p@, v.model())],
        forall|x: int, b: int| kind_admits(Predicate::Eq(l, p, v).leaves()[0].0, x, b) <==> x == b,
        forall|x: int, b: int| kind_admits(Predicate::Gt(l, p, v).leaves()[0].0, x, b) <==> x > b,
        forall|x: int, b: int| kind_admits(Predicate::Gte(l, p, v).leaves()[0].0, x, b) <==> x >= b,
        forall|x: int, b: int| kind_admits(Predicate::Lt(l, p, v).leaves()[0].0, x, b) <==> x < b,
        forall|x: int, b: int| kind_admits(Predicate::Lte(l, p, v).leaves()[0].0, x, b) <==> x <= b,
{
}

} // verus!
