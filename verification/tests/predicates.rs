use lightgraph::index::property::{LeafKind, Predicate};
use lightgraph::storage::prop_store::Value;
use roaring::RoaringBitmap;

fn eq(v: i64) -> Predicate {
    Predicate::Eq("User".into(), "age".into(), Value::Int(v))
}

fn bm(ids: &[u32]) -> RoaringBitmap {
    ids.iter().copied().collect()
}

#[test]
fn leaves_are_listed_left_to_right() {
    let p = Predicate::And(
        Box::new(Predicate::In("User".into(), "city".into(), vec![Value::String("a".into()), Value::String("b".into())])),
        Box::new(Predicate::Or(
            Box::new(Predicate::Gt("User".into(), "age".into(), Value::Int(30))),
            Box::new(Predicate::Not(Box::new(eq(1)))),
        )),
    );
    let leaves = p.leaf_queries();
    let kinds: Vec<LeafKind> = leaves.iter().map(|l| l.kind).collect();
    assert_eq!(kinds, vec![LeafKind::Equal, LeafKind::Equal, LeafKind::Above]);
    assert_eq!(leaves[1].prop, "city");
    assert_eq!(leaves[1].value, Value::String("b".into()));
    assert_eq!(leaves[2].value, Value::Int(30));
}

#[test]
fn and_intersects_or_unites_in_unites() {
    let and = Predicate::And(Box::new(eq(1)), Box::new(eq(2)));
    assert_eq!(and.combine(&vec![bm(&[1, 2, 3]), bm(&[2, 3, 4])]), bm(&[2, 3]));
    let or = Predicate::Or(Box::new(eq(1)), Box::new(eq(2)));
    assert_eq!(or.combine(&vec![bm(&[1]), bm(&[4])]), bm(&[1, 4]));
    let within = Predicate::In("User".into(), "age".into(), vec![Value::Int(1), Value::Int(2), Value::Int(3)]);
    assert_eq!(within.combine(&vec![bm(&[1]), bm(&[]), bm(&[7, 8])]), bm(&[1, 7, 8]));
}

#[test]
fn not_matches_nothing_and_uses_no_lookup() {
    let p = Predicate::Or(Box::new(Predicate::Not(Box::new(eq(1)))), Box::new(eq(2)));
    assert_eq!(p.leaf_queries().len(), 1);
    assert_eq!(p.combine(&vec![bm(&[5, 6])]), bm(&[5, 6]));
    let empty_in = Predicate::In("User".into(), "age".into(), vec![]);
    assert!(empty_in.combine(&vec![]).is_empty());
}
