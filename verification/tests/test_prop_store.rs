use lightgraph::storage::prop_store::{PropStore, Value};

fn v_int(i: i64) -> Value {
    Value::Int(i)
}

fn v_str(s: &str) -> Value {
    Value::String(s.to_string())
}

#[test]
fn test_multi_label_property_isolation() {
    let mut store = PropStore::new();

    let r0 = store.insert_row(0, &[
        ("name".into(), v_str("Alice")),
        ("age".into(), v_int(30)),
    ]);

    let r1 = store.insert_row(1, &[
        ("name".into(), v_str("Acme Corp")),
        ("employees".into(), v_int(500)),
    ]);

    let user = store.get_row(0, r0);
    assert!(user.iter().any(|(k, _)| k == "name"));
    assert!(user.iter().any(|(k, _)| k == "age"));
    assert!(!user.iter().any(|(k, _)| k == "employees"));

    let company = store.get_row(1, r1);
    assert!(company.iter().any(|(k, _)| k == "name"));
    assert!(company.iter().any(|(k, _)| k == "employees"));
    assert!(!company.iter().any(|(k, _)| k == "age"));
}

#[test]
fn test_sparse_property_reads() {
    let mut store = PropStore::new();

    store.insert_prop(0, "name", 0, Some(v_str("Alice")));
    store.insert_prop(0, "name", 2, Some(v_str("Charlie")));
    store.insert_prop(0, "email", 0, Some(v_str("alice@example.com")));
    store.insert_prop(0, "email", 1, Some(v_str("bob@example.com")));

    assert_eq!(store.get_prop(0, "name", 0), Some(v_str("Alice")));
    assert_eq!(store.get_prop(0, "name", 1), None);
    assert_eq!(store.get_prop(0, "name", 2), Some(v_str("Charlie")));

    assert_eq!(store.get_prop(0, "email", 0), Some(v_str("alice@example.com")));
    assert_eq!(store.get_prop(0, "email", 1), Some(v_str("bob@example.com")));
    assert_eq!(store.get_prop(0, "email", 2), None);
}

#[test]
fn test_bulk_data_cycle() {
    let mut store = PropStore::new();

    for i in 0..1000u32 {
        store.insert_row(0, &[
            ("id".into(), v_int(i as i64)),
            ("name".into(), v_str(&format!("user_{}", i))),
            ("active".into(), Value::Bool(i % 2 == 0)),
            ("score".into(), Value::Float((i as f64 * 0.01).to_bits())),
            ("tags".into(), Value::List(vec![v_int(1), v_int(2)])),
        ]);
    }

    assert_eq!(store.row_count(0), 1000);

    assert_eq!(store.get_prop(0, "id", 500), Some(v_int(500)));
    assert_eq!(store.get_prop(0, "name", 0), Some(v_str("user_0")));
    assert_eq!(store.get_prop(0, "active", 1), Some(Value::Bool(false)));
    assert_eq!(store.get_prop(0, "active", 2), Some(Value::Bool(true)));

    store.set_prop(0, "name", 500, Some(v_str("renamed_user")));
    assert_eq!(store.get_prop(0, "name", 500), Some(v_str("renamed_user")));
}

#[test]
fn prop_store_test_insert_and_get() {
    let mut st = PropStore::new();
    st.insert_prop(0, "name", 0, Some(v_str("Alice")));
    assert_eq!(st.get_prop(0, "name", 0), Some(v_str("Alice")));
    assert_eq!(st.get_prop(0, "missing", 0), None);
}

#[test]
fn test_multi_label_isolation() {
    let mut st = PropStore::new();
    st.insert_prop(0, "name", 0, Some(v_str("Alice")));
    st.insert_prop(1, "name", 0, Some(v_str("Bob")));
    assert_eq!(st.get_prop(0, "name", 0), Some(v_str("Alice")));
    assert_eq!(st.get_prop(1, "name", 0), Some(v_str("Bob")));
}

#[test]
fn set_prop_on_missing_column_or_row_is_refused() {
    let mut st = PropStore::new();
    assert!(!st.set_prop(0, "name", 0, Some(v_str("x"))));
    st.insert_prop(0, "name", 1, Some(v_str("a")));
    assert!(!st.set_prop(0, "name", 2, Some(v_str("x"))));
    assert!(st.set_prop(0, "name", 0, Some(v_str("b"))));
    assert_eq!(st.get_prop(0, "name", 0), Some(v_str("b")));
    assert_eq!(st.column_count(), 1);
}

#[test]
fn insert_row_allocates_consecutive_rows() {
    let mut st = PropStore::new();
    assert_eq!(st.insert_row(3, &[("a".into(), v_int(1))]), 0);
    assert_eq!(st.insert_row(3, &[("a".into(), v_int(2))]), 1);
    assert_eq!(st.row_count(3), 2);
    assert_eq!(st.row_count(4), 0);
    assert_eq!(st.label_count(), 1);
    assert_eq!(st.get_row(3, 1), vec![("a".to_string(), v_int(2))]);
}
