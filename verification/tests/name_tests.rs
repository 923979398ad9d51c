use minipython::name::NameStore;
use minipython::value::Value;

#[test]
fn test_register_is_idempotent() {
    let mut store = NameStore::new();
    let a1 = store.register("alpha");
    let b = store.register("beta");
    let a2 = store.register("alpha");
    assert_eq!(a1, a2);
    assert_ne!(a1, b);
}

#[test]
fn test_get_round_trip() {
    let mut store = NameStore::new();
    let a = store.register("alpha");
    let b = store.register("beta");
    assert_eq!(store.get(a).unwrap(), "alpha");
    assert_eq!(store.get(b).unwrap(), "beta");
}

#[test]
fn test_get_by_interned() {
    let mut store = NameStore::new();
    let a = store.register("alpha");
    assert_eq!(store.get_by_interned("alpha"), Some(a));
    assert_eq!(store.get_by_interned("gamma"), None);
}

#[test]
fn test_by_index() {
    let mut store = NameStore::new();
    let a = store.register("alpha");
    let b = store.register("beta");
    assert_eq!(store.by_index(0), Some(a));
    assert_eq!(store.by_index(1), Some(b));
    assert_eq!(store.by_index(2), None);
}

#[test]
fn test_value_identity_and_name() {
    let mut store = NameStore::new();
    let a = store.register("alpha");
    let v = Value::new(7, a);
    assert_eq!(v.get_id(), 7);
    assert_eq!(v.get_name(&store).unwrap(), "alpha");
    assert_eq!(v, Value::new(7, a));
}
