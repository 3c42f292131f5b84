use tablestore::{ErrorKind, Store};

#[test]
fn new_store_is_empty() {
    let store = Store::new();
    assert!(!store.has_table("anything"));
    assert_eq!(store.to_display_string(), "");
}

#[test]
fn create_and_write_read() {
    let mut store = Store::new();
    store.create_table("test");
    assert!(store.has_table("test"));
    store.write_field("test", "name", &"test").unwrap();
    let value: String = store.read_field("test", "name").unwrap();
    assert_eq!(value, "test");
}

#[test]
fn write_to_missing_table_fails() {
    let mut store = Store::new();
    let err = store.write_field("ghost", "field", &1i64).unwrap_err();
    assert_eq!(err.kind, ErrorKind::NoSuchTable);
    assert!(!store.has_table("ghost"));
}

#[test]
fn read_missing_table_and_field() {
    let mut store = Store::new();
    let err = store.read_field::<i64>("nope", "field").unwrap_err();
    assert_eq!(err.kind, ErrorKind::NoSuchTable);
    store.create_table("t");
    let err = store.read_field::<i64>("t", "missing").unwrap_err();
    assert_eq!(err.kind, ErrorKind::NoSuchField);
}

#[test]
fn create_table_twice_keeps_data() {
    let mut store = Store::new();
    store.create_table("t");
    store.write_field("t", "k", &41i64).unwrap();
    store.create_table("t");
    let value: i64 = store.read_field("t", "k").unwrap();
    assert_eq!(value, 41);
}

#[test]
fn overwrite_field_reads_last_value() {
    let mut store = Store::new();
    store.create_table("t");
    store.write_field("t", "k", &1i64).unwrap();
    store.write_field("t", "k", &2i64).unwrap();
    let value: i64 = store.read_field("t", "k").unwrap();
    assert_eq!(value, 2);
}

#[test]
fn delete_field_is_forgiving() {
    let mut store = Store::new();
    // neither the table nor the field exists: still no error, no change
    store.delete_field("ghost", "field");
    store.create_table("t");
    store.delete_field("t", "missing");
    assert!(store.has_table("t"));
    // a real entry is removed, other entries stay
    store.write_field("t", "a", &1i64).unwrap();
    store.write_field("t", "b", &2i64).unwrap();
    store.delete_field("t", "a");
    let err = store.read_field::<i64>("t", "a").unwrap_err();
    assert_eq!(err.kind, ErrorKind::NoSuchField);
    let b: i64 = store.read_field("t", "b").unwrap();
    assert_eq!(b, 2);
}

#[test]
fn drop_table_cascades() {
    let mut store = Store::new();
    store.create_table("t");
    store.write_field("t", "a", &1i64).unwrap();
    store.write_field("t", "b", &2i64).unwrap();
    store.drop_table("t");
    assert!(!store.has_table("t"));
    let err = store.read_field::<i64>("t", "a").unwrap_err();
    assert_eq!(err.kind, ErrorKind::NoSuchTable);
    let err = store.read_field::<i64>("t", "b").unwrap_err();
    assert_eq!(err.kind, ErrorKind::NoSuchTable);
    // dropping an absent table is a no-op
    store.drop_table("t");
}

#[test]
fn display_string_names_tables_and_fields() {
    let mut store = Store::new();
    store.create_table("users");
    store.write_field("users", "admin", &true).unwrap();
    let rendering = store.to_display_string();
    assert!(rendering.contains("users"));
    assert!(rendering.contains("admin"));
}

#[test]
fn end_to_end_accounts_scenario() {
    let mut store = Store::new();
    store.create_table("accounts");
    store.write_field("accounts", "balance", &100i64).unwrap();
    store.write_field("accounts", "name", &"alice").unwrap();
    let balance: i64 = store.read_field("accounts", "balance").unwrap();
    assert_eq!(balance, 100);
    let err = store.read_field::<i64>("accounts", "name").unwrap_err();
    assert_eq!(err.kind, ErrorKind::TypeMismatch);
    store.drop_table("accounts");
    let err = store.read_field::<i64>("accounts", "balance").unwrap_err();
    assert_eq!(err.kind, ErrorKind::NoSuchTable);
}
