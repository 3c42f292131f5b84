use tablestore::{ErrorKind, Store};

#[test]
fn empty_store_round_trips() {
    let store = Store::new();
    let bytes = store.snapshot();
    let back = Store::restore(&bytes).unwrap();
    assert!(!back.has_table("anything"));
}

#[test]
fn populated_store_round_trips_bytes_exactly() {
    let mut store = Store::new();
    store.create_table("alpha");
    store.write_field("alpha", "one", &1i64).unwrap();
    store.write_field("alpha", "two", &String::from("second")).unwrap();
    store.create_table("beta");
    store.write_field("beta", "flag", &true).unwrap();

    let bytes = store.snapshot();
    let back = Store::restore(&bytes).unwrap();

    for (table, field) in [("alpha", "one"), ("alpha", "two"), ("beta", "flag")] {
        assert_eq!(
            back.read_bytes(table, field).unwrap(),
            store.read_bytes(table, field).unwrap()
        );
    }
    assert_eq!(back.read_field::<i64>("alpha", "one").unwrap(), 1);
    assert_eq!(back.read_field::<String>("alpha", "two").unwrap(), "second");
    assert!(back.read_field::<bool>("beta", "flag").unwrap());
}

#[test]
fn zero_field_table_round_trips() {
    let mut store = Store::new();
    store.create_table("empty");
    store.create_table("full");
    store.write_field("full", "k", &9i64).unwrap();
    let bytes = store.snapshot();
    let back = Store::restore(&bytes).unwrap();
    assert!(back.has_table("empty"));
    assert_eq!(back.read_field::<i64>("full", "k").unwrap(), 9);
    let err = back.read_field::<i64>("empty", "k").unwrap_err();
    assert_eq!(err.kind, ErrorKind::NoSuchField);
}

#[test]
fn empty_names_and_empty_payload_round_trip() {
    let mut store = Store::new();
    store.create_table("");
    store.write_bytes("", "", Vec::new()).unwrap();
    let bytes = store.snapshot();
    let back = Store::restore(&bytes).unwrap();
    assert_eq!(back.read_bytes("", "").unwrap(), Vec::<u8>::new());
}

#[test]
fn unicode_names_round_trip() {
    let mut store = Store::new();
    store.create_table("таблица");
    store.write_field("таблица", "ключ🎉", &7i64).unwrap();
    let bytes = store.snapshot();
    let back = Store::restore(&bytes).unwrap();
    assert_eq!(back.read_field::<i64>("таблица", "ключ🎉").unwrap(), 7);
}

#[test]
fn restore_replaces_rather_than_merges() {
    let mut first = Store::new();
    first.create_table("only");
    first.write_field("only", "k", &1i64).unwrap();
    let bytes = first.snapshot();

    // the restored store holds exactly the snapshot's namespace
    let back = Store::restore(&bytes).unwrap();
    assert!(back.has_table("only"));
    assert!(!back.has_table("other"));
}

#[test]
fn restore_rejects_invalid_bytes() {
    let err = Store::restore(&[]).unwrap_err();
    assert_eq!(err.kind, ErrorKind::DecodeError);

    let err = Store::restore(&[1, 2, 3]).unwrap_err();
    assert_eq!(err.kind, ErrorKind::DecodeError);

    // a count with no tables behind it
    let err = Store::restore(&[5, 0, 0, 0, 0, 0, 0, 0]).unwrap_err();
    assert_eq!(err.kind, ErrorKind::DecodeError);
}

#[test]
fn restore_rejects_truncation_and_trailing_bytes() {
    let mut store = Store::new();
    store.create_table("t");
    store.write_field("t", "k", &77i64).unwrap();
    let bytes = store.snapshot();

    let truncated = &bytes[..bytes.len() - 1];
    let err = Store::restore(truncated).unwrap_err();
    assert_eq!(err.kind, ErrorKind::DecodeError);

    let mut padded = bytes.clone();
    padded.push(0);
    let err = Store::restore(&padded).unwrap_err();
    assert_eq!(err.kind, ErrorKind::DecodeError);
}

#[test]
fn snapshot_is_stable_across_operations_elsewhere() {
    let mut store = Store::new();
    store.create_table("t");
    store.write_field("t", "k", &5i64).unwrap();
    let before = store.snapshot();
    let back = Store::restore(&before).unwrap();
    // later mutations of the original do not change what was captured
    store.write_field("t", "k", &6i64).unwrap();
    assert_eq!(back.read_field::<i64>("t", "k").unwrap(), 5);
}
