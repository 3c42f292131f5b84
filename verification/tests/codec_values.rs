use tablestore::{convert_into_data_type, rebuild_from_data_type, ErrorKind, Store};

#[test]
fn codec_round_trips_integers() {
    let bytes = convert_into_data_type(&12345i64);
    let back: i64 = rebuild_from_data_type(&bytes).unwrap();
    assert_eq!(back, 12345);
    let bytes = convert_into_data_type(&u32::MAX);
    let back: u32 = rebuild_from_data_type(&bytes).unwrap();
    assert_eq!(back, u32::MAX);
}

#[test]
fn codec_round_trips_strings_and_bools() {
    let bytes = convert_into_data_type(&String::from("hello"));
    let back: String = rebuild_from_data_type(&bytes).unwrap();
    assert_eq!(back, "hello");
    let bytes = convert_into_data_type(&false);
    let back: bool = rebuild_from_data_type(&bytes).unwrap();
    assert!(!back);
}

#[test]
fn codec_round_trips_compound_values() {
    let value: Vec<(String, i32)> = vec![(String::from("a"), 1), (String::from("b"), -2)];
    let bytes = convert_into_data_type(&value);
    let back: Vec<(String, i32)> = rebuild_from_data_type(&bytes).unwrap();
    assert_eq!(back, value);
}

#[test]
fn codec_rejects_wrong_type() {
    let bytes = convert_into_data_type(&String::from("not a number"));
    let err = rebuild_from_data_type::<i64>(&bytes).unwrap_err();
    assert_eq!(err.kind, ErrorKind::TypeMismatch);
}

#[test]
fn codec_rejects_garbage_bytes() {
    let garbage: Vec<u8> = vec![0xc1, 0xc1, 0xc1];
    let err = rebuild_from_data_type::<String>(&garbage).unwrap_err();
    assert_eq!(err.kind, ErrorKind::TypeMismatch);
}

#[test]
fn store_round_trips_typed_values() {
    let mut store = Store::new();
    store.create_table("vals");
    store.write_field("vals", "int", &(-7i64)).unwrap();
    store.write_field("vals", "text", &String::from("data")).unwrap();
    store.write_field("vals", "flag", &true).unwrap();
    store.write_field("vals", "list", &vec![1u8, 2, 3]).unwrap();
    assert_eq!(store.read_field::<i64>("vals", "int").unwrap(), -7);
    assert_eq!(store.read_field::<String>("vals", "text").unwrap(), "data");
    assert!(store.read_field::<bool>("vals", "flag").unwrap());
    assert_eq!(store.read_field::<Vec<u8>>("vals", "list").unwrap(), vec![1, 2, 3]);
}

#[test]
fn store_type_mismatch_is_loud_not_silent() {
    let mut store = Store::new();
    store.create_table("t");
    store.write_field("t", "truth", &true).unwrap();
    let err = store.read_field::<String>("t", "truth").unwrap_err();
    assert_eq!(err.kind, ErrorKind::TypeMismatch);
    // the stored bytes are untouched: the right type still reads back
    assert!(store.read_field::<bool>("t", "truth").unwrap());
}

#[test]
fn raw_bytes_are_exactly_what_was_written() {
    let mut store = Store::new();
    store.create_table("t");
    let payload: Vec<u8> = vec![0, 1, 2, 255];
    store.write_bytes("t", "raw", payload.clone()).unwrap();
    assert_eq!(store.read_bytes("t", "raw").unwrap(), payload);
    let err = store.write_bytes("ghost", "raw", payload).unwrap_err();
    assert_eq!(err.kind, ErrorKind::NoSuchTable);
}
