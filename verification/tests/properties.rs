//! Concrete checks of the store's stated properties: the round trip, the
//! idempotent create, append monotonicity, batch equivalence, the counter
//! reset, the exact persisted shape, and one input for each error kind.

use rust_bucket::doc::RecordText;
use rust_bucket::errors::Error;
use rust_bucket::store::Store;

fn rt(text: &str) -> RecordText {
    RecordText::new(text.to_string()).unwrap()
}

#[test]
fn round_trip_create_then_read() {
    let mut s = Store::new();
    s.create_table("coords", &rt("{\"x\":42,\"y\":9000}")).unwrap();

    let text = s.read_table("coords").unwrap();
    assert_eq!(
        text,
        "{\"table\":\"coords\",\"next_id\":\"1\",\"records\":{\"0\":{\"x\":42,\"y\":9000}}}"
    );

    let doc = s.get_table("coords").unwrap();
    assert_eq!(doc.next_id, 1);
    assert_eq!(doc.records.len(), 1);
    assert_eq!(doc.records[0].key, "0");
    assert_eq!(doc.records[0].value.as_str(), "{\"x\":42,\"y\":9000}");
}

#[test]
fn concrete_scenario_update_overwrites() {
    let mut s = Store::new();
    s.create_table("coords", &rt("{\"x\":42,\"y\":9000}")).unwrap();
    assert_eq!(
        s.read_table("coords").unwrap(),
        "{\"table\":\"coords\",\"next_id\":\"1\",\"records\":{\"0\":{\"x\":42,\"y\":9000}}}"
    );

    s.update_table("coords", &rt("{\"x\":32,\"y\":8765}")).unwrap();
    assert_eq!(
        s.read_table("coords").unwrap(),
        "{\"table\":\"coords\",\"next_id\":\"1\",\"records\":{\"0\":{\"x\":32,\"y\":8765}}}"
    );
}

#[test]
fn idempotent_create_ignores_second_value() {
    let mut s = Store::new();
    s.create_table("t", &rt("{\"a\":1}")).unwrap();
    let first = s.read_table("t").unwrap();

    s.create_table("t", &rt("{\"a\":2}")).unwrap();
    let second = s.read_table("t").unwrap();

    assert_eq!(first, second);
    assert!(second.contains("{\"a\":1}"));
}

#[test]
fn append_assigns_consecutive_ids() {
    let mut s = Store::new();
    s.create_table("t", &rt("{\"n\":0}")).unwrap();
    s.append_records("t", &rt("{\"n\":1}")).unwrap();
    s.append_records("t", &rt("{\"n\":2}")).unwrap();

    assert_eq!(s.count_records("t").unwrap(), 3);
    let doc = s.get_table("t").unwrap();
    assert_eq!(doc.next_id, 3);
    assert_eq!(doc.records[0].key, "0");
    assert_eq!(doc.records[1].key, "1");
    assert_eq!(doc.records[2].key, "2");
    assert_eq!(s.find("t", "1").unwrap().as_str(), "{\"n\":1}");
    assert!(matches!(s.find("t", "3"), Err(Error::NoSuchKey)));
}

#[test]
fn batch_insert_equals_sequential_appends() {
    let mut a = Store::new();
    let mut b = Store::new();

    a.create_empty_table("t").unwrap();
    b.create_empty_table("t").unwrap();

    a.batch_insert("t", vec![rt("{\"v\":1}"), rt("{\"v\":2}"), rt("{\"v\":3}")]).unwrap();

    b.append_records("t", &rt("{\"v\":1}")).unwrap();
    b.append_records("t", &rt("{\"v\":2}")).unwrap();
    b.append_records("t", &rt("{\"v\":3}")).unwrap();

    assert_eq!(a.read_table("t").unwrap(), b.read_table("t").unwrap());
}

#[test]
fn clear_resets_counter_to_zero() {
    let mut s = Store::new();
    s.create_table("t", &rt("{\"v\":1}")).unwrap();
    s.append_records("t", &rt("{\"v\":2}")).unwrap();

    s.clear_table("t").unwrap();
    assert_eq!(s.count_records("t").unwrap(), 0);

    s.append_records("t", &rt("{\"v\":3}")).unwrap();
    assert_eq!(s.find("t", "0").unwrap().as_str(), "{\"v\":3}");
}

#[test]
fn missing_table_is_reported_everywhere() {
    let s = Store::new();
    assert!(matches!(s.read_table("never_created"), Err(Error::NoSuchTable(_))));
    assert!(!s.table_exists("never_created"));
    assert!(s.list_tables().is_empty());
}

#[test]
fn malformed_document_is_a_codec_error() {
    let mut s = Store::new();
    s.store_json("bad", "garbage").unwrap();
    assert!(matches!(s.get_table("bad"), Err(Error::Codec(_))));
    assert!(matches!(s.find("bad", "0"), Err(Error::Codec(_))));
}

#[test]
fn malformed_counter_is_a_parse_int_error() {
    let mut s = Store::new();
    s.store_json("bad", "{\"table\":\"bad\",\"next_id\":\"abc\",\"records\":{}}").unwrap();
    assert!(matches!(s.get_table("bad"), Err(Error::ParseInt(_))));
    assert!(matches!(s.append_records("bad", &rt("{\"v\":1}")), Err(Error::ParseInt(_))));
}

#[test]
fn dropping_a_missing_table_is_an_io_error() {
    let mut s = Store::new();
    assert!(matches!(s.drop_table("never_created"), Err(Error::Io(_))));
}

#[test]
fn record_text_must_be_one_whole_value() {
    assert!(RecordText::new("{\"a\":1}".to_string()).is_some());
    assert!(RecordText::new("\"text\"".to_string()).is_some());
    assert!(RecordText::new("12".to_string()).is_some());
    assert!(RecordText::new("".to_string()).is_none());
    assert!(RecordText::new("{".to_string()).is_none());
    assert!(RecordText::new("{\"a\":1},".to_string()).is_none());
    assert!(RecordText::new("1,2".to_string()).is_none());
}

#[test]
fn error_kinds_name_themselves() {
    let mut s = Store::new();
    assert_eq!(s.read_table("nope").unwrap_err().kind_name(), "no such table");
    assert_eq!(s.drop_table("nope").unwrap_err().kind_name(), "input/output");
    s.store_json("bad", "garbage").unwrap();
    assert_eq!(s.get_table("bad").unwrap_err().kind_name(), "malformed document");
    s.update_json("bad", "{\"table\":\"bad\",\"next_id\":\"-1\",\"records\":{}}").unwrap();
    assert_eq!(s.get_table("bad").unwrap_err().kind_name(), "malformed counter");
    s.create_table("t", &rt("{\"v\":1}")).unwrap();
    assert_eq!(s.find("t", "7").unwrap_err().kind_name(), "no such key");
}

#[test]
fn update_json_overwrites_raw_text() {
    let mut s = Store::new();
    s.store_json("raw", "first").unwrap();
    s.store_json("raw", "ignored").unwrap();
    assert_eq!(s.read_table("raw").unwrap(), "first");

    s.update_json("raw", "second").unwrap();
    assert_eq!(s.read_table("raw").unwrap(), "second");
}

#[test]
fn stored_document_with_spaces_is_not_canonical() {
    let mut s = Store::new();
    s.store_json("spaced", "{\"table\": \"spaced\", \"next_id\": \"0\", \"records\": {}}").unwrap();
    assert!(matches!(s.get_table("spaced"), Err(Error::Codec(_))));
}

#[test]
fn quoted_table_name_stores_but_cannot_be_read_back() {
    let mut s = Store::new();
    let name = "has\"quote";
    s.create_table(name, &rt("{\"v\":1}")).unwrap();
    assert!(s.table_exists(name));
    assert!(s.read_table(name).is_ok());
    assert!(matches!(s.get_table(name), Err(Error::Codec(_))));
}
