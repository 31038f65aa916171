use rust_bucket::doc::RecordText;
use rust_bucket::errors::Error;
use rust_bucket::store::Store;

const TEST: &str = "test";
const COORDS: &str = "{\"x\":42,\"y\":9000}";

fn rt(text: &str) -> RecordText {
    RecordText::new(text.to_string()).unwrap()
}

#[test]
fn can_crud_generic_data() {
    let mut s = Store::new();

    let b = "{\"x\":32,\"y\":8765}";
    let c = "{\"x\":23,\"y\":900}";
    let d = "{\"x\":105,\"y\":7382}";

    let e = "{\"table\":\"test\",\"next_id\":\"1\",\"records\":{\"0\":{\"x\":42,\"y\":9000}}}";
    let f = "{\"table\":\"test\",\"next_id\":\"1\",\"records\":{\"0\":{\"x\":32,\"y\":8765}}}";

    s.create_table(TEST, &rt(COORDS)).unwrap();
    assert_eq!(e, s.read_table(TEST).unwrap());

    s.update_table(TEST, &rt(b)).unwrap();
    assert_eq!(f, s.read_table(TEST).unwrap());

    s.drop_table(TEST).unwrap();
    s.create_table(TEST, &rt(COORDS)).unwrap();

    s.append_records(TEST, &rt(b)).unwrap();
    s.append_records(TEST, &rt(c)).unwrap();
    s.append_records(TEST, &rt(d)).unwrap();

    let result = s.read_table(TEST).unwrap();

    assert!(result.contains("2"));
    assert!(result.contains("3"));
    assert!(result.contains("4"));

    s.drop_table(TEST).unwrap();
}

#[test]
fn can_create_100_tables_and_drop_them_all() {
    let mut s = Store::new();

    for n in 1..101 {
        let table = format!("{}", n);
        s.create_table(&*table, &rt(COORDS)).unwrap();
    }

    for k in 1..101 {
        let table = format!("{}", k);
        s.drop_table(&*table).unwrap();
    }
}

#[test]
fn can_create_and_drop_an_empty_table() {
    let mut s = Store::new();
    let table_name: &str = "empty";

    s.create_empty_table(table_name).unwrap();

    let contents: String = s.read_table(table_name).unwrap();
    let expected = "{\"table\":\"empty\",\"next_id\":\"0\",\"records\":{}}";

    assert_eq!(expected, contents);

    s.drop_table(table_name).unwrap();
}

#[test]
fn can_get_and_find() {
    let mut s = Store::new();

    s.create_table("test_3", &rt(COORDS)).unwrap();

    assert_eq!(COORDS, s.find("test_3", "0").unwrap().as_str());

    s.drop_table("test_3").unwrap();
}

#[test]
fn can_return_json() {
    let mut s = Store::new();

    s.create_table("test_5", &rt(COORDS)).unwrap();
    assert_eq!(COORDS, s.find("test_5", "0").unwrap().as_str());

    let b: String = s.read_table("test_5").unwrap();
    let c: String = s.json_table_records("test_5").unwrap();
    let d: String = s.json_find("test_5", "0").unwrap();

    let j = "{\"table\":\"test_5\",\"next_id\":\"1\",\"records\":{\"0\":{\"x\":42,\"y\":9000}}}";

    assert_eq!(j, b);

    let k = "{\"0\":{\"x\":42,\"y\":9000}}";
    assert_eq!(k, c);

    let l = "{\"x\":42,\"y\":9000}";
    assert_eq!(l, d);

    s.drop_table("test_5").unwrap();
}

#[test]
fn can_delete_table_data_by_id() {
    let mut s = Store::new();

    s.create_table("test_6", &rt(COORDS)).unwrap();

    assert_eq!(COORDS, s.find("test_6", "0").unwrap().as_str());

    s.delete("test_6", "0").unwrap();

    let table = s.read_table("test_6").unwrap();
    assert_eq!(
        table,
        "{\"table\":\"test_6\",\"next_id\":\"1\",\"records\":{\"0\":{}}}"
    );

    s.drop_table("test_6").unwrap();
}

#[test]
fn can_test_non_existent_table_read() {
    let s = Store::new();

    let result = s.read_table("non_existent_table");

    assert!(matches!(result, Err(Error::NoSuchTable(_))));
}

#[test]
fn can_test_empty_id_find() {
    let mut s = Store::new();
    let test_table = "empty_id_test";

    let body = "{\"table\":\"empty_id_test\",\"next_id\":\"1\",\"records\":{\"0\":{\"name\":\"test\",\"value\":42},\"\":{\"name\":\"empty_id\",\"value\":100}}}";
    s.store_json(test_table, body).unwrap();

    let found = s.find(test_table, "").unwrap();

    assert_eq!(found.as_str(), "{\"name\":\"empty_id\",\"value\":100}");

    s.drop_table(test_table).unwrap();
}

#[test]
fn can_test_special_chars_in_table_name() {
    let mut s = Store::new();
    let test_table = "special!@#$%^&*()_+";
    let test_record = "{\"name\":\"test\",\"value\":42}";

    s.create_table(test_table, &rt(test_record)).unwrap();

    let read_record = s.find(test_table, "0").unwrap();

    assert_eq!(read_record.as_str(), test_record);

    s.drop_table(test_table).unwrap();
}

#[test]
fn can_test_concurrent_modifications() {
    let mut s = Store::new();
    let test_table = "concurrent_test";

    let test_record = "{\"name\":\"original\",\"value\":42}";
    let second_test_record = "{\"name\":\"first\",\"value\":100}";

    s.create_table(test_table, &rt(test_record)).unwrap();

    s.append_records(test_table, &rt(second_test_record)).unwrap();

    let modified_record = "{\"name\":\"modified\",\"value\":200}";

    s.append_records(test_table, &rt(modified_record)).unwrap();

    let records = s.get_table_records(test_table).unwrap();

    assert_eq!(records.len(), 3); // Original + 2 appends

    s.drop_table(test_table).unwrap();
}

#[test]
fn can_test_count_records() {
    let mut s = Store::new();
    let table_name = "count_test";

    s.create_table(table_name, &rt(COORDS)).unwrap();

    assert_eq!(s.count_records(table_name).unwrap(), 1);

    s.append_records(table_name, &rt("{\"x\":10,\"y\":20}")).unwrap();

    s.append_records(table_name, &rt("{\"x\":30,\"y\":40}")).unwrap();

    assert_eq!(s.count_records(table_name).unwrap(), 3);

    s.drop_table(table_name).unwrap();
}

#[test]
fn can_test_batch_insert() {
    let mut s = Store::new();
    let table_name = "batch_test";

    s.create_empty_table(table_name).unwrap();

    assert_eq!(s.count_records(table_name).unwrap(), 0);

    let batch = vec![
        rt("{\"x\":1,\"y\":2}"),
        rt("{\"x\":3,\"y\":4}"),
        rt("{\"x\":5,\"y\":6}"),
    ];

    s.batch_insert(table_name, batch).unwrap();

    assert_eq!(s.count_records(table_name).unwrap(), 3);

    let records = s.get_table_records(table_name).unwrap();

    assert!(records.iter().any(|e| e.key == "0"));

    assert!(records.iter().any(|e| e.key == "1"));

    assert!(records.iter().any(|e| e.key == "2"));

    s.drop_table(table_name).unwrap();
}

#[test]
fn can_test_update_record() {
    let mut s = Store::new();
    let table_name = "update_test";

    s.create_table(table_name, &rt(COORDS)).unwrap();

    let record = s.find(table_name, "0").unwrap();

    assert_eq!(record.as_str(), COORDS);

    let updated = "{\"x\":999,\"y\":888}";

    let expected = "{\"x\":999,\"y\":888}";

    s.update_record(table_name, "0", &rt(updated)).unwrap();

    let record = s.find(table_name, "0").unwrap();

    assert_eq!(record.as_str(), expected);

    let result = s.update_record(table_name, "999", &rt(COORDS));

    assert!(matches!(result, Err(Error::NoSuchKey)));

    s.drop_table(table_name).unwrap();
}

#[test]
fn can_test_table_exists() {
    let mut s = Store::new();
    let table_name = "exists_test";

    assert!(!s.table_exists(table_name));

    s.create_table(table_name, &rt(COORDS)).unwrap();

    assert!(s.table_exists(table_name));

    s.drop_table(table_name).unwrap();

    assert!(!s.table_exists(table_name));
}

#[test]
fn can_test_list_tables() {
    let mut s = Store::new();
    let table_names = ["test_1", "test_2", "test_3"];

    for &name in &table_names {
        if s.table_exists(name) {
            s.drop_table(name).unwrap();
        }
    }

    for &name in &table_names {
        s.create_table(name, &rt(COORDS)).unwrap();
    }

    let tables = s.list_tables();

    for &name in &table_names {
        assert!(tables.contains(&name.to_string()));
    }

    for &name in &table_names {
        s.drop_table(name).unwrap();
    }
}

#[test]
fn can_test_find_by() {
    let mut s = Store::new();
    let table_name = "find_by_test";

    s.create_empty_table(table_name).unwrap();

    let test_data = vec![
        rt("{\"x\":10,\"y\":10}"),
        rt("{\"x\":20,\"y\":10}"),
        rt("{\"x\":30,\"y\":30}"),
        rt("{\"x\":40,\"y\":10}"),
    ];

    s.batch_insert(table_name, test_data).unwrap();

    let matching = s
        .find_by(table_name, |coord: &RecordText| coord.as_str().contains("\"y\":10"))
        .unwrap();

    assert_eq!(matching.len(), 3);

    let matching = s
        .find_by(table_name, |coord: &RecordText| {
            coord.as_str().contains("\"x\":30") || coord.as_str().contains("\"x\":40")
        })
        .unwrap();

    assert_eq!(matching.len(), 2);

    s.drop_table(table_name).unwrap();
}

#[test]
fn can_test_clear_table() {
    let mut s = Store::new();
    let table_name = "clear_test";

    s.create_table(table_name, &rt(COORDS)).unwrap();

    s.append_records(table_name, &rt("{\"x\":100,\"y\":200}")).unwrap();

    s.append_records(table_name, &rt("{\"x\":300,\"y\":400}")).unwrap();

    assert_eq!(s.count_records(table_name).unwrap(), 3);

    s.clear_table(table_name).unwrap();

    assert_eq!(s.count_records(table_name).unwrap(), 0);

    let table_data = s.get_table(table_name).unwrap();

    assert_eq!(table_data.next_id, 0);

    s.append_records(table_name, &rt(COORDS)).unwrap();

    assert_eq!(s.count_records(table_name).unwrap(), 1);

    s.drop_table(table_name).unwrap();
}
