use rustdb::codec::write_record;
use rustdb::{KeyValue, RustDB};

static KEY: &str = "ABC";
static VALUE: &str = "{\"id\":\"ABC\",\"name\":\"Tiago\"}";

fn record_value(i: usize) -> String {
    format!(
        "{{\"email\":\"{}@test1.com\",\"id\":\"{}\",\"name\":\"nome {}\"}}",
        i, i, i
    )
}

fn segment_image(name: u64, next: u64, range: std::ops::Range<usize>) -> Vec<u8> {
    let mut data: Vec<u8> = Vec::new();
    data.extend_from_slice(&name.to_be_bytes());
    data.extend_from_slice(&next.to_be_bytes());
    for i in range {
        let key = format!("{:04}", i);
        write_record(
            &mut data,
            &key.as_bytes().to_vec(),
            &record_value(i).as_bytes().to_vec(),
        );
    }
    data
}

/// Three chained read-only segments holding the keys 0001 to 0045, and the
/// bytes of the `initial_segment` reference that points at the oldest.
fn read_only_files() -> (Vec<Vec<u8>>, Vec<u8>) {
    let oldest = segment_image(0x53e155bcbdeb560f, 0xe0c515663f0ea931, 1..16);
    let middle = segment_image(0xe0c515663f0ea931, 0x4da053f2db81bb26, 16..31);
    let newest = segment_image(0x4da053f2db81bb26, 0, 31..46);
    let initial = 0x53e155bcbdeb560fu64.to_be_bytes().to_vec();
    (vec![oldest, middle, newest], initial)
}

fn validate_value(result: Option<KeyValue>, content: &str) {
    if let Some(value) = result {
        assert_eq!(value.get_value_as_string(), content);
    } else {
        assert!(false, "result is empty");
    }
}

#[test]
fn open_existing_segment_and_find_record() {
    let (files, initial) = read_only_files();
    let db = RustDB::load(files, Some(initial)).unwrap();

    let data = db.get_record(String::from("0001"));

    assert!(data.is_ok());

    let data = data.unwrap();
    assert!(data.is_some());

    let data = data.unwrap();
    assert_eq!(data.get_key_as_string(), "0001");
    assert_eq!(
        data.get_value_as_string(),
        "{\"email\":\"1@test1.com\",\"id\":\"1\",\"name\":\"nome 1\"}"
    );
}

#[test]
fn load_folder_and_find_all_records() {
    let (files, initial) = read_only_files();
    let db = RustDB::load(files, Some(initial)).unwrap();

    let data1 = db.get_record(String::from("0028"));
    let data2 = db.get_record(String::from("0015"));
    let data3 = db.get_record(String::from("0008"));
    let data4 = db.get_record(String::from("0034"));

    assert!(data1.is_ok());
    assert!(data2.is_ok());
    assert!(data3.is_ok());
    assert!(data4.is_ok());

    validate_value(
        data1.unwrap(),
        "{\"email\":\"28@test1.com\",\"id\":\"28\",\"name\":\"nome 28\"}",
    );
    validate_value(
        data2.unwrap(),
        "{\"email\":\"15@test1.com\",\"id\":\"15\",\"name\":\"nome 15\"}",
    );
    validate_value(
        data3.unwrap(),
        "{\"email\":\"8@test1.com\",\"id\":\"8\",\"name\":\"nome 8\"}",
    );
    validate_value(
        data4.unwrap(),
        "{\"email\":\"34@test1.com\",\"id\":\"34\",\"name\":\"nome 34\"}",
    );
}

#[test]
fn open_new_file_and_add_item() {
    let mut db = RustDB::load(Vec::new(), None).unwrap();
    let key_value = KeyValue::new_from_strings(String::from(KEY), String::from(VALUE));

    db.save_record(key_value).unwrap();

    let data = db.get_record(String::from(KEY));
    assert!(data.is_ok());

    let data = data.unwrap();
    assert!(data.is_some());

    let data = data.unwrap();
    assert_eq!(data.get_key_as_string(), KEY);
    assert_eq!(data.get_value_as_string(), VALUE);
}

#[test]
fn open_new_file_and_update_item() {
    let updated_value =
        "{\"email\":\"tiago@test.com\",\"id\":\"1234\",\"name\":\"Tiago updated name\"}";

    let mut db = RustDB::load(Vec::new(), None).unwrap();
    let key_value_original = KeyValue::new_from_strings(String::from(KEY), String::from(VALUE));
    let key_value_updated =
        KeyValue::new_from_strings(String::from(KEY), String::from(updated_value));

    db.save_record(key_value_original).unwrap();
    db.save_record(key_value_updated).unwrap();

    let data = db.get_record(String::from(KEY));
    assert!(data.is_ok());

    let data = data.unwrap();
    assert!(data.is_some());

    let data = data.unwrap();
    assert_eq!(data.get_key_as_string(), KEY);
    assert_eq!(data.get_value_as_string(), updated_value);
}

#[test]
fn open_new_file_and_delete_item() {
    let mut db = RustDB::load(Vec::new(), None).unwrap();
    let key_value = KeyValue::new_from_strings(String::from(KEY), String::from(VALUE));

    db.save_record(key_value).unwrap();
    db.delete_record(String::from(KEY)).unwrap();

    let data = db.get_record(String::from(KEY));
    assert!(data.is_ok());

    let data = data.unwrap();
    assert!(data.is_none());
}

#[test]
fn create_multiple_files() {
    let mut db = RustDB::load(Vec::new(), None).unwrap();

    for i in 0..200 {
        db.save_record(KeyValue::new_from_strings(
            format!("{:04x}", i),
            format!(
                "{{\"email\":\"{}@test.com\",\"id\":\"{}\",\"name\":\"nome {}\"}}",
                i, i, i
            ),
        ))
        .unwrap();
    }

    // the directory entries: the closed segments, the active segment,
    // and the initial_segment marker
    assert_eq!(15, db.get_closed_segment_names().len() + 2);
}

#[test]
fn read_from_multiple_files() {
    let mut db = RustDB::load(Vec::new(), None).unwrap();

    for i in 0..80 {
        db.save_record(KeyValue::new_from_strings(
            format!("{:04}", i),
            format!(
                "{{\"email\":\"{}@test1.com\",\"id\":\"{}\",\"name\":\"nome {}\"}}",
                i, i, i
            ),
        ))
        .unwrap();
    }

    for i in 40..160 {
        db.save_record(KeyValue::new_from_strings(
            format!("{:04}", i),
            format!(
                "{{\"email\":\"{}@test2.com\",\"id\":\"{}\",\"name\":\"nome {}\"}}",
                i, i, i
            ),
        ))
        .unwrap();
    }

    for i in 60..120 {
        db.save_record(KeyValue::new_from_strings(
            format!("{:04}", i),
            format!(
                "{{\"email\":\"{}@test3.com\",\"id\":\"{}\",\"name\":\"nome {}\"}}",
                i, i, i
            ),
        ))
        .unwrap();
    }

    let data1 = db.get_record(String::from("0001"));
    let data2 = db.get_record(String::from("0050"));
    let data3 = db.get_record(String::from("0080"));
    let data4 = db.get_record(String::from("0130"));

    validate_value(
        data1.unwrap(),
        "{\"email\":\"1@test1.com\",\"id\":\"1\",\"name\":\"nome 1\"}",
    );
    validate_value(
        data2.unwrap(),
        "{\"email\":\"50@test2.com\",\"id\":\"50\",\"name\":\"nome 50\"}",
    );
    validate_value(
        data3.unwrap(),
        "{\"email\":\"80@test3.com\",\"id\":\"80\",\"name\":\"nome 80\"}",
    );
    validate_value(
        data4.unwrap(),
        "{\"email\":\"130@test2.com\",\"id\":\"130\",\"name\":\"nome 130\"}",
    );
}

#[test]
fn delete_item_that_exists_on_previous_segment() {
    let mut db = RustDB::load(Vec::new(), None).unwrap();

    // create enough records to have more than one file
    for i in 0..30 {
        db.save_record(KeyValue::new_from_strings(
            format!("{:04}", i),
            format!(
                "{{\"email\":\"{}@test.com\",\"id\":\"{}\",\"name\":\"nome {}\"}}",
                i, i, i
            ),
        ))
        .unwrap();
    }

    // remove a record that sits in an older file
    db.delete_record(String::from("0001")).unwrap();

    let result = db.get_record(String::from("0001")).unwrap();

    assert!(db.get_closed_segment_names().len() >= 1);
    assert!(result.is_none());
}

#[test]
fn get_closed_segment_names() {
    let (files, initial) = read_only_files();
    let db = RustDB::load(files, Some(initial)).unwrap();

    let data: Vec<String> = db.get_closed_segment_names();

    assert_eq!(data.len(), 3);

    assert_eq!(data.get(0).unwrap(), "4da053f2db81bb26");
    assert_eq!(data.get(1).unwrap(), "e0c515663f0ea931");
    assert_eq!(data.get(2).unwrap(), "53e155bcbdeb560f");
}
