use rustdb::{DataSgment, DbError, KeyValue, RustDB};

/// Every live file of the database, as the persistence layer would write
/// it: the byte image of each segment of the chain.
fn chain_images(db: &RustDB) -> Vec<Vec<u8>> {
    let mut images = Vec::new();
    let active = db.segment.as_ref().unwrap();
    images.push(active.get_file_bytes().clone());
    let mut current = active.get_previous();
    while let Some(seg) = current {
        images.push(seg.get_file_bytes().clone());
        current = seg.get_previous();
    }
    images
}

fn get_string(db: &RustDB, key: &str) -> Option<String> {
    db.get_record(String::from(key))
        .unwrap()
        .map(|kv| kv.get_value_as_string())
}

#[test]
fn put_then_get_returns_value() {
    let mut db = RustDB::load(Vec::new(), None).unwrap();
    db.save_record(KeyValue::new_from_strings(
        String::from("ABC"),
        String::from("{\"id\":\"ABC\",\"name\":\"Tiago\"}"),
    ))
    .unwrap();

    assert_eq!(
        get_string(&db, "ABC"),
        Some(String::from("{\"id\":\"ABC\",\"name\":\"Tiago\"}"))
    );
    // the directory holds the initial_segment marker and one segment file
    assert_eq!(db.get_closed_segment_names().len(), 0);
    assert_eq!(db.get_initial_segment_name(), db.get_active_segment_name());
}

#[test]
fn rotation_keeps_every_key_readable() {
    let mut db = RustDB::load(Vec::new(), None).unwrap();
    for i in 0..200 {
        db.save_record(KeyValue::new_from_strings(
            format!("{:04x}", i),
            format!("payload number {} of this run", i),
        ))
        .unwrap();
    }

    assert_eq!(
        get_string(&db, "0001"),
        Some(String::from("payload number 1 of this run"))
    );
    for i in 0..200 {
        assert_eq!(
            get_string(&db, &format!("{:04x}", i)),
            Some(format!("payload number {} of this run", i))
        );
    }
    assert!(db.get_closed_segment_names().len() > 0);
}

#[test]
fn tombstone_shadows_older_segments() {
    let mut db = RustDB::load(Vec::new(), None).unwrap();
    db.save_record(KeyValue::new_from_strings(
        String::from("door"),
        String::from("first value"),
    ))
    .unwrap();
    // force rotations so the first record sits in a closed segment
    for i in 0..40 {
        db.save_record(KeyValue::new_from_strings(
            format!("fill{:04}", i),
            format!("filler value number {}", i),
        ))
        .unwrap();
    }
    db.save_record(KeyValue::new_from_strings(
        String::from("door"),
        String::from("second value"),
    ))
    .unwrap();
    db.delete_record(String::from("door")).unwrap();

    assert_eq!(get_string(&db, "door"), None);

    // the old record still stands on disk in an older segment, shadowed
    let mut found_old = false;
    let mut current = db.segment.as_ref().unwrap().get_previous();
    while let Some(seg) = current {
        if let Ok(Some(kv)) = seg.get_record(String::from("door")) {
            if kv.get_value_as_string() == "first value" {
                found_old = true;
            }
        }
        current = seg.get_previous();
    }
    assert!(found_old);
}

#[test]
fn restart_returns_same_records() {
    let mut db = RustDB::load(Vec::new(), None).unwrap();
    for i in 0..60 {
        db.save_record(KeyValue::new_from_strings(
            format!("{:04}", i),
            format!("stored value number {}", i),
        ))
        .unwrap();
    }
    db.delete_record(String::from("0007")).unwrap();
    db.save_record(KeyValue::new_from_strings(
        String::from("0009"),
        String::from("rewritten"),
    ))
    .unwrap();

    let files = chain_images(&db);
    let initial = db.get_initial_segment_reference();
    let reloaded = RustDB::load(files, Some(initial)).unwrap();

    for i in 0..60 {
        let key = format!("{:04}", i);
        assert_eq!(get_string(&db, &key), get_string(&reloaded, &key));
    }
    assert_eq!(get_string(&reloaded, "0007"), None);
    assert_eq!(get_string(&reloaded, "0009"), Some(String::from("rewritten")));
}

#[test]
fn load_rejects_short_reference() {
    let result = RustDB::load(Vec::new(), Some(vec![1, 2, 3])).map(|_| ());
    assert_eq!(result.unwrap_err(), DbError::InvalidHeader);
}

#[test]
fn load_reports_missing_segment() {
    let initial = 5u64.to_be_bytes().to_vec();
    let result = RustDB::load(Vec::new(), Some(initial)).map(|_| ());
    assert_eq!(result.unwrap_err(), DbError::MissingSegment { name: 5 });
}

#[test]
fn load_reports_cyclic_chain() {
    let mut first: Vec<u8> = Vec::new();
    first.extend_from_slice(&7u64.to_be_bytes());
    first.extend_from_slice(&8u64.to_be_bytes());
    let mut second: Vec<u8> = Vec::new();
    second.extend_from_slice(&8u64.to_be_bytes());
    second.extend_from_slice(&7u64.to_be_bytes());
    let initial = 7u64.to_be_bytes().to_vec();

    let result = RustDB::load(vec![first, second], Some(initial)).map(|_| ());
    assert_eq!(result.unwrap_err(), DbError::BrokenChain);
}

#[test]
fn delete_of_absent_key_stays_absent() {
    let mut db = RustDB::load(Vec::new(), None).unwrap();
    db.delete_record(String::from("never-stored")).unwrap();
    assert_eq!(get_string(&db, "never-stored"), None);
}

#[test]
fn segment_level_get_keeps_raw_key_bytes() {
    let mut segment = DataSgment::new();
    segment
        .save_record(KeyValue::new(vec![0, 159, 146, 150], b"opaque".to_vec()))
        .unwrap();

    let found = segment
        .get_record_bytes(&vec![0, 159, 146, 150])
        .unwrap()
        .unwrap();
    assert_eq!(found.key, vec![0, 159, 146, 150]);
    assert_eq!(found.value, b"opaque");
}
