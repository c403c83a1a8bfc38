use rustdb::store::oldest_name;
use rustdb::{KeyValue, LogCompressor, RustDB};

fn fill_round_robin(db: &mut RustDB) {
    for i in 0..200 {
        let id = i % 3;
        db.save_record(KeyValue::new_from_strings(
            format!("{:04}", id),
            format!("{{\"id\":\"{}\", \"name\":\"nome_{}\"}}", id, i),
        ))
        .unwrap();
    }
}

/// The byte images of the closed segments, newest first: what the
/// compactor reads off the directory.
fn closed_segment_images(db: &RustDB) -> Vec<Vec<u8>> {
    let mut images = Vec::new();
    let active = db.segment.as_ref().unwrap();
    let mut current = active.get_previous();
    while let Some(seg) = current {
        images.push(seg.get_file_bytes().clone());
        current = seg.get_previous();
    }
    images
}

#[test]
fn compress_closed_files() {
    let mut db = RustDB::load(Vec::new(), None).unwrap();
    fill_round_robin(&mut db);

    let images = closed_segment_images(&db);
    let current_segment_name = db.get_active_segment_name();
    let compressor = LogCompressor::new(images, current_segment_name);

    let (active_segment, new_segment) = compressor.compress().unwrap();

    assert_eq!(current_segment_name, active_segment);
    assert_eq!(
        format!("{:016x}", current_segment_name),
        new_segment.get_next_segment_name().unwrap()
    );
    // the compacted chain's oldest segment is what the initial_segment
    // reference must name next
    assert_eq!(
        rustdb::names::parse_file_name(oldest_name(&new_segment)),
        new_segment.get_name()
    );
}

#[test]
fn delete_compressed_files() {
    let mut db = RustDB::load(Vec::new(), None).unwrap();
    fill_round_robin(&mut db);

    let images = closed_segment_images(&db);
    let current_segment_name = db.get_active_segment_name();
    let compressor = LogCompressor::new(images, current_segment_name);

    let (active_segment, new_segment) = compressor.compress().unwrap();
    let new_segment_name = new_segment.get_name();
    db.replace_segments(active_segment, new_segment);

    // the live files are now: the initial_segment marker, the one
    // compacted segment, and the active segment — three in all
    let closed = db.get_closed_segment_names();
    assert_eq!(3, closed.len() + 2);
    assert!(closed.contains(&new_segment_name));
    assert_eq!(db.get_initial_segment_reference().len(), 8);
}

#[test]
fn compress_and_replace() {
    let mut db = RustDB::load(Vec::new(), None).unwrap();
    fill_round_robin(&mut db);

    let images = closed_segment_images(&db);
    let current_segment_name = db.get_active_segment_name();
    let compressor = LogCompressor::new(images, current_segment_name);

    let (active_segment, new_segment) = compressor.compress().unwrap();

    let new_segment_name = new_segment.get_name();
    db.replace_segments(active_segment, new_segment);

    assert_eq!(active_segment, db.get_active_segment_name());
    assert_eq!(
        new_segment_name,
        db.segment
            .as_ref()
            .unwrap()
            .get_previous()
            .as_ref()
            .unwrap()
            .get_name()
    );
}

#[test]
fn compaction_preserves_reads() {
    let mut db = RustDB::load(Vec::new(), None).unwrap();
    fill_round_robin(&mut db);

    let before: Vec<Option<String>> = (0..3)
        .map(|id| {
            db.get_record(format!("{:04}", id))
                .unwrap()
                .map(|kv| kv.get_value_as_string())
        })
        .collect();

    let images = closed_segment_images(&db);
    let current_segment_name = db.get_active_segment_name();
    let compressor = LogCompressor::new(images, current_segment_name);
    let (active_segment, new_segment) = compressor.compress().unwrap();
    db.replace_segments(active_segment, new_segment);

    for id in 0..3 {
        let after = db
            .get_record(format!("{:04}", id))
            .unwrap()
            .map(|kv| kv.get_value_as_string());
        assert_eq!(before[id as usize], after);
    }
}
