use rustdb::codec::write_record;
use rustdb::{DataSgment, KeyValue, RustDB};

fn segment_image(name: u64, next: u64, records: &[(String, String)]) -> Vec<u8> {
    let mut data: Vec<u8> = Vec::new();
    data.extend_from_slice(&name.to_be_bytes());
    data.extend_from_slice(&next.to_be_bytes());
    for (k, v) in records {
        write_record(
            &mut data,
            &k.as_bytes().to_vec(),
            &v.as_bytes().to_vec(),
        );
    }
    data
}

/// A record whose frame brings the segment file to exactly `total` bytes.
fn image_of_size(name: u64, next: u64, total: usize) -> Vec<u8> {
    let value_len = total - 16 - 12 - 4;
    let image = segment_image(
        name,
        next,
        &[(String::from("0001"), "x".repeat(value_len))],
    );
    assert_eq!(image.len(), total);
    image
}

#[test]
fn create_empty_segment_on_new_db() {
    let segment = DataSgment::new();

    assert!(!*segment.is_closed());
    assert_eq!(segment.get_size(), 16);
    assert!(segment.get_previous().is_none());
}

#[test]
fn open_existing_segment() {
    let image = image_of_size(0x53e155bcbdeb560f, 0, 1058);
    let segment = DataSgment::open(image).unwrap();

    assert!(*segment.is_closed());
    assert_eq!(segment.get_size(), 1058);
    assert!(segment.get_previous().is_none());
}

#[test]
fn update_size_on_save_data() {
    let mut segment = DataSgment::new();
    segment
        .save_record(KeyValue::new_from_strings(
            String::from("123"),
            String::from("{\"id\":\"123\",\"name\":\"test\"}"),
        ))
        .unwrap();

    assert!(!*segment.is_closed());
    assert_eq!(segment.get_size(), 57);
    assert!(segment.get_previous().is_none());
}

#[test]
fn load_segments() {
    // three chained segments: oldest 53e1.., then e0c5.., then 4da0..
    let oldest = image_of_size(0x53e155bcbdeb560f, 0xe0c515663f0ea931, 1058);
    let middle = image_of_size(0xe0c515663f0ea931, 0x4da053f2db81bb26, 1021);
    let newest = image_of_size(0x4da053f2db81bb26, 0, 619);
    let initial = 0x53e155bcbdeb560fu64.to_be_bytes().to_vec();

    let segment = DataSgment::load_dir(vec![oldest, middle, newest], Some(initial)).unwrap();

    // the head is always a fresh open segment
    assert!(!*segment.is_closed());
    assert_eq!(segment.get_size(), 16);
    assert!(segment.get_next_segment_name().is_none());
    assert!(segment.get_previous().is_some());

    let name = segment.get_name();
    let segment = match segment.get_previous() {
        None => {
            assert!(false);
            return ();
        }
        Some(value) => value,
    };

    assert!(*segment.is_closed());
    assert_eq!(segment.get_size(), 619);
    assert!(segment.get_next_segment_name().is_some());
    assert_eq!(segment.get_next_segment_name().unwrap(), name);
    assert!(segment.get_previous().is_some());

    let name = segment.get_name();
    let segment = match segment.get_previous() {
        None => {
            assert!(false);
            return ();
        }
        Some(value) => value,
    };

    assert!(*segment.is_closed());
    assert_eq!(segment.get_size(), 1021);
    assert!(segment.get_next_segment_name().is_some());
    assert_eq!(segment.get_next_segment_name().unwrap(), name);
    assert!(segment.get_previous().is_some());

    let name = segment.get_name();
    let segment = match segment.get_previous() {
        None => {
            assert!(false);
            return ();
        }
        Some(value) => value,
    };

    assert!(*segment.is_closed());
    assert_eq!(segment.get_size(), 1058);
    assert!(segment.get_next_segment_name().is_some());
    assert_eq!(segment.get_next_segment_name().unwrap(), name);
    assert!(segment.get_previous().is_none());
}

#[test]
fn load_empty_dir_create_reference_to_first() {
    // an empty directory yields a single fresh segment, and the initial
    // reference names it
    let db = RustDB::load(Vec::new(), None).unwrap();

    let reference = db.get_initial_segment_reference();
    assert_eq!(reference.len(), 8);
    assert_eq!(
        u64::from_be_bytes(reference.try_into().unwrap()),
        db.get_active_segment_name()
    );
    assert_eq!(db.get_initial_segment_name(), db.get_active_segment_name());
}
