use streaming::catalog::Catalog;
use streaming::error::Error;
use streaming::frame::from_frame;
use streaming::response::Counted;
use streaming::storage::{Location, StorageOp};
use streaming::stream::StreamDetails;

fn payloads(n: u8) -> Vec<Vec<u8>> {
    (0..n).map(|i| vec![i, i]).collect()
}

#[test]
fn second_stream_with_same_id_already_exists() {
    let mut catalog = Catalog::new(1024);
    assert!(catalog.create_stream(1, "s".to_string(), 10).is_ok());
    assert!(matches!(catalog.create_stream(1, "s2".to_string(), 11), Err(Error::AlreadyExists)));
    assert_eq!(catalog.get_streams().len(), 1);
}

#[test]
fn second_stream_with_same_name_already_exists() {
    let mut catalog = Catalog::new(1024);
    assert!(catalog.create_stream(1, "s".to_string(), 10).is_ok());
    assert!(matches!(catalog.create_stream(2, "s".to_string(), 11), Err(Error::AlreadyExists)));
    assert!(catalog.create_stream(2, "S".to_string(), 11).is_ok());
}

#[test]
fn topic_in_unknown_stream_is_not_found() {
    let mut catalog = Catalog::new(1024);
    assert!(matches!(catalog.create_topic(99, 1, 1, "t".to_string()), Err(Error::NotFound)));
    assert!(catalog.get_streams().is_empty());
}

#[test]
fn topic_collisions_are_per_stream() {
    let mut catalog = Catalog::new(1024);
    catalog.create_stream(1, "a".to_string(), 0).unwrap();
    catalog.create_stream(2, "b".to_string(), 0).unwrap();
    assert!(catalog.create_topic(1, 1, 1, "t".to_string()).is_ok());
    assert!(matches!(catalog.create_topic(1, 1, 1, "u".to_string()), Err(Error::AlreadyExists)));
    assert!(matches!(catalog.create_topic(1, 2, 1, "t".to_string()), Err(Error::AlreadyExists)));
    assert!(catalog.create_topic(2, 1, 1, "t".to_string()).is_ok());
    assert_eq!(catalog.get_stream(1).unwrap().topics.len(), 1);
}

#[test]
fn read_returns_fewer_messages_where_the_log_ends() {
    let mut catalog = Catalog::new(1024);
    catalog.create_stream(1, "s".to_string(), 0).unwrap();
    catalog.create_topic(1, 1, 1, "t".to_string()).unwrap();
    let appended = catalog.append_messages(1, 1, 1, &payloads(3)).unwrap();
    assert_eq!(appended.first_offset, 0);
    assert_eq!(appended.count, 3);
    let messages = catalog.read_messages(1, 1, 1, 1, 10).unwrap();
    assert_eq!(messages.len(), 2);
    assert_eq!(messages[0].offset, 1);
    assert_eq!(messages[0].payload, vec![1, 1]);
    assert_eq!(messages[1].offset, 2);
    assert_eq!(messages[1].payload, vec![2, 2]);
}

#[test]
fn read_edges() {
    let mut catalog = Catalog::new(1024);
    catalog.create_stream(1, "s".to_string(), 0).unwrap();
    catalog.create_topic(1, 1, 2, "t".to_string()).unwrap();
    catalog.append_messages(1, 1, 2, &payloads(3)).unwrap();
    assert!(catalog.read_messages(1, 1, 2, 3, 10).unwrap().is_empty());
    assert!(catalog.read_messages(1, 1, 2, 100, 10).unwrap().is_empty());
    assert!(catalog.read_messages(1, 1, 2, 0, 0).unwrap().is_empty());
    assert_eq!(catalog.read_messages(1, 1, 2, 0, 2).unwrap().len(), 2);
    assert!(catalog.read_messages(1, 1, 1, 0, 10).unwrap().is_empty());
    assert!(matches!(catalog.read_messages(1, 1, 3, 0, 10), Err(Error::NotFound)));
    assert!(matches!(catalog.read_messages(1, 1, 0, 0, 10), Err(Error::NotFound)));
    assert!(matches!(catalog.read_messages(1, 2, 1, 0, 10), Err(Error::NotFound)));
    assert!(matches!(catalog.read_messages(2, 1, 1, 0, 10), Err(Error::NotFound)));
    assert!(matches!(catalog.append_messages(2, 1, 1, &payloads(1)), Err(Error::NotFound)));
    assert!(matches!(catalog.plan_append(1, 1, 9, &payloads(1)), Err(Error::NotFound)));
}

#[test]
fn listing_is_the_same_when_nothing_changed() {
    let mut catalog = Catalog::new(1024);
    catalog.create_stream(2, "b".to_string(), 7).unwrap();
    catalog.create_stream(1, "a".to_string(), 8).unwrap();
    catalog.create_topic(2, 5, 2, "t".to_string()).unwrap();
    let first = catalog.get_streams();
    let second = catalog.get_streams();
    assert_eq!(first.len(), 2);
    assert_eq!(second.len(), 2);
    for (a, b) in first.iter().zip(second.iter()) {
        assert_eq!((a.id, a.created_at, a.topics_count, &a.name), (b.id, b.created_at, b.topics_count, &b.name));
    }
    assert_eq!((first[0].id, first[0].created_at, first[0].topics_count), (2, 7, 1));
    assert_eq!(first[0].name, "b");
    assert_eq!((first[1].id, first[1].topics_count), (1, 0));
}

#[test]
fn get_stream_gives_the_topics() {
    let mut catalog = Catalog::new(1024);
    assert!(matches!(catalog.get_stream(1), Err(Error::NotFound)));
    catalog.create_stream(1, "s".to_string(), 42).unwrap();
    catalog.create_topic(1, 3, 4, "t".to_string()).unwrap();
    let details = catalog.get_stream(1).unwrap();
    assert_eq!((details.id, details.created_at), (1, 42));
    assert_eq!(details.name, "s");
    assert_eq!(details.topics.len(), 1);
    assert_eq!((details.topics[0].id, details.topics[0].partitions_count), (3, 4));
    assert_eq!(details.topics[0].name, "t");
}

#[test]
fn create_stream_overwrites_the_catalog_file() {
    let mut catalog = Catalog::new(1024);
    let ops = catalog.create_stream(1, "s".to_string(), 3).unwrap();
    assert_eq!(ops.len(), 1);
    match &ops[0] {
        StorageOp::Overwrite { location, bytes } => {
            assert_eq!(*location, Location::Catalog);
            assert_eq!(
                *bytes,
                vec![1, 0, 0, 0, 1, 0, 0, 0, 3, 0, 0, 0, 0, 0, 0, 0, 1, b's', 0, 0, 0, 0]
            );
            assert_eq!(*bytes, catalog.image());
        }
        _ => panic!("an overwrite was expected"),
    }
}

#[test]
fn create_topic_provisions_the_first_segments() {
    let mut catalog = Catalog::new(1024);
    catalog.create_stream(1, "s".to_string(), 3).unwrap();
    let ops = catalog.create_topic(1, 7, 2, "t".to_string()).unwrap();
    assert_eq!(ops.len(), 5);
    assert!(matches!(&ops[0], StorageOp::Overwrite { location: Location::Catalog, bytes } if *bytes == catalog.image()));
    let expected = [
        Location::Log { stream_id: 1, topic_id: 7, partition_id: 1, start_offset: 0 },
        Location::Index { stream_id: 1, topic_id: 7, partition_id: 1, start_offset: 0 },
        Location::Log { stream_id: 1, topic_id: 7, partition_id: 2, start_offset: 0 },
        Location::Index { stream_id: 1, topic_id: 7, partition_id: 2, start_offset: 0 },
    ];
    for (op, location) in ops[1..].iter().zip(expected.iter()) {
        match op {
            StorageOp::Overwrite { location: l, bytes } => {
                assert_eq!(l, location);
                assert!(bytes.is_empty());
            }
            _ => panic!("an overwrite was expected"),
        }
    }
    // The catalog file lists the stream with its topic.
    let image = catalog.image();
    let mut frame = (image.len() as u32).to_le_bytes().to_vec();
    frame.extend_from_slice(&image);
    let list = from_frame::<Counted<StreamDetails>>(&frame).unwrap();
    assert_eq!(list.items.len(), 1);
    assert_eq!(list.items[0].topics[0].partitions_count, 2);
}

#[test]
fn delete_stream_removes_every_file_and_the_listing_entry() {
    let mut catalog = Catalog::new(8);
    catalog.create_stream(1, "s".to_string(), 0).unwrap();
    catalog.create_stream(2, "other".to_string(), 0).unwrap();
    catalog.create_topic(1, 1, 2, "t".to_string()).unwrap();
    catalog.create_topic(1, 2, 1, "u".to_string()).unwrap();
    // Partition 1 of topic 1 gets a second segment.
    catalog.append_messages(1, 1, 1, &payloads(2)).unwrap();
    catalog.append_messages(1, 1, 1, &payloads(1)).unwrap();
    let ops = catalog.delete_stream(1).unwrap();
    let key = |t, p, o| {
        [
            Location::Log { stream_id: 1, topic_id: t, partition_id: p, start_offset: o },
            Location::Index { stream_id: 1, topic_id: t, partition_id: p, start_offset: o },
        ]
    };
    let mut expected = Vec::new();
    expected.extend_from_slice(&key(1, 1, 0));
    expected.extend_from_slice(&key(1, 1, 2));
    expected.extend_from_slice(&key(1, 2, 0));
    expected.extend_from_slice(&key(2, 1, 0));
    assert_eq!(ops.len(), expected.len() + 1);
    for (op, location) in ops.iter().zip(expected.iter()) {
        assert!(matches!(op, StorageOp::Remove { location: l } if l == location));
    }
    assert!(matches!(ops.last().unwrap(), StorageOp::Overwrite { location: Location::Catalog, bytes } if *bytes == catalog.image()));
    let listing = catalog.get_streams();
    assert_eq!(listing.len(), 1);
    assert_eq!(listing[0].id, 2);
    assert!(matches!(catalog.get_stream(1), Err(Error::NotFound)));
    assert!(matches!(catalog.delete_stream(1), Err(Error::NotFound)));
    assert!(matches!(catalog.read_messages(1, 1, 1, 0, 1), Err(Error::NotFound)));
}

#[test]
fn forgetting_undoes_a_creation() {
    let mut catalog = Catalog::new(1024);
    let empty = catalog.image();
    catalog.create_stream(1, "s".to_string(), 0).unwrap();
    let with_stream = catalog.image();
    catalog.create_topic(1, 1, 1, "t".to_string()).unwrap();
    assert!(catalog.forget_topic(1, 1));
    assert_eq!(catalog.image(), with_stream);
    assert!(!catalog.forget_topic(1, 1));
    assert!(!catalog.forget_topic(2, 1));
    assert!(catalog.forget_stream(1));
    assert_eq!(catalog.image(), empty);
    assert!(!catalog.forget_stream(1));
    assert_eq!(empty, vec![0, 0, 0, 0]);
}

#[test]
fn plan_says_what_append_stores() {
    let mut catalog = Catalog::new(1024);
    catalog.create_stream(1, "s".to_string(), 0).unwrap();
    catalog.create_topic(1, 1, 1, "t".to_string()).unwrap();
    catalog.append_messages(1, 1, 1, &vec![vec![5]]).unwrap();
    let ops = catalog.plan_append(1, 1, 1, &vec![vec![6, 7], vec![]]).unwrap();
    assert_eq!(ops.len(), 2);
    match &ops[0] {
        StorageOp::Append { location, bytes } => {
            assert_eq!(
                *location,
                Location::Log { stream_id: 1, topic_id: 1, partition_id: 1, start_offset: 0 }
            );
            assert_eq!(
                *bytes,
                vec![
                    1, 0, 0, 0, 0, 0, 0, 0, 2, 0, 0, 0, 6, 7, 2, 0, 0, 0, 0, 0, 0, 0, 0, 0, 0, 0
                ]
            );
        }
        _ => panic!("an append was expected"),
    }
    match &ops[1] {
        StorageOp::Append { location, bytes } => {
            assert_eq!(
                *location,
                Location::Index { stream_id: 1, topic_id: 1, partition_id: 1, start_offset: 0 }
            );
            assert_eq!(
                *bytes,
                vec![
                    1, 0, 0, 0, 0, 0, 0, 0, 13, 0, 0, 0, 0, 0, 0, 0, 2, 0, 0, 0, 0, 0, 0, 0, 27,
                    0, 0, 0, 0, 0, 0, 0
                ]
            );
        }
        _ => panic!("an append was expected"),
    }
    // The plan changed nothing.
    assert_eq!(catalog.read_messages(1, 1, 1, 0, 10).unwrap().len(), 1);
    let before = catalog.get_partition(1, 1, 1).unwrap().segment(0).unwrap().log().clone();
    catalog.append_messages(1, 1, 1, &vec![vec![6, 7], vec![]]).unwrap();
    let after = catalog.get_partition(1, 1, 1).unwrap().segment(0).unwrap().log().clone();
    match &ops[0] {
        StorageOp::Append { bytes, .. } => {
            assert_eq!(after[..before.len()], before[..]);
            assert_eq!(after[before.len()..], bytes[..]);
        }
        _ => panic!("an append was expected"),
    }
}
