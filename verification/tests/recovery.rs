use streaming::catalog::Catalog;
use streaming::error::Error;
use streaming::partition::{Partition, SegmentFiles};
use streaming::segment::{encode_batch, Segment};
use streaming::storage::{Location, StorageOp};

fn stored(first: u64, payloads: &[Vec<u8>]) -> (Vec<u8>, Vec<u8>) {
    let batch = encode_batch(first, 0, &payloads.to_vec()).unwrap();
    (batch.log, batch.index)
}

#[test]
fn whole_files_are_read_back() {
    let (log, index) = stored(5, &[vec![1], vec![2, 2], vec![]]);
    let segment = Segment::recover(5, &log, &index);
    assert_eq!(segment.start_offset(), 5);
    assert_eq!(segment.len(), 3);
    assert_eq!(segment.end_offset(), 8);
    assert_eq!(*segment.log(), log);
    assert!(!segment.is_torn());
    assert!(segment.is_index_complete());
    assert!(!segment.is_closed());
    let mut out = Vec::new();
    assert_eq!(segment.read(6, 10, &mut out), 2);
    assert_eq!(out[0].payload, vec![2, 2]);
    assert_eq!(out[1].offset, 7);
}

#[test]
fn partial_trailing_record_is_left_out() {
    let (mut log, index) = stored(0, &[vec![1], vec![2]]);
    let whole = log.len();
    // Half a record follows: an offset and a length, but not the payload.
    log.extend_from_slice(&[2, 0, 0, 0, 0, 0, 0, 0, 4, 0, 0, 0, 9]);
    let segment = Segment::recover(0, &log, &index);
    assert_eq!(segment.len(), 2);
    assert_eq!(segment.size(), whole);
    assert_eq!(segment.log()[..], log[..whole]);
    assert!(segment.is_torn());
    assert!(segment.is_index_complete());
}

#[test]
fn record_with_a_wrong_offset_ends_the_log() {
    let (mut log, _) = stored(0, &[vec![1]]);
    let (other, _) = stored(7, &[vec![2]]);
    let whole = log.len();
    log.extend_from_slice(&other);
    let segment = Segment::recover(0, &log, &[]);
    assert_eq!(segment.len(), 1);
    assert_eq!(segment.size(), whole);
    assert!(segment.is_torn());
    let empty = Segment::recover(3, &log, &[]);
    assert_eq!(empty.len(), 0);
    assert_eq!(empty.size(), 0);
    assert!(empty.is_torn());
    let nothing = Segment::recover(3, &[], &[]);
    assert_eq!(nothing.len(), 0);
    assert!(!nothing.is_torn());
    assert!(nothing.is_index_complete());
}

#[test]
fn stale_index_is_walked_around() {
    let payloads = [vec![1], vec![2, 2], vec![3, 3, 3], vec![4]];
    let (log, index) = stored(0, &payloads);
    // The index lost its last two entries, and then half of the second.
    for kept in [32usize, 24, 16, 0] {
        let segment = Segment::recover(0, &log, &index[..kept]);
        assert_eq!(segment.len(), 4);
        assert!(!segment.is_torn());
        assert!(!segment.is_index_complete());
        for from in 0..4u64 {
            let mut out = Vec::new();
            assert_eq!(segment.read(from, 2, &mut out), (4 - from).min(2));
            assert_eq!(out[0].offset, from);
            assert_eq!(out[0].payload, payloads[from as usize]);
        }
    }
    // An entry that points to the wrong place is where the index ends.
    let mut wrong = index.clone();
    wrong[16 + 8] += 1;
    let segment = Segment::recover(0, &log, &wrong);
    assert!(!segment.is_index_complete());
    let mut out = Vec::new();
    assert_eq!(segment.read(3, 1, &mut out), 1);
    assert_eq!(out[0].payload, vec![4]);
}

#[test]
fn partition_is_rebuilt_from_its_files() {
    let mut source = Partition::new(1, 2, 3, 20);
    source.append_messages(&vec![vec![1u8; 10]]).unwrap();
    source.append_messages(&vec![vec![2u8; 10]]).unwrap();
    source.append_messages(&vec![vec![3u8; 10], vec![4]]).unwrap();
    assert_eq!(source.segments_count(), 3);
    let files: Vec<SegmentFiles> = (0..3)
        .map(|i| {
            let segment = source.segment(i).unwrap();
            SegmentFiles {
                start_offset: segment.start_offset(),
                log: segment.log().clone(),
                index: Vec::new(),
            }
        })
        .collect();
    let rebuilt = Partition::recover(1, 2, 3, 20, &files).unwrap();
    assert_eq!(rebuilt.next_offset(), 4);
    assert_eq!(rebuilt.segments_count(), 3);
    assert_eq!((rebuilt.stream_id(), rebuilt.topic_id(), rebuilt.id()), (1, 2, 3));
    assert!(rebuilt.segment(0).unwrap().is_closed());
    assert!(!rebuilt.segment(2).unwrap().is_closed());
    let messages = rebuilt.read_messages(0, 10);
    assert_eq!(messages.len(), 4);
    assert_eq!(messages[3].payload, vec![4]);
    assert_eq!(messages[1].payload, vec![2u8; 10]);
}

#[test]
fn files_that_do_not_chain_are_corrupt() {
    let (first, _) = stored(0, &[vec![1], vec![2]]);
    let (second, _) = stored(2, &[vec![3]]);
    let file = |start_offset: u64, log: &Vec<u8>| SegmentFiles {
        start_offset,
        log: log.clone(),
        index: Vec::new(),
    };
    assert!(Partition::recover(1, 1, 1, 9, &vec![file(0, &first), file(2, &second)]).is_ok());
    assert!(matches!(Partition::recover(1, 1, 1, 9, &vec![]), Err(Error::Corruption)));
    assert!(matches!(
        Partition::recover(1, 1, 1, 9, &vec![file(2, &second)]),
        Err(Error::Corruption)
    ));
    assert!(matches!(
        Partition::recover(1, 1, 1, 9, &vec![file(0, &first), file(3, &second)]),
        Err(Error::Corruption)
    ));
    let mut torn = first.clone();
    torn.push(0);
    assert!(matches!(
        Partition::recover(1, 1, 1, 9, &vec![file(0, &torn), file(2, &second)]),
        Err(Error::Corruption)
    ));
    // A torn file is in order where it is the last.
    let mut torn = second.clone();
    torn.push(0);
    let partition =
        Partition::recover(1, 1, 1, 9, &vec![file(0, &first), file(2, &torn)]).unwrap();
    assert_eq!(partition.next_offset(), 3);
    assert!(partition.segment(1).unwrap().is_torn());
}

#[test]
fn torn_file_is_written_anew_by_the_next_append() {
    let (log, index) = stored(0, &[vec![1]]);
    let mut torn = log.clone();
    torn.extend_from_slice(&[1, 2, 3]);
    let files = vec![SegmentFiles { start_offset: 0, log: torn, index }];
    let mut partition = Partition::recover(1, 1, 1, 1000, &files).unwrap();
    let ops = partition.plan_append(&vec![vec![2]]).unwrap();
    assert_eq!(ops.len(), 2);
    let (added, _) = stored(1, &[vec![2]]);
    match &ops[0] {
        StorageOp::Overwrite { location, bytes } => {
            assert_eq!(
                *location,
                Location::Log { stream_id: 1, topic_id: 1, partition_id: 1, start_offset: 0 }
            );
            let mut expected = log.clone();
            expected.extend_from_slice(&added);
            assert_eq!(*bytes, expected);
        }
        _ => panic!("an overwrite was expected"),
    }
    assert!(matches!(&ops[1], StorageOp::Append { location: Location::Index { .. }, .. }));
    partition.append_messages(&vec![vec![2]]).unwrap();
    assert!(!partition.segment(0).unwrap().is_torn());
    let ops = partition.plan_append(&vec![vec![3]]).unwrap();
    assert!(matches!(&ops[0], StorageOp::Append { .. }));
}

#[test]
fn torn_file_is_written_anew_before_a_rollover() {
    let (log, index) = stored(0, &[vec![1u8; 20]]);
    let mut torn = log.clone();
    torn.push(7);
    let files = vec![SegmentFiles { start_offset: 0, log: torn, index }];
    let mut partition = Partition::recover(1, 1, 1, 10, &files).unwrap();
    let ops = partition.plan_append(&vec![vec![2]]).unwrap();
    assert_eq!(ops.len(), 3);
    match &ops[0] {
        StorageOp::Overwrite { location, bytes } => {
            assert_eq!(
                *location,
                Location::Log { stream_id: 1, topic_id: 1, partition_id: 1, start_offset: 0 }
            );
            assert_eq!(*bytes, log);
        }
        _ => panic!("an overwrite was expected"),
    }
    assert_eq!(
        ops[1].location(),
        Location::Log { stream_id: 1, topic_id: 1, partition_id: 1, start_offset: 1 }
    );
    partition.append_messages(&vec![vec![2]]).unwrap();
    assert_eq!(partition.segments_count(), 2);
    assert!(!partition.segment(0).unwrap().is_torn());
}

#[test]
fn catalog_is_rebuilt_from_its_file() {
    let mut source = Catalog::new(64);
    source.create_stream(3, "c".to_string(), 30).unwrap();
    source.create_stream(1, "a".to_string(), 10).unwrap();
    source.create_topic(3, 1, 2, "t".to_string()).unwrap();
    source.create_topic(3, 2, 0, "u".to_string()).unwrap();
    source.append_messages(3, 1, 2, &vec![vec![1], vec![2]]).unwrap();
    let image = source.image();
    let mut rebuilt = Catalog::recover(&image, 64).unwrap();
    assert_eq!(rebuilt.image(), image);
    let listing = rebuilt.get_streams();
    assert_eq!(listing.len(), 2);
    assert_eq!((listing[0].id, listing[0].created_at, listing[0].topics_count), (3, 30, 2));
    assert_eq!(listing[0].name, "c");
    let details = rebuilt.get_stream(3).unwrap();
    assert_eq!(details.topics[0].partitions_count, 2);
    assert_eq!(details.topics[1].partitions_count, 0);
    // The partitions are empty until their files are read.
    assert_eq!(rebuilt.get_partition(3, 1, 2).unwrap().next_offset(), 0);
    let segment = source.get_partition(3, 1, 2).unwrap().segment(0).unwrap();
    let files =
        vec![SegmentFiles { start_offset: 0, log: segment.log().clone(), index: Vec::new() }];
    let partition = Partition::recover(3, 1, 2, 64, &files).unwrap();
    assert_eq!(rebuilt.restore_partition(partition), Ok(()));
    let messages = rebuilt.read_messages(3, 1, 2, 0, 10).unwrap();
    assert_eq!(messages.len(), 2);
    assert_eq!(messages[1].payload, vec![2]);
    let stray = Partition::recover(3, 1, 3, 64, &files).unwrap();
    assert_eq!(rebuilt.restore_partition(stray), Err(Error::NotFound));
    let stray = Partition::recover(9, 1, 1, 64, &files).unwrap();
    assert_eq!(rebuilt.restore_partition(stray), Err(Error::NotFound));
}

#[test]
fn bytes_that_are_no_catalog_are_corrupt() {
    assert!(matches!(Catalog::recover(&[], 1), Err(Error::Corruption)));
    assert!(matches!(Catalog::recover(&[1, 0, 0, 0], 1), Err(Error::Corruption)));
    assert!(matches!(Catalog::recover(&[0, 0, 0, 0, 0], 1), Err(Error::Corruption)));
    assert!(Catalog::recover(&[0, 0, 0, 0], 1).unwrap().get_streams().is_empty());
    let stream = |id: u8, name: u8| vec![id, 0, 0, 0, 0, 0, 0, 0, 0, 0, 0, 0, 1, name, 0, 0, 0, 0];
    let mut twice = vec![2, 0, 0, 0];
    twice.extend(stream(1, b'a'));
    twice.extend(stream(1, b'b'));
    assert!(matches!(Catalog::recover(&twice, 1), Err(Error::Corruption)));
    let mut same_name = vec![2, 0, 0, 0];
    same_name.extend(stream(1, b'a'));
    same_name.extend(stream(2, b'a'));
    assert!(matches!(Catalog::recover(&same_name, 1), Err(Error::Corruption)));
    let mut fine = vec![2, 0, 0, 0];
    fine.extend(stream(1, b'a'));
    fine.extend(stream(2, b'b'));
    assert_eq!(Catalog::recover(&fine, 1).unwrap().get_streams().len(), 2);
    // One stream with twice the same topic.
    let mut topics = vec![1, 0, 0, 0, 1, 0, 0, 0, 0, 0, 0, 0, 0, 0, 0, 0, 1, b'a', 2, 0, 0, 0];
    for _ in 0..2 {
        topics.extend_from_slice(&[5, 0, 0, 0, 1, 0, 0, 0, 1, b't']);
    }
    assert!(matches!(Catalog::recover(&topics, 1), Err(Error::Corruption)));
}

/// A byte store in memory: what each path holds.
fn take(store: &mut std::collections::HashMap<String, Vec<u8>>, ops: &[StorageOp]) {
    for op in ops {
        match op {
            StorageOp::Append { location, bytes } => {
                store.entry(location.path()).or_default().extend_from_slice(bytes)
            }
            StorageOp::Overwrite { location, bytes } => {
                store.insert(location.path(), bytes.clone());
            }
            StorageOp::Remove { location } => {
                store.remove(&location.path());
            }
        }
    }
}

fn replay(store: &std::collections::HashMap<String, Vec<u8>>, segment_size: u64) -> Catalog {
    let mut catalog = Catalog::recover(&store["catalog"], segment_size).unwrap();
    for stream in catalog.snapshot() {
        for topic in &stream.topics {
            for partition_id in 1..=topic.partitions_count {
                let mut files = Vec::new();
                let mut start_offset = 0u64;
                loop {
                    let key = |start_offset| Location::Log {
                        stream_id: stream.id,
                        topic_id: topic.id,
                        partition_id,
                        start_offset,
                    };
                    let Some(log) = store.get(&key(start_offset).path()) else {
                        break;
                    };
                    let index = Location::Index {
                        stream_id: stream.id,
                        topic_id: topic.id,
                        partition_id,
                        start_offset,
                    };
                    let index = store.get(&index.path()).cloned().unwrap_or_default();
                    let end = Segment::recover(start_offset, log, &index).end_offset();
                    files.push(SegmentFiles { start_offset, log: log.clone(), index });
                    if end == start_offset {
                        break;
                    }
                    start_offset = end;
                }
                let partition =
                    Partition::recover(stream.id, topic.id, partition_id, segment_size, &files)
                        .unwrap();
                for i in 0..partition.segments_count() {
                    assert!(partition.segment(i).unwrap().is_index_complete());
                }
                catalog.restore_partition(partition).unwrap();
            }
        }
    }
    catalog
}

#[test]
fn what_the_byte_store_took_is_what_replay_rebuilds() {
    let mut store = std::collections::HashMap::new();
    let mut catalog = Catalog::new(30);
    take(&mut store, &catalog.create_stream(1, "s".to_string(), 5).unwrap());
    take(&mut store, &catalog.create_topic(1, 1, 2, "t".to_string()).unwrap());
    take(&mut store, &catalog.create_stream(2, "gone".to_string(), 6).unwrap());
    take(&mut store, &catalog.create_topic(2, 1, 1, "t".to_string()).unwrap());
    for round in 0..7u8 {
        for partition_id in 1..=2 {
            let batch: Vec<Vec<u8>> =
                (0..partition_id).map(|i| vec![round, i as u8, partition_id as u8]).collect();
            take(&mut store, &catalog.plan_append(1, 1, partition_id, &batch).unwrap());
            catalog.append_messages(1, 1, partition_id, &batch).unwrap();
        }
    }
    let batch = vec![vec![1]];
    take(&mut store, &catalog.plan_append(2, 1, 1, &batch).unwrap());
    catalog.append_messages(2, 1, 1, &batch).unwrap();
    take(&mut store, &catalog.delete_stream(2).unwrap());
    assert!(store.keys().all(|path| !path.starts_with("streams/2/")));
    assert!(catalog.get_partition(1, 1, 2).unwrap().segments_count() > 1);

    let rebuilt = replay(&store, 30);
    assert_eq!(rebuilt.image(), catalog.image());
    for partition_id in 1..=2 {
        let before = catalog.read_messages(1, 1, partition_id, 0, 1000).unwrap();
        let after = rebuilt.read_messages(1, 1, partition_id, 0, 1000).unwrap();
        assert_eq!(before.len(), 7 * partition_id as usize);
        assert_eq!(before.len(), after.len());
        for (a, b) in before.iter().zip(after.iter()) {
            assert_eq!((a.offset, &a.payload), (b.offset, &b.payload));
        }
        let a = catalog.get_partition(1, 1, partition_id).unwrap();
        let b = rebuilt.get_partition(1, 1, partition_id).unwrap();
        assert_eq!(a.segments_count(), b.segments_count());
        assert_eq!(a.next_offset(), b.next_offset());
    }
}

#[test]
fn crash_in_the_middle_of_a_record_loses_only_that_record() {
    let mut store = std::collections::HashMap::new();
    let mut catalog = Catalog::new(1000);
    take(&mut store, &catalog.create_stream(1, "s".to_string(), 5).unwrap());
    take(&mut store, &catalog.create_topic(1, 1, 1, "t".to_string()).unwrap());
    let batch = vec![vec![1, 2, 3]];
    take(&mut store, &catalog.plan_append(1, 1, 1, &batch).unwrap());
    catalog.append_messages(1, 1, 1, &batch).unwrap();
    // The next append reaches the file in part only.
    let ops = catalog.plan_append(1, 1, 1, &vec![vec![4, 5, 6]]).unwrap();
    match &ops[0] {
        StorageOp::Append { location, bytes } => {
            store.get_mut(&location.path()).unwrap().extend_from_slice(&bytes[..bytes.len() - 1])
        }
        _ => panic!("an append was expected"),
    }
    let mut rebuilt = replay_torn(&store);
    assert_eq!(rebuilt.read_messages(1, 1, 1, 0, 10).unwrap().len(), 1);
    assert!(rebuilt.get_partition(1, 1, 1).unwrap().segment(0).unwrap().is_torn());
    // The next append cuts the broken record off.
    let batch = vec![vec![7]];
    take(&mut store, &rebuilt.plan_append(1, 1, 1, &batch).unwrap());
    rebuilt.append_messages(1, 1, 1, &batch).unwrap();
    let again = replay_torn(&store);
    let messages = again.read_messages(1, 1, 1, 0, 10).unwrap();
    assert_eq!(messages.len(), 2);
    assert_eq!(messages[1].payload, vec![7]);
    assert!(!again.get_partition(1, 1, 1).unwrap().segment(0).unwrap().is_torn());
}

fn replay_torn(store: &std::collections::HashMap<String, Vec<u8>>) -> Catalog {
    let mut catalog = Catalog::recover(&store["catalog"], 1000).unwrap();
    let log = Location::Log { stream_id: 1, topic_id: 1, partition_id: 1, start_offset: 0 };
    let index = Location::Index { stream_id: 1, topic_id: 1, partition_id: 1, start_offset: 0 };
    let files = vec![SegmentFiles {
        start_offset: 0,
        log: store[&log.path()].clone(),
        index: store[&index.path()].clone(),
    }];
    catalog.restore_partition(Partition::recover(1, 1, 1, 1000, &files).unwrap()).unwrap();
    catalog
}
