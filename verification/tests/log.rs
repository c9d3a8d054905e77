use streaming::partition::Partition;
use streaming::segment::{encode_batch, Segment};

#[test]
fn offsets_start_at_zero_and_are_contiguous() {
    let mut partition = Partition::new(1, 1, 1, 1 << 20);
    assert_eq!(partition.next_offset(), 0);
    let sizes = [3usize, 0, 1, 5];
    let mut expected = 0u64;
    for size in sizes {
        let batch: Vec<Vec<u8>> = (0..size).map(|i| vec![i as u8; i]).collect();
        let appended = partition.append_messages(&batch).unwrap();
        assert_eq!(appended.first_offset, expected);
        assert_eq!(appended.count as usize, size);
        expected += size as u64;
        assert_eq!(partition.next_offset(), expected);
    }
    let all = partition.read_messages(0, 100);
    assert_eq!(all.len(), 9);
    for (i, message) in all.iter().enumerate() {
        assert_eq!(message.offset, i as u64);
    }
    assert_eq!(all[3].payload, Vec::<u8>::new());
    assert_eq!(all[8].payload, vec![4, 4, 4, 4]);
}

#[test]
fn rollover_never_splits_a_batch() {
    // Each record takes 12 bytes and its payload: a batch of two payloads
    // of four bytes takes 32 bytes. The active segment is closed before an
    // append once it is larger than 40 bytes.
    let mut partition = Partition::new(1, 1, 1, 40);
    let batch = vec![vec![1u8; 4], vec![2u8; 4]];
    for _ in 0..5 {
        partition.append_messages(&batch).unwrap();
    }
    // 32 bytes: stays. 64 bytes: larger than 40, so the third batch opens
    // a new segment, and so does the fifth.
    assert_eq!(partition.segments_count(), 3);
    let starts: Vec<u64> =
        (0..3).map(|i| partition.segment(i).unwrap().start_offset()).collect();
    assert_eq!(starts, vec![0, 4, 8]);
    let sizes: Vec<usize> = (0..3).map(|i| partition.segment(i).unwrap().size()).collect();
    assert_eq!(sizes, vec![64, 64, 32]);
    assert!(partition.segment(0).unwrap().is_closed());
    assert!(partition.segment(1).unwrap().is_closed());
    assert!(!partition.segment(2).unwrap().is_closed());
    assert!(partition.segment(3).is_none());
    // Every batch lies whole in one segment: each segment holds an even
    // number of messages.
    for i in 0..3 {
        assert_eq!(partition.segment(i).unwrap().len() % 2, 0);
    }
    // Reads cross the segments.
    let messages = partition.read_messages(3, 4);
    assert_eq!(messages.iter().map(|m| m.offset).collect::<Vec<_>>(), vec![3, 4, 5, 6]);
    assert_eq!(messages[0].payload, vec![2u8; 4]);
    assert_eq!(messages[1].payload, vec![1u8; 4]);
    assert_eq!(partition.read_messages(0, 100).len(), 10);
    assert_eq!(partition.read_messages(9, 100).len(), 1);
}

#[test]
fn segment_at_the_threshold_is_not_closed() {
    let mut partition = Partition::new(1, 1, 1, 32);
    let batch = vec![vec![1u8; 4], vec![2u8; 4]];
    partition.append_messages(&batch).unwrap();
    partition.append_messages(&batch).unwrap();
    assert_eq!(partition.segments_count(), 1);
    partition.append_messages(&batch).unwrap();
    assert_eq!(partition.segments_count(), 2);
}

#[test]
fn plan_names_the_new_segment_on_rollover() {
    let mut partition = Partition::new(4, 5, 6, 10);
    partition.append_messages(&vec![vec![0u8; 8]]).unwrap();
    let ops = partition.plan_append(&vec![vec![9]]).unwrap();
    assert_eq!(ops.len(), 2);
    assert_eq!(
        ops[0].location(),
        streaming::storage::Location::Log {
            stream_id: 4,
            topic_id: 5,
            partition_id: 6,
            start_offset: 1
        }
    );
    assert_eq!(
        ops[1].location(),
        streaming::storage::Location::Index {
            stream_id: 4,
            topic_id: 5,
            partition_id: 6,
            start_offset: 1
        }
    );
    // The files of a new segment are written anew.
    match &ops[0] {
        streaming::storage::StorageOp::Overwrite { bytes, .. } => {
            assert_eq!(*bytes, vec![1, 0, 0, 0, 0, 0, 0, 0, 1, 0, 0, 0, 9]);
        }
        _ => panic!("an overwrite was expected"),
    }
    match &ops[1] {
        streaming::storage::StorageOp::Overwrite { bytes, .. } => {
            assert_eq!(*bytes, vec![1, 0, 0, 0, 0, 0, 0, 0, 0, 0, 0, 0, 0, 0, 0, 0]);
        }
        _ => panic!("an overwrite was expected"),
    }
}

#[test]
fn batch_is_encoded_record_by_record() {
    let batch = encode_batch(7, 100, &vec![vec![1, 2], vec![3]]).unwrap();
    assert_eq!(
        batch.log,
        vec![7, 0, 0, 0, 0, 0, 0, 0, 2, 0, 0, 0, 1, 2, 8, 0, 0, 0, 0, 0, 0, 0, 1, 0, 0, 0, 3]
    );
    assert_eq!(batch.starts, vec![0, 14]);
    assert_eq!(
        batch.index,
        vec![
            7, 0, 0, 0, 0, 0, 0, 0, 100, 0, 0, 0, 0, 0, 0, 0, 8, 0, 0, 0, 0, 0, 0, 0, 114, 0, 0,
            0, 0, 0, 0, 0
        ]
    );
}

#[test]
fn batch_without_room_is_refused() {
    assert!(encode_batch(u64::MAX, 0, &vec![vec![1]]).is_none());
    assert!(encode_batch(u64::MAX - 1, 0, &vec![vec![1]]).is_some());
    assert!(encode_batch(u64::MAX - 1, 0, &vec![vec![1], vec![2]]).is_none());
    assert!(encode_batch(0, u64::MAX - 12, &vec![vec![1]]).is_none());
    assert!(encode_batch(0, u64::MAX - 13, &vec![vec![1]]).is_some());
    assert!(encode_batch(u64::MAX, 0, &vec![]).is_some());
    let mut partition = Partition::new(1, 1, 1, 10);
    assert!(partition.append_messages(&vec![]).is_ok());
    assert_eq!(partition.next_offset(), 0);
}

#[test]
fn segment_reads_through_the_index() {
    let mut segment = Segment::new(10);
    segment.append(&vec![vec![1], vec![2, 2], vec![3, 3, 3]]).unwrap();
    assert_eq!(segment.start_offset(), 10);
    assert_eq!(segment.end_offset(), 13);
    assert_eq!(segment.len(), 3);
    assert!(segment.is_index_complete());
    let mut out = Vec::new();
    assert_eq!(segment.read(11, 5, &mut out), 2);
    assert_eq!(out.len(), 2);
    assert_eq!((out[0].offset, out[1].offset), (11, 12));
    assert_eq!(out[1].payload, vec![3, 3, 3]);
    assert_eq!(segment.read(13, 5, &mut out), 0);
    assert_eq!(segment.read(10, 1, &mut out), 1);
    assert_eq!(out.len(), 3);
    assert_eq!(out[2].offset, 10);
}
