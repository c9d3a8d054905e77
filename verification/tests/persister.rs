use streaming::error::Error;
use streaming::persister::{Action, FilePersister, FileWithSyncPersister, Persister, Verb};
use streaming::storage::{rooted_path, start_write, Location, StorageOp};

#[test]
fn buffered_append_is_done_after_the_write() {
    let mut job = FilePersister.append("a/b", &[1, 2, 3]);
    assert_eq!(job.path(), "a/b");
    assert_eq!(*job.bytes(), vec![1, 2, 3]);
    assert_eq!(job.action(), Action::Open(Verb::Append));
    assert_eq!(job.result(), None);
    job.advance(true);
    assert_eq!(job.action(), Action::WriteAll);
    assert_eq!(job.result(), None);
    job.advance(true);
    assert_eq!(job.action(), Action::Succeed);
    assert_eq!(job.result(), Some(Ok(())));
    job.advance(false);
    assert_eq!(job.result(), Some(Ok(())));
}

#[test]
fn synced_write_is_done_only_after_the_sync() {
    let mut job = FileWithSyncPersister.overwrite("catalog", &[9]);
    assert_eq!(job.action(), Action::Open(Verb::Overwrite));
    job.advance(true);
    assert_eq!(job.action(), Action::WriteAll);
    job.advance(true);
    assert_eq!(job.action(), Action::SyncAll);
    assert_eq!(job.result(), None);
    job.advance(true);
    assert_eq!(job.action(), Action::Succeed);
    assert_eq!(job.result(), Some(Ok(())));
}

#[test]
fn every_failure_is_an_io_error_and_final() {
    for fail_at in 0..3 {
        let mut job = FileWithSyncPersister.append("p", &[]);
        for step in 0..3 {
            job.advance(step != fail_at);
        }
        assert_eq!(job.action(), Action::Fail);
        assert_eq!(job.result(), Some(Err(Error::IoError)));
        job.advance(true);
        assert_eq!(job.result(), Some(Err(Error::IoError)));
    }
    let mut job = FilePersister.overwrite("p", &[]);
    job.advance(false);
    assert_eq!(job.result(), Some(Err(Error::IoError)));
}

#[test]
fn paths_follow_the_hierarchy() {
    assert_eq!(Location::Catalog.path(), "catalog");
    assert_eq!(
        Location::Log { stream_id: 1, topic_id: 20, partition_id: 300, start_offset: 0 }.path(),
        "streams/1/topics/20/partitions/300/0.log"
    );
    assert_eq!(
        Location::Index {
            stream_id: u32::MAX,
            topic_id: 0,
            partition_id: 9,
            start_offset: u64::MAX
        }
        .path(),
        "streams/4294967295/topics/0/partitions/9/18446744073709551615.index"
    );
}

#[test]
fn operations_become_writes() {
    let location = Location::Log { stream_id: 1, topic_id: 2, partition_id: 3, start_offset: 40 };
    let op = StorageOp::Append { location, bytes: vec![1, 2] };
    let job = start_write(&FileWithSyncPersister, "/var/broker", &op).unwrap();
    assert_eq!(job.path(), "/var/broker/streams/1/topics/2/partitions/3/40.log");
    assert_eq!(*job.bytes(), vec![1, 2]);
    assert_eq!(job.action(), Action::Open(Verb::Append));
    let op = StorageOp::Overwrite { location: Location::Catalog, bytes: vec![7] };
    let mut job = start_write(&FilePersister, "data", &op).unwrap();
    assert_eq!(job.path(), "data/catalog");
    assert_eq!(job.action(), Action::Open(Verb::Overwrite));
    job.advance(true);
    job.advance(true);
    assert_eq!(job.result(), Some(Ok(())));
    assert!(op.ends_on_failure());
    let removal = StorageOp::Remove { location };
    assert!(!removal.ends_on_failure());
    assert!(start_write(&FilePersister, "data", &removal).is_none());
    assert_eq!(rooted_path("data", &location), "data/streams/1/topics/2/partitions/3/40.log");
}
