use crate::error::Error;
use crate::message::Message;
use crate::partition::{lemma_room, lemma_segment_files_listed, messages_from, Partition};
use crate::segment::stored_size;
use crate::response::Appended;
use crate::storage::{
    after_ops, lemma_after_ops_concat, lemma_overwritten, lemma_untouched, location_of,
    op_views, Location, StorageOp, StorageOpView,
};
use crate::stream::{Stream, StreamDetails, StreamDetailsView, StreamView};
use crate::topic::{Topic, TopicView};
use crate::wire::{
    counted_at, counted_encoding, counted_fits, get_counted, lemma_counted_before,
    lemma_counted_then, lemma_holds_at_empty, models, name_fits, put_counted, Wire,
};
use vstd::prelude::*;

verus! {

/// Most streams that a catalog holds, and most topics that a stream holds:
/// their number travels in four bytes.
pub const MAX_ENTRIES: usize = 0xffff_ffff;

/// What a topic of the catalog stands for: its identifier, its name and the
/// logs of its partitions, the partition with identifier `i + 1` at place `i`.
pub struct TopicState {
    pub id: u32,
    pub name: Seq<char>,
    pub partitions: Seq<Seq<Seq<u8>>>,
}

/// What a stream of the catalog stands for.
pub struct StreamState {
    pub id: u32,
    pub name: Seq<char>,
    pub created_at: u64,
    pub topics: Seq<TopicState>,
}

/// A topic as clients see it.
pub open spec fn topic_of(topic: TopicState) -> TopicView {
    TopicView { id: topic.id, partitions_count: topic.partitions.len() as u32, name: topic.name }
}

/// A stream with its topics as clients see it.
pub open spec fn details_of(stream: StreamState) -> StreamDetailsView {
    StreamDetailsView {
        id: stream.id,
        created_at: stream.created_at,
        name: stream.name,
        topics: Seq::new(stream.topics.len(), |j: int| topic_of(stream.topics[j])),
    }
}

/// A stream as a listing shows it.
pub open spec fn summary_of(stream: StreamState) -> StreamView {
    StreamView {
        id: stream.id,
        created_at: stream.created_at,
        topics_count: stream.topics.len() as u32,
        name: stream.name,
    }
}

/// The listing of the streams, in the order in which they were created.
pub open spec fn listing_of(streams: Seq<StreamState>) -> Seq<StreamView> {
    Seq::new(streams.len(), |i: int| summary_of(streams[i]))
}

/// All streams with their topics.
pub open spec fn all_details_of(streams: Seq<StreamState>) -> Seq<StreamDetailsView> {
    Seq::new(streams.len(), |i: int| details_of(streams[i]))
}

/// The content of the catalog file: the streams with their topics, as a
/// counted list.
pub open spec fn image_of(streams: Seq<StreamState>) -> Seq<u8> {
    counted_encoding::<StreamDetails>(all_details_of(streams))
}

/// Whether a stream has the identifier.
pub open spec fn stream_id_taken(streams: Seq<StreamState>, id: u32) -> bool {
    exists|i: int| 0 <= i < streams.len() && (#[trigger] streams[i]).id == id
}

/// Whether a stream has the name.
pub open spec fn stream_name_taken(streams: Seq<StreamState>, name: Seq<char>) -> bool {
    exists|i: int| 0 <= i < streams.len() && (#[trigger] streams[i]).name == name
}

/// Whether a topic has the identifier.
pub open spec fn topic_id_taken(topics: Seq<TopicState>, id: u32) -> bool {
    exists|j: int| 0 <= j < topics.len() && (#[trigger] topics[j]).id == id
}

/// Whether a topic has the name.
pub open spec fn topic_name_taken(topics: Seq<TopicState>, name: Seq<char>) -> bool {
    exists|j: int| 0 <= j < topics.len() && (#[trigger] topics[j]).name == name
}

/// Whether the topics of one stream are in order: no identifier and no name
/// occurs twice, the names can travel, and the number of partitions of each
/// fits in four bytes.
pub open spec fn topics_valid(topics: Seq<TopicState>) -> bool {
    &&& topics.len() <= MAX_ENTRIES
    &&& forall|i: int, j: int|
        0 <= i < j < topics.len() ==> (#[trigger] topics[i]).id != (#[trigger] topics[j]).id
            && topics[i].name != topics[j].name
    &&& forall|j: int|
        0 <= j < topics.len() ==> name_fits((#[trigger] topics[j]).name)
            && topics[j].partitions.len() <= u32::MAX
}

/// Whether the streams of a catalog are in order: no identifier and no name
/// occurs twice, the names can travel, and the topics of each are in order.
pub open spec fn streams_valid(streams: Seq<StreamState>) -> bool {
    &&& streams.len() <= MAX_ENTRIES
    &&& forall|i: int, j: int|
        0 <= i < j < streams.len() ==> (#[trigger] streams[i]).id != (#[trigger] streams[j]).id
            && streams[i].name != streams[j].name
    &&& forall|i: int|
        0 <= i < streams.len() ==> name_fits((#[trigger] streams[i]).name) && topics_valid(
            streams[i].topics,
        )
}

/// The place of the stream with the identifier.
pub open spec fn stream_index(streams: Seq<StreamState>, id: u32) -> int {
    choose|i: int| 0 <= i < streams.len() && (#[trigger] streams[i]).id == id
}

/// The place of the topic with the identifier.
pub open spec fn topic_index(topics: Seq<TopicState>, id: u32) -> int {
    choose|j: int| 0 <= j < topics.len() && (#[trigger] topics[j]).id == id
}

/// The files of the first `n` partitions.
pub open spec fn partition_files(partitions: Seq<Partition>, n: nat) -> Seq<Location>
    decreases n,
{
    if n == 0 {
        Seq::empty()
    } else {
        partition_files(partitions, (n - 1) as nat) + partitions[n - 1].files()
    }
}

/// The files of the first `n` topics.
pub open spec fn topic_files(topics: Seq<TopicEntry>, n: nat) -> Seq<Location>
    decreases n,
{
    if n == 0 {
        Seq::empty()
    } else {
        topic_files(topics, (n - 1) as nat) + topics[n - 1].files()
    }
}

/// The operations that remove the files, in their order.
pub open spec fn removals_of(files: Seq<Location>) -> Seq<StorageOpView> {
    Seq::new(files.len(), |i: int| StorageOpView::Remove { location: files[i] })
}

/// The operations that create the empty log and the empty index of the
/// first segment of each of the partitions `1` to `n` of a new topic.
pub open spec fn provision_of(stream_id: u32, topic_id: u32, n: nat) -> Seq<StorageOpView>
    decreases n,
{
    if n == 0 {
        Seq::empty()
    } else {
        provision_of(stream_id, topic_id, (n - 1) as nat) + seq![
            StorageOpView::Overwrite {
                location: Location::Log {
                    stream_id,
                    topic_id,
                    partition_id: n as u32,
                    start_offset: 0,
                },
                bytes: Seq::empty(),
            },
            StorageOpView::Overwrite {
                location: Location::Index {
                    stream_id,
                    topic_id,
                    partition_id: n as u32,
                    start_offset: 0,
                },
                bytes: Seq::empty(),
            },
        ]
    }
}

/// A new topic: `count` partitions, each with an empty log.
pub open spec fn fresh_topic(id: u32, name: Seq<char>, count: u32) -> TopicState {
    TopicState { id, name, partitions: Seq::new(count as nat, |k: int| Seq::<Seq<u8>>::empty()) }
}

/// The stream with one more topic.
pub open spec fn with_topic(stream: StreamState, topic: TopicState) -> StreamState {
    StreamState { topics: stream.topics.push(topic), ..stream }
}

/// The stream without the topic at place `j`.
pub open spec fn without_topic(stream: StreamState, j: int) -> StreamState {
    StreamState { topics: stream.topics.remove(j), ..stream }
}

/// The log of the partition `pid` of a topic, if the topic has it: the
/// partitions are numbered from 1.
pub open spec fn topic_log(topic: TopicState, pid: u32) -> Option<Seq<Seq<u8>>> {
    if 1 <= pid <= topic.partitions.len() {
        Some(topic.partitions[pid - 1])
    } else {
        None
    }
}

/// The topic with another log for the partition `pid`.
pub open spec fn topic_with_log(topic: TopicState, pid: u32, log: Seq<Seq<u8>>) -> TopicState {
    TopicState { partitions: topic.partitions.update(pid - 1, log), ..topic }
}

/// The log of the partition `pid` of the topic `tid` of a stream, if the
/// stream has it.
pub open spec fn stream_log(stream: StreamState, tid: u32, pid: u32) -> Option<Seq<Seq<u8>>> {
    if topic_id_taken(stream.topics, tid) {
        topic_log(stream.topics[topic_index(stream.topics, tid)], pid)
    } else {
        None
    }
}

/// The stream with another log for the partition `pid` of the topic `tid`.
pub open spec fn stream_with_log(stream: StreamState, tid: u32, pid: u32, log: Seq<Seq<u8>>) -> StreamState {
    StreamState {
        topics: stream.topics.update(
            topic_index(stream.topics, tid),
            topic_with_log(stream.topics[topic_index(stream.topics, tid)], pid, log),
        ),
        ..stream
    }
}

/// The log of the partition `pid` of the topic `tid` of the stream `sid`,
/// if there is such a partition.
pub open spec fn partition_log(streams: Seq<StreamState>, sid: u32, tid: u32, pid: u32) -> Option<
    Seq<Seq<u8>>,
> {
    if stream_id_taken(streams, sid) {
        stream_log(streams[stream_index(streams, sid)], tid, pid)
    } else {
        None
    }
}

/// The streams with another log for one partition.
pub open spec fn with_log(
    streams: Seq<StreamState>,
    sid: u32,
    tid: u32,
    pid: u32,
    log: Seq<Seq<u8>>,
) -> Seq<StreamState> {
    streams.update(
        stream_index(streams, sid),
        stream_with_log(streams[stream_index(streams, sid)], tid, pid, log),
    )
}

/// Whether no partition of the topic holds a message.
pub open spec fn topic_unused(topic: TopicState) -> bool {
    forall|k: int| 0 <= k < topic.partitions.len() ==> (#[trigger] topic.partitions[k]).len() == 0
}

/// Whether no partition of the stream holds a message.
pub open spec fn stream_unused(stream: StreamState) -> bool {
    forall|j: int| 0 <= j < stream.topics.len() ==> topic_unused(#[trigger] stream.topics[j])
}

/// Whether no partition of the streams holds a message.
pub open spec fn unused(streams: Seq<StreamState>) -> bool {
    forall|i: int| 0 <= i < streams.len() ==> stream_unused(#[trigger] streams[i])
}

/// Whether the bytes are the content of the catalog file for some streams
/// in order.
pub open spec fn is_catalog_image(b: Seq<u8>) -> bool {
    exists|streams: Seq<StreamState>| streams_valid(streams) && #[trigger] image_of(streams) == b
}

/// Why a stream cannot be created, if it cannot: a stream has the identifier
/// or the name, or the catalog is full.
pub open spec fn create_stream_error(streams: Seq<StreamState>, id: u32, name: Seq<char>) -> Option<
    Error,
> {
    if stream_id_taken(streams, id) || stream_name_taken(streams, name) {
        Some(Error::AlreadyExists)
    } else if streams.len() >= MAX_ENTRIES {
        Some(Error::IoError)
    } else {
        None
    }
}

/// A new stream: no topics yet.
pub open spec fn fresh_stream(id: u32, name: Seq<char>, now: u64) -> StreamState {
    StreamState { id, name, created_at: now, topics: Seq::empty() }
}

/// Why a topic cannot be created, if it cannot: there is no such stream, a
/// topic of the stream has the identifier or the name, or the stream is
/// full.
pub open spec fn create_topic_error(
    streams: Seq<StreamState>,
    stream_id: u32,
    topic_id: u32,
    name: Seq<char>,
) -> Option<Error> {
    if !stream_id_taken(streams, stream_id) {
        Some(Error::NotFound)
    } else {
        let topics = streams[stream_index(streams, stream_id)].topics;
        if topic_id_taken(topics, topic_id) || topic_name_taken(topics, name) {
            Some(Error::AlreadyExists)
        } else if topics.len() >= MAX_ENTRIES {
            Some(Error::IoError)
        } else {
            None
        }
    }
}

/// Why a batch cannot be appended, if it cannot: there is no such
/// partition, or the partition has no room for the batch.
pub open spec fn append_error(log: Option<Seq<Seq<u8>>>, room: bool) -> Option<Error> {
    if log is None {
        Some(Error::NotFound)
    } else if !room {
        Some(Error::IoError)
    } else {
        None
    }
}

/// A topic of the catalog with its partitions.
pub struct TopicEntry {
    stream_id: u32,
    id: u32,
    name: String,
    partitions: Vec<Partition>,
}

impl View for TopicEntry {
    type V = TopicState;

    closed spec fn view(&self) -> TopicState {
        TopicState {
            id: self.id,
            name: self.name@,
            partitions: Seq::new(self.partitions@.len(), |k: int| self.partitions@[k].messages()),
        }
    }
}

impl TopicEntry {
    /// The topic's partitions, the one with identifier `k + 1` at place `k`.
    pub closed spec fn partitions(&self) -> Seq<Partition> {
        self.partitions@
    }

    /// The identifier of the stream that the topic belongs to.
    pub closed spec fn stream(&self) -> u32 {
        self.stream_id
    }

    /// The topic's invariant: each partition is well formed, knows where it
    /// belongs, and has the log that the topic's model gives it.
    pub open spec fn wf(&self) -> bool {
        &&& self.partitions().len() == self@.partitions.len()
        &&& self.partitions().len() <= u32::MAX
        &&& forall|k: int|
            0 <= k < self.partitions().len() ==> {
                &&& (#[trigger] self.partitions()[k]).wf()
                &&& self.partitions()[k].key() == (self.stream(), self@.id, (k + 1) as u32)
                &&& self.partitions()[k].messages() == self@.partitions[k]
            }
    }

    /// The files of the topic: those of its partitions.
    pub open spec fn files(&self) -> Seq<Location> {
        partition_files(self.partitions(), self.partitions().len())
    }

    /// Appends the topic's files to `out`.
    pub fn collect_files(&self, out: &mut Vec<Location>)
        ensures
            final(out)@ == old(out)@ + self.files(),
    {
        let mut k: usize = 0;
        assert(out@ =~= old(out)@ + partition_files(self.partitions(), 0));
        while k < self.partitions.len()
            invariant
                k <= self.partitions@.len(),
                out@ == old(out)@ + partition_files(self.partitions(), k as nat),
            decreases self.partitions@.len() - k,
        {
            self.partitions[k].collect_files(out);
            k += 1;
            assert(out@ =~= old(out)@ + partition_files(self.partitions(), k as nat));
        }
    }

    /// A new topic of the stream `stream_id`, with the partitions `1` to
    /// `count`, each empty.
    pub fn new(stream_id: u32, id: u32, name: String, count: u32, segment_size: u64) -> (topic:
        TopicEntry)
        ensures
            topic.wf(),
            topic.stream() == stream_id,
            topic@ == fresh_topic(id, name@, count),
    {
        let mut partitions: Vec<Partition> = Vec::new();
        let mut k: u32 = 0;
        while k < count
            invariant
                k <= count,
                partitions@.len() == k,
                forall|i: int|
                    0 <= i < k ==> {
                        &&& (#[trigger] partitions@[i]).wf()
                        &&& partitions@[i].key() == (stream_id, id, (i + 1) as u32)
                        &&& partitions@[i].messages() == Seq::<Seq<u8>>::empty()
                    },
            decreases count - k,
        {
            partitions.push(Partition::new(stream_id, id, k + 1, segment_size));
            k += 1;
        }
        let topic = TopicEntry { stream_id, id, name, partitions };
        assert(topic@.partitions =~= fresh_topic(id, name@, count).partitions);
        topic
    }

    /// The partition with the identifier `pid`.
    pub open spec fn partition(&self, pid: u32) -> Partition {
        self.partitions()[pid - 1]
    }

    /// Puts a partition that was rebuilt from its files in the place of the
    /// partition with the same identifier. Fails with `NotFound`, and
    /// changes nothing, where the topic has no such partition.
    pub fn restore_partition(&mut self, partition: Partition) -> (r: Result<(), Error>)
        requires
            old(self).wf(),
            partition.wf(),
            partition.key().0 == old(self).stream(),
            partition.key().1 == old(self)@.id,
        ensures
            final(self).wf(),
            final(self).stream() == old(self).stream(),
            match r {
                Ok(_) => {
                    &&& topic_log(old(self)@, partition.key().2) is Some
                    &&& final(self)@ == topic_with_log(
                        old(self)@,
                        partition.key().2,
                        partition.messages(),
                    )
                    &&& final(self).partition(partition.key().2) == partition
                },
                Err(e) => {
                    &&& e == Error::NotFound
                    &&& topic_log(old(self)@, partition.key().2) is None
                    &&& final(self)@ == old(self)@
                },
            },
    {
        let pid = partition.id();
        if pid == 0 || pid as usize > self.partitions.len() {
            return Err(Error::NotFound);
        }
        let k = pid as usize - 1;
        self.partitions[k] = partition;
        proof {
            assert(self@.partitions =~= old(self)@.partitions.update(
                k as int,
                partition.messages(),
            ));
            assert forall|i: int| 0 <= i < self.partitions().len() implies {
                &&& (#[trigger] self.partitions()[i]).wf()
                &&& self.partitions()[i].key() == (self.stream(), self@.id, (i + 1) as u32)
                &&& self.partitions()[i].messages() == self@.partitions[i]
            } by {
                if i != k {
                    assert(self.partitions()[i] == old(self).partitions()[i]);
                    assert(old(self).partitions()[i].wf());
                }
            }
        }
        Ok(())
    }

    /// The partition with the identifier `pid`, if the topic has it.
    pub fn get_partition(&self, pid: u32) -> (r: Option<&Partition>)
        requires
            self.wf(),
        ensures
            r is Some <==> topic_log(self@, pid) is Some,
            r matches Some(partition) ==> *partition == self.partition(pid),
    {
        if pid == 0 || pid as usize > self.partitions.len() {
            None
        } else {
            Some(&self.partitions[pid as usize - 1])
        }
    }

    /// What the byte store must take before `append_messages` may be called
    /// with the same partition and batch. Fails with `NotFound` where the
    /// topic has no such partition, else with `IoError` where the partition
    /// cannot take the batch.
    pub fn plan_append(&self, pid: u32, payloads: &Vec<Vec<u8>>) -> (r: Result<
        Vec<StorageOp>,
        Error,
    >)
        requires
            self.wf(),
            counted_fits::<Vec<u8>>(models(payloads@)),
        ensures
            match r {
                Ok(ops) => {
                    &&& topic_log(self@, pid) is Some
                    &&& self.partition(pid).has_room(models(payloads@))
                    &&& op_views(ops@) == self.partition(pid).append_ops(models(payloads@))
                },
                Err(e) => append_error(
                    topic_log(self@, pid),
                    self.partition(pid).has_room(models(payloads@)),
                ) == Some(e),
            },
    {
        if pid == 0 || pid as usize > self.partitions.len() {
            return Err(Error::NotFound);
        }
        assert(self.partitions()[pid - 1].wf());
        self.partitions[pid as usize - 1].plan_append(payloads)
    }

    /// Appends a batch to the partition `pid`. Fails with `NotFound` where
    /// the topic has no such partition, else with `IoError` where the
    /// partition cannot take the batch; the topic is then unchanged.
    pub fn append_messages(&mut self, pid: u32, payloads: &Vec<Vec<u8>>) -> (r: Result<
        Appended,
        Error,
    >)
        requires
            old(self).wf(),
            counted_fits::<Vec<u8>>(models(payloads@)),
        ensures
            final(self).wf(),
            final(self).stream() == old(self).stream(),
            match r {
                Ok(appended) => {
                    &&& topic_log(old(self)@, pid) is Some
                    &&& old(self).partition(pid).has_room(models(payloads@))
                    &&& appended.first_offset == topic_log(old(self)@, pid).unwrap().len()
                    &&& appended.count == payloads@.len()
                    &&& final(self)@ == topic_with_log(
                        old(self)@,
                        pid,
                        topic_log(old(self)@, pid).unwrap() + models(payloads@),
                    )
                },
                Err(e) => {
                    &&& final(self)@ == old(self)@
                    &&& append_error(
                        topic_log(old(self)@, pid),
                        old(self).partition(pid).has_room(models(payloads@)),
                    ) == Some(e)
                },
            },
    {
        if pid == 0 || pid as usize > self.partitions.len() {
            return Err(Error::NotFound);
        }
        let k = pid as usize - 1;
        assert(self.partitions()[k as int].wf());
        let r = self.partitions[k].append_messages(payloads);
        proof {
            assert forall|i: int| 0 <= i < self.partitions().len() && i != k implies self.partitions()[i]
                == old(self).partitions()[i] by {}
            match r {
                Ok(_) => {
                    assert(self@.partitions =~= old(self)@.partitions.update(
                        k as int,
                        old(self)@.partitions[k as int] + models(payloads@),
                    ));
                },
                Err(_) => {
                    assert(self@.partitions =~= old(self)@.partitions);
                },
            }
            assert forall|i: int| 0 <= i < self.partitions().len() implies {
                &&& (#[trigger] self.partitions()[i]).wf()
                &&& self.partitions()[i].key() == (self.stream(), self@.id, (i + 1) as u32)
                &&& self.partitions()[i].messages() == self@.partitions[i]
            } by {
                if i != k {
                    assert(old(self).partitions()[i].wf());
                }
            }
        }
        r
    }

    /// Up to `count` messages of the partition `pid`, from the offset
    /// `start_offset` on. Fails with `NotFound` where the topic has no such
    /// partition.
    pub fn read_messages(&self, pid: u32, start_offset: u64, count: u32) -> (r: Result<
        Vec<Message>,
        Error,
    >)
        requires
            self.wf(),
        ensures
            match r {
                Ok(messages) => topic_log(self@, pid) is Some && models(messages@)
                    == messages_from(topic_log(self@, pid).unwrap(), start_offset, count),
                Err(e) => e == Error::NotFound && topic_log(self@, pid) is None,
            },
    {
        if pid == 0 || pid as usize > self.partitions.len() {
            return Err(Error::NotFound);
        }
        assert(self.partitions()[pid - 1].wf());
        Ok(self.partitions[pid as usize - 1].read_messages(start_offset, count))
    }

    /// The topic as clients see it.
    pub fn summary(&self) -> (topic: Topic)
        requires
            self.partitions().len() <= u32::MAX,
            self.partitions().len() == self@.partitions.len(),
        ensures
            topic@ == topic_of(self@),
    {
        Topic {
            id: self.id,
            partitions_count: self.partitions.len() as u32,
            name: self.name.clone(),
        }
    }
}

/// A stream of the catalog with its topics.
pub struct StreamEntry {
    id: u32,
    name: String,
    created_at: u64,
    topics: Vec<TopicEntry>,
}

impl View for StreamEntry {
    type V = StreamState;

    closed spec fn view(&self) -> StreamState {
        StreamState {
            id: self.id,
            name: self.name@,
            created_at: self.created_at,
            topics: Seq::new(self.topics@.len(), |j: int| self.topics@[j]@),
        }
    }
}

impl StreamEntry {
    /// The stream's topics, in the order in which they were created.
    pub closed spec fn topics(&self) -> Seq<TopicEntry> {
        self.topics@
    }

    /// The stream's invariant: each topic is well formed and is the one
    /// that the stream's model has at its place.
    pub open spec fn wf(&self) -> bool {
        &&& self.topics().len() == self@.topics.len()
        &&& forall|j: int|
            0 <= j < self.topics().len() ==> {
                &&& (#[trigger] self.topics()[j]).wf()
                &&& self.topics()[j].stream() == self@.id
                &&& self.topics()[j]@ == self@.topics[j]
            }
    }

    /// The files of the stream: those of its topics.
    pub open spec fn files(&self) -> Seq<Location> {
        topic_files(self.topics(), self.topics().len())
    }

    /// Appends the stream's files to `out`.
    pub fn collect_files(&self, out: &mut Vec<Location>)
        ensures
            final(out)@ == old(out)@ + self.files(),
    {
        let mut j: usize = 0;
        assert(out@ =~= old(out)@ + topic_files(self.topics(), 0));
        while j < self.topics.len()
            invariant
                j <= self.topics@.len(),
                out@ == old(out)@ + topic_files(self.topics(), j as nat),
            decreases self.topics@.len() - j,
        {
            self.topics[j].collect_files(out);
            j += 1;
            assert(out@ =~= old(out)@ + topic_files(self.topics(), j as nat));
        }
    }

    /// The place of the topic with the identifier, if there is one.
    pub fn find_topic(&self, id: u32) -> (r: Option<usize>)
        requires
            self.wf(),
            topics_valid(self@.topics),
        ensures
            r is Some <==> topic_id_taken(self@.topics, id),
            r matches Some(j) ==> j < self@.topics.len() && self@.topics[j as int].id == id && j
                == topic_index(self@.topics, id),
    {
        let mut j: usize = 0;
        while j < self.topics.len()
            invariant
                self.wf(),
                topics_valid(self@.topics),
                j <= self.topics@.len(),
                forall|k: int| 0 <= k < j ==> (#[trigger] self@.topics[k]).id != id,
            decreases self.topics@.len() - j,
        {
            assert(self.topics()[j as int]@ == self@.topics[j as int]);
            if self.topics[j].id == id {
                return Some(j);
            }
            j += 1;
        }
        None
    }

    /// Whether a topic has the identifier or the name.
    fn topic_taken(&self, id: u32, name: &String) -> (taken: bool)
        requires
            self.wf(),
        ensures
            taken == (topic_id_taken(self@.topics, id) || topic_name_taken(self@.topics, name@)),
    {
        let mut j: usize = 0;
        while j < self.topics.len()
            invariant
                self.wf(),
                j <= self.topics@.len(),
                forall|k: int|
                    0 <= k < j ==> (#[trigger] self@.topics[k]).id != id && self@.topics[k].name
                        != name@,
            decreases self.topics@.len() - j,
        {
            assert(self.topics()[j as int]@ == self@.topics[j as int]);
            if self.topics[j].id == id || self.topics[j].name == *name {
                return true;
            }
            j += 1;
        }
        false
    }

    /// Adds a topic with `count` empty partitions. Fails with
    /// `AlreadyExists` where a topic of the stream has the identifier or
    /// the name, else with `IoError` where the stream is full; the stream
    /// is then unchanged.
    pub fn add_topic(&mut self, id: u32, name: String, count: u32, segment_size: u64) -> (r:
        Result<(), Error>)
        requires
            old(self).wf(),
            topics_valid(old(self)@.topics),
            name_fits(name@),
        ensures
            final(self).wf(),
            match r {
                Ok(_) => {
                    &&& !topic_id_taken(old(self)@.topics, id)
                    &&& !topic_name_taken(old(self)@.topics, name@)
                    &&& old(self)@.topics.len() < MAX_ENTRIES
                    &&& final(self)@ == with_topic(old(self)@, fresh_topic(id, name@, count))
                    &&& topics_valid(final(self)@.topics)
                },
                Err(e) => {
                    &&& final(self)@ == old(self)@
                    &&& if topic_id_taken(old(self)@.topics, id) || topic_name_taken(
                        old(self)@.topics,
                        name@,
                    ) {
                        e == Error::AlreadyExists
                    } else {
                        e == Error::IoError && old(self)@.topics.len() == MAX_ENTRIES
                    }
                },
            },
    {
        if self.topic_taken(id, &name) {
            return Err(Error::AlreadyExists);
        }
        if self.topics.len() >= MAX_ENTRIES {
            return Err(Error::IoError);
        }
        let ghost state = fresh_topic(id, name@, count);
        let entry = TopicEntry::new(self.id, id, name, count, segment_size);
        self.topics.push(entry);
        proof {
            assert(self@.topics =~= old(self)@.topics.push(state));
            assert forall|j: int| 0 <= j < self.topics().len() implies {
                &&& (#[trigger] self.topics()[j]).wf()
                &&& self.topics()[j].stream() == self@.id
                &&& self.topics()[j]@ == self@.topics[j]
            } by {
                if j < old(self).topics().len() {
                    assert(self.topics()[j] == old(self).topics()[j]);
                    assert(old(self).topics()[j].wf());
                }
            }
        }
        Ok(())
    }

    /// Takes out the topic at place `j`.
    pub fn remove_topic(&mut self, j: usize)
        requires
            old(self).wf(),
            topics_valid(old(self)@.topics),
            j < old(self)@.topics.len(),
        ensures
            final(self).wf(),
            final(self)@ == without_topic(old(self)@, j as int),
            topics_valid(final(self)@.topics),
    {
        self.topics.remove(j);
        proof {
            assert(self@.topics =~= old(self)@.topics.remove(j as int));
            assert forall|k: int| 0 <= k < self.topics().len() implies {
                &&& (#[trigger] self.topics()[k]).wf()
                &&& self.topics()[k].stream() == self@.id
                &&& self.topics()[k]@ == self@.topics[k]
            } by {
                let k0 = if k < j { k } else { k + 1 };
                assert(self.topics()[k] == old(self).topics()[k0]);
                assert(old(self).topics()[k0].wf());
            }
            let before = old(self)@.topics;
            let left = self@.topics;
            assert forall|a: int, b: int| 0 <= a < b < left.len() implies (#[trigger] left[a]).id
                != (#[trigger] left[b]).id && left[a].name != left[b].name by {
                let a0 = if a < j { a } else { a + 1 };
                let b0 = if b < j { b } else { b + 1 };
                assert(left[a] == before[a0]);
                assert(left[b] == before[b0]);
            }
            assert forall|a: int| 0 <= a < left.len() implies name_fits((#[trigger] left[a]).name)
                && left[a].partitions.len() <= u32::MAX by {
                let a0 = if a < j { a } else { a + 1 };
                assert(left[a] == before[a0]);
            }
        }
    }

    /// The partition `pid` of the topic `tid`.
    pub open spec fn partition(&self, tid: u32, pid: u32) -> Partition {
        self.topics()[topic_index(self@.topics, tid)].partition(pid)
    }

    /// Puts a partition that was rebuilt from its files in the place of the
    /// partition with the same topic and identifier. Fails with `NotFound`,
    /// and changes nothing, where the stream has no such partition.
    pub fn restore_partition(&mut self, partition: Partition) -> (r: Result<(), Error>)
        requires
            old(self).wf(),
            topics_valid(old(self)@.topics),
            partition.wf(),
            partition.key().0 == old(self)@.id,
        ensures
            final(self).wf(),
            topics_valid(final(self)@.topics),
            final(self)@.id == old(self)@.id,
            final(self)@.name == old(self)@.name,
            match r {
                Ok(_) => {
                    &&& stream_log(old(self)@, partition.key().1, partition.key().2) is Some
                    &&& final(self)@ == stream_with_log(
                        old(self)@,
                        partition.key().1,
                        partition.key().2,
                        partition.messages(),
                    )
                },
                Err(e) => {
                    &&& e == Error::NotFound
                    &&& stream_log(old(self)@, partition.key().1, partition.key().2) is None
                    &&& final(self)@ == old(self)@
                },
            },
    {
        let j = match self.find_topic(partition.topic_id()) {
            Some(j) => j,
            None => { return Err(Error::NotFound); },
        };
        assert(self.topics()[j as int].wf());
        assert(self.topics()[j as int]@ == self@.topics[j as int]);
        let r = self.topics[j].restore_partition(partition);
        proof {
            let before = old(self)@.topics;
            let after = self@.topics;
            assert(after =~= before.update(j as int, self.topics()[j as int]@));
            assert forall|i: int| 0 <= i < self.topics().len() implies {
                &&& (#[trigger] self.topics()[i]).wf()
                &&& self.topics()[i].stream() == self@.id
                &&& self.topics()[i]@ == self@.topics[i]
            } by {
                if i != j {
                    assert(self.topics()[i] == old(self).topics()[i]);
                    assert(old(self).topics()[i].wf());
                }
            }
            assert forall|a: int, b: int| 0 <= a < b < after.len() implies (#[trigger] after[a]).id
                != (#[trigger] after[b]).id && after[a].name != after[b].name by {
                assert(after[a].id == before[a].id && after[a].name == before[a].name);
                assert(after[b].id == before[b].id && after[b].name == before[b].name);
            }
            assert forall|a: int| 0 <= a < after.len() implies name_fits((#[trigger] after[a]).name)
                && after[a].partitions.len() <= u32::MAX by {
                assert(after[a].name == before[a].name);
                assert(after[a].partitions.len() == before[a].partitions.len());
            }
            if r is Err {
                assert(after =~= before);
            }
        }
        r
    }

    /// The partition `pid` of the topic `tid`, if the stream has it.
    pub fn get_partition(&self, tid: u32, pid: u32) -> (r: Option<&Partition>)
        requires
            self.wf(),
            topics_valid(self@.topics),
        ensures
            r is Some <==> stream_log(self@, tid, pid) is Some,
            r matches Some(partition) ==> *partition == self.partition(tid, pid),
    {
        match self.find_topic(tid) {
            Some(j) => {
                assert(self.topics()[j as int].wf());
                assert(self.topics()[j as int]@ == self@.topics[j as int]);
                self.topics[j].get_partition(pid)
            },
            None => None,
        }
    }

    /// What the byte store must take before `append_messages` may be called
    /// with the same partition and batch. Fails with `NotFound` where the
    /// stream has no such partition, else with `IoError` where the
    /// partition cannot take the batch.
    pub fn plan_append(&self, tid: u32, pid: u32, payloads: &Vec<Vec<u8>>) -> (r: Result<
        Vec<StorageOp>,
        Error,
    >)
        requires
            self.wf(),
            topics_valid(self@.topics),
            counted_fits::<Vec<u8>>(models(payloads@)),
        ensures
            match r {
                Ok(ops) => {
                    &&& stream_log(self@, tid, pid) is Some
                    &&& self.partition(tid, pid).has_room(models(payloads@))
                    &&& op_views(ops@) == self.partition(tid, pid).append_ops(models(payloads@))
                },
                Err(e) => append_error(
                    stream_log(self@, tid, pid),
                    self.partition(tid, pid).has_room(models(payloads@)),
                ) == Some(e),
            },
    {
        match self.find_topic(tid) {
            Some(j) => {
                assert(self.topics()[j as int].wf());
                self.topics[j].plan_append(pid, payloads)
            },
            None => Err(Error::NotFound),
        }
    }

    /// Appends a batch to the partition `pid` of the topic `tid`. Fails
    /// with `NotFound` where the stream has no such partition, else with
    /// `IoError` where the partition cannot take the batch; the stream is
    /// then unchanged.
    pub fn append_messages(&mut self, tid: u32, pid: u32, payloads: &Vec<Vec<u8>>) -> (r: Result<
        Appended,
        Error,
    >)
        requires
            old(self).wf(),
            topics_valid(old(self)@.topics),
            counted_fits::<Vec<u8>>(models(payloads@)),
        ensures
            final(self).wf(),
            topics_valid(final(self)@.topics),
            final(self)@.id == old(self)@.id,
            final(self)@.name == old(self)@.name,
            match r {
                Ok(appended) => {
                    &&& stream_log(old(self)@, tid, pid) is Some
                    &&& old(self).partition(tid, pid).has_room(models(payloads@))
                    &&& appended.first_offset == stream_log(old(self)@, tid, pid).unwrap().len()
                    &&& appended.count == payloads@.len()
                    &&& final(self)@ == stream_with_log(
                        old(self)@,
                        tid,
                        pid,
                        stream_log(old(self)@, tid, pid).unwrap() + models(payloads@),
                    )
                },
                Err(e) => {
                    &&& final(self)@ == old(self)@
                    &&& append_error(
                        stream_log(old(self)@, tid, pid),
                        old(self).partition(tid, pid).has_room(models(payloads@)),
                    ) == Some(e)
                },
            },
    {
        let j = match self.find_topic(tid) {
            Some(j) => j,
            None => { return Err(Error::NotFound); },
        };
        assert(self.topics()[j as int].wf());
        assert(self.topics()[j as int]@ == self@.topics[j as int]);
        let r = self.topics[j].append_messages(pid, payloads);
        proof {
            let before = old(self)@.topics;
            let after = self@.topics;
            assert(after =~= before.update(j as int, self.topics()[j as int]@));
            assert forall|i: int| 0 <= i < self.topics().len() implies {
                &&& (#[trigger] self.topics()[i]).wf()
                &&& self.topics()[i].stream() == self@.id
                &&& self.topics()[i]@ == self@.topics[i]
            } by {
                if i != j {
                    assert(self.topics()[i] == old(self).topics()[i]);
                    assert(old(self).topics()[i].wf());
                }
            }
            assert forall|a: int, b: int| 0 <= a < b < after.len() implies (#[trigger] after[a]).id
                != (#[trigger] after[b]).id && after[a].name != after[b].name by {
                assert(after[a].id == before[a].id && after[a].name == before[a].name);
                assert(after[b].id == before[b].id && after[b].name == before[b].name);
            }
            assert forall|a: int| 0 <= a < after.len() implies name_fits((#[trigger] after[a]).name)
                && after[a].partitions.len() <= u32::MAX by {
                assert(after[a].name == before[a].name);
                assert(after[a].partitions.len() == before[a].partitions.len());
            }
            if r is Err {
                assert(after =~= before);
            }
        }
        r
    }

    /// Up to `count` messages of the partition `pid` of the topic `tid`,
    /// from the offset `start_offset` on. Fails with `NotFound` where the
    /// stream has no such partition.
    pub fn read_messages(&self, tid: u32, pid: u32, start_offset: u64, count: u32) -> (r: Result<
        Vec<Message>,
        Error,
    >)
        requires
            self.wf(),
            topics_valid(self@.topics),
        ensures
            match r {
                Ok(messages) => stream_log(self@, tid, pid) is Some && models(messages@)
                    == messages_from(stream_log(self@, tid, pid).unwrap(), start_offset, count),
                Err(e) => e == Error::NotFound && stream_log(self@, tid, pid) is None,
            },
    {
        match self.find_topic(tid) {
            Some(j) => {
                assert(self.topics()[j as int].wf());
                assert(self.topics()[j as int]@ == self@.topics[j as int]);
                self.topics[j].read_messages(pid, start_offset, count)
            },
            None => Err(Error::NotFound),
        }
    }

    /// The stream as a listing shows it.
    pub fn summary(&self) -> (stream: Stream)
        requires
            self.wf(),
            self@.topics.len() <= MAX_ENTRIES,
        ensures
            stream@ == summary_of(self@),
    {
        Stream {
            id: self.id,
            created_at: self.created_at,
            topics_count: self.topics.len() as u32,
            name: self.name.clone(),
        }
    }

    /// The stream with its topics as clients see it.
    pub fn details(&self) -> (details: StreamDetails)
        requires
            self.wf(),
        ensures
            details@ == details_of(self@),
    {
        let mut topics: Vec<Topic> = Vec::new();
        let mut j: usize = 0;
        while j < self.topics.len()
            invariant
                self.wf(),
                j <= self.topics@.len(),
                topics@.len() == j,
                models(topics@) == Seq::new(j as nat, |i: int| topic_of(self@.topics[i])),
            decreases self.topics@.len() - j,
        {
            let topic = self.topics[j].summary();
            proof {
                assert(self.topics()[j as int].wf());
                assert(self.topics()[j as int]@ == self@.topics[j as int]);
                assert(topic@ == topic_of(self@.topics[j as int]));
                let a = models(topics@.push(topic));
                assert(a.len() == j + 1);
                assert forall|i: int| 0 <= i < j + 1 implies a[i] == topic_of(self@.topics[i]) by {
                    if i < j {
                        assert(a[i] == models(topics@)[i]);
                    }
                }
                assert(models(topics@.push(topic)) =~= Seq::new(
                    (j + 1) as nat,
                    |i: int| topic_of(self@.topics[i]),
                ));
            }
            topics.push(topic);
            j += 1;
        }
        let details = StreamDetails {
            id: self.id,
            created_at: self.created_at,
            name: self.name.clone(),
            topics,
        };
        assert(details@.topics =~= details_of(self@).topics);
        details
    }
}

/// The streams, topics and partitions of the broker, in memory.
pub struct Catalog {
    streams: Vec<StreamEntry>,
    segment_size: u64,
}

impl View for Catalog {
    type V = Seq<StreamState>;

    closed spec fn view(&self) -> Seq<StreamState> {
        Seq::new(self.streams@.len(), |i: int| self.streams@[i]@)
    }
}

impl Catalog {
    /// The catalog's streams, in the order in which they were created.
    pub closed spec fn streams(&self) -> Seq<StreamEntry> {
        self.streams@
    }

    /// The size from which on a partition closes its active segment.
    pub closed spec fn threshold(&self) -> u64 {
        self.segment_size
    }

    /// The catalog's invariant: the streams are in order, and each stream
    /// is well formed and is the one that the model has at its place.
    pub open spec fn wf(&self) -> bool {
        &&& streams_valid(self@)
        &&& self.streams().len() == self@.len()
        &&& forall|i: int|
            0 <= i < self.streams().len() ==> {
                &&& (#[trigger] self.streams()[i]).wf()
                &&& self.streams()[i]@ == self@[i]
            }
    }

    /// An empty catalog whose partitions will close their active segment
    /// once it is larger than `segment_size` bytes.
    pub fn new(segment_size: u64) -> (catalog: Catalog)
        ensures
            catalog.wf(),
            catalog@ == Seq::<StreamState>::empty(),
            catalog.threshold() == segment_size,
    {
        let catalog = Catalog { streams: Vec::new(), segment_size };
        assert(catalog@ =~= Seq::<StreamState>::empty());
        catalog
    }

    /// The place of the stream with the identifier, if there is one.
    pub fn find_stream(&self, id: u32) -> (r: Option<usize>)
        requires
            self.wf(),
        ensures
            r is Some <==> stream_id_taken(self@, id),
            r matches Some(i) ==> i < self@.len() && self@[i as int].id == id && i
                == stream_index(self@, id),
    {
        let mut i: usize = 0;
        while i < self.streams.len()
            invariant
                self.wf(),
                i <= self.streams@.len(),
                forall|k: int| 0 <= k < i ==> (#[trigger] self@[k]).id != id,
            decreases self.streams@.len() - i,
        {
            if self.streams[i].id == id {
                assert(self.streams()[i as int]@ == self@[i as int]);
                return Some(i);
            }
            assert(self.streams()[i as int]@ == self@[i as int]);
            i += 1;
        }
        None
    }

    /// The listing of the streams, in the order in which they were created.
    /// The catalog is only read: two listings with no change in between are
    /// the same.
    pub fn get_streams(&self) -> (streams: Vec<Stream>)
        requires
            self.wf(),
        ensures
            models(streams@) == listing_of(self@),
    {
        let mut out: Vec<Stream> = Vec::new();
        let mut i: usize = 0;
        while i < self.streams.len()
            invariant
                self.wf(),
                i <= self.streams@.len(),
                out@.len() == i,
                models(out@) == listing_of(self@).take(i as int),
            decreases self.streams@.len() - i,
        {
            assert(self.streams()[i as int].wf());
            assert(self.streams()[i as int]@ == self@[i as int]);
            let stream = self.streams[i].summary();
            proof {
                let a = models(out@.push(stream));
                assert forall|k: int| 0 <= k < i + 1 implies a[k] == listing_of(self@)[k] by {
                    if k < i {
                        assert(a[k] == models(out@)[k]);
                        assert(models(out@)[k] == listing_of(self@).take(i as int)[k]);
                    }
                }
            }
            assert(models(out@.push(stream)) =~= listing_of(self@).take(i + 1));
            out.push(stream);
            i += 1;
        }
        assert(listing_of(self@).take(i as int) =~= listing_of(self@));
        out
    }

    /// The stream with the identifier, with its topics. Fails with
    /// `NotFound` where there is no such stream.
    pub fn get_stream(&self, id: u32) -> (r: Result<StreamDetails, Error>)
        requires
            self.wf(),
        ensures
            match r {
                Ok(details) => stream_id_taken(self@, id) && details@ == details_of(
                    self@[stream_index(self@, id)],
                ),
                Err(e) => e == Error::NotFound && !stream_id_taken(self@, id),
            },
    {
        match self.find_stream(id) {
            Some(i) => {
                assert(self.streams()[i as int].wf());
                assert(self.streams()[i as int]@ == self@[i as int]);
                Ok(self.streams[i].details())
            },
            None => Err(Error::NotFound),
        }
    }

    /// All streams with their topics, as the catalog file lists them.
    pub fn snapshot(&self) -> (all: Vec<StreamDetails>)
        requires
            self.wf(),
        ensures
            models(all@) == all_details_of(self@),
    {
        let mut out: Vec<StreamDetails> = Vec::new();
        let mut i: usize = 0;
        while i < self.streams.len()
            invariant
                self.wf(),
                i <= self.streams@.len(),
                out@.len() == i,
                models(out@) == all_details_of(self@).take(i as int),
            decreases self.streams@.len() - i,
        {
            assert(self.streams()[i as int].wf());
            assert(self.streams()[i as int]@ == self@[i as int]);
            let details = self.streams[i].details();
            proof {
                let a = models(out@.push(details));
                assert forall|k: int| 0 <= k < i + 1 implies a[k] == all_details_of(self@)[k] by {
                    if k < i {
                        assert(a[k] == models(out@)[k]);
                        assert(models(out@)[k] == all_details_of(self@).take(i as int)[k]);
                    }
                }
                assert(a =~= all_details_of(self@).take(i + 1));
            }
            out.push(details);
            i += 1;
        }
        assert(all_details_of(self@).take(i as int) =~= all_details_of(self@));
        out
    }

    /// The content of the catalog file.
    pub fn image(&self) -> (bytes: Vec<u8>)
        requires
            self.wf(),
        ensures
            bytes@ == image_of(self@),
    {
        let all = self.snapshot();
        proof {
            lemma_details_fit(self@);
        }
        let mut out: Vec<u8> = Vec::new();
        put_counted(&mut out, &all);
        assert(out@ =~= image_of(self@));
        out
    }

    /// The operation that brings the catalog file up to date.
    fn persist(&self) -> (ops: Vec<StorageOp>)
        requires
            self.wf(),
        ensures
            op_views(ops@) == seq![
                StorageOpView::Overwrite { location: Location::Catalog, bytes: image_of(self@) },
            ],
    {
        let mut ops: Vec<StorageOp> = Vec::new();
        ops.push(StorageOp::Overwrite { location: Location::Catalog, bytes: self.image() });
        assert(op_views(ops@) =~= seq![
            StorageOpView::Overwrite { location: Location::Catalog, bytes: image_of(self@) },
        ]);
        ops
    }

    /// Whether a stream has the identifier or the name.
    fn stream_taken(&self, id: u32, name: &String) -> (taken: bool)
        requires
            self.wf(),
        ensures
            taken == (stream_id_taken(self@, id) || stream_name_taken(self@, name@)),
    {
        let mut i: usize = 0;
        while i < self.streams.len()
            invariant
                self.wf(),
                i <= self.streams@.len(),
                forall|k: int|
                    0 <= k < i ==> (#[trigger] self@[k]).id != id && self@[k].name != name@,
            decreases self.streams@.len() - i,
        {
            assert(self.streams()[i as int]@ == self@[i as int]);
            if self.streams[i].id == id || self.streams[i].name == *name {
                return true;
            }
            i += 1;
        }
        false
    }

    /// Puts a new stream without topics in the catalog, in memory only.
    /// Fails with `AlreadyExists` where a stream has the identifier or the
    /// name, else with `IoError` where the catalog is full; the catalog is
    /// then unchanged.
    pub fn insert_stream(&mut self, id: u32, name: String, now: u64) -> (r: Result<(), Error>)
        requires
            old(self).wf(),
            name_fits(name@),
        ensures
            final(self).wf(),
            final(self).threshold() == old(self).threshold(),
            match r {
                Ok(_) => {
                    &&& create_stream_error(old(self)@, id, name@) is None
                    &&& final(self)@ == old(self)@.push(fresh_stream(id, name@, now))
                },
                Err(e) => {
                    &&& final(self)@ == old(self)@
                    &&& create_stream_error(old(self)@, id, name@) == Some(e)
                },
            },
    {
        if self.stream_taken(id, &name) {
            return Err(Error::AlreadyExists);
        }
        if self.streams.len() >= MAX_ENTRIES {
            return Err(Error::IoError);
        }
        let ghost state = StreamState { id, name: name@, created_at: now, topics: Seq::empty() };
        let entry = StreamEntry { id, name, created_at: now, topics: Vec::new() };
        assert(entry@ =~= state) by {
            assert(entry@.topics =~= state.topics);
        }
        self.streams.push(entry);
        proof {
            assert(self@ =~= old(self)@.push(state));
            assert forall|i: int| 0 <= i < self.streams().len() implies {
                &&& (#[trigger] self.streams()[i]).wf()
                &&& self.streams()[i]@ == self@[i]
            } by {
                if i < old(self).streams().len() {
                    assert(self.streams()[i] == old(self).streams()[i]);
                    assert(old(self).streams()[i].wf());
                }
            }
        }
        Ok(())
    }

    /// Creates a stream without topics and gives the operation that brings
    /// the catalog file up to date: the stream counts as created once the
    /// byte store has taken it. Fails with `AlreadyExists` where a stream
    /// has the identifier or the name, else with `IoError` where the
    /// catalog is full; the catalog is then unchanged.
    pub fn create_stream(&mut self, id: u32, name: String, now: u64) -> (r: Result<
        Vec<StorageOp>,
        Error,
    >)
        requires
            old(self).wf(),
            name_fits(name@),
        ensures
            final(self).wf(),
            final(self).threshold() == old(self).threshold(),
            match r {
                Ok(ops) => {
                    &&& create_stream_error(old(self)@, id, name@) is None
                    &&& final(self)@ == old(self)@.push(fresh_stream(id, name@, now))
                    &&& op_views(ops@) == seq![
                        StorageOpView::Overwrite {
                            location: Location::Catalog,
                            bytes: image_of(final(self)@),
                        },
                    ]
                },
                Err(e) => {
                    &&& final(self)@ == old(self)@
                    &&& create_stream_error(old(self)@, id, name@) == Some(e)
                },
            },
    {
        match self.insert_stream(id, name, now) {
            Ok(_) => Ok(self.persist()),
            Err(e) => Err(e),
        }
    }

    /// Forgets a stream, with its topics, without touching the byte store:
    /// for a stream whose creation the byte store did not take. Says
    /// whether there was such a stream.
    pub fn forget_stream(&mut self, id: u32) -> (found: bool)
        requires
            old(self).wf(),
        ensures
            final(self).wf(),
            final(self).threshold() == old(self).threshold(),
            found == stream_id_taken(old(self)@, id),
            final(self)@ == (if found {
                old(self)@.remove(stream_index(old(self)@, id))
            } else {
                old(self)@
            }),
    {
        match self.find_stream(id) {
            Some(i) => {
                self.streams.remove(i);
                proof {
                    assert(self@ =~= old(self)@.remove(i as int));
                    assert forall|k: int| 0 <= k < self.streams().len() implies {
                        &&& (#[trigger] self.streams()[k]).wf()
                        &&& self.streams()[k]@ == self@[k]
                    } by {
                        if k < i {
                            assert(self.streams()[k] == old(self).streams()[k]);
                            assert(old(self).streams()[k].wf());
                        } else {
                            assert(self.streams()[k] == old(self).streams()[k + 1]);
                            assert(old(self).streams()[k + 1].wf());
                        }
                    }
                    lemma_remove_valid(old(self)@, i as int);
                }
                true
            },
            None => false,
        }
    }

    /// Puts a new topic, with the partitions `1` to `partitions_count`,
    /// each empty, in a stream of the catalog, in memory only. Fails with
    /// `NotFound` where there is no such stream, else with `AlreadyExists`
    /// where a topic of the stream has the identifier or the name, else
    /// with `IoError` where the stream is full; the catalog is then
    /// unchanged.
    pub fn insert_topic(
        &mut self,
        stream_id: u32,
        topic_id: u32,
        partitions_count: u32,
        name: String,
    ) -> (r: Result<(), Error>)
        requires
            old(self).wf(),
            name_fits(name@),
        ensures
            final(self).wf(),
            final(self).threshold() == old(self).threshold(),
            match r {
                Ok(_) => {
                    &&& create_topic_error(old(self)@, stream_id, topic_id, name@) is None
                    &&& final(self)@ == old(self)@.update(
                        stream_index(old(self)@, stream_id),
                        with_topic(
                            old(self)@[stream_index(old(self)@, stream_id)],
                            fresh_topic(topic_id, name@, partitions_count),
                        ),
                    )
                },
                Err(e) => {
                    &&& final(self)@ == old(self)@
                    &&& create_topic_error(old(self)@, stream_id, topic_id, name@) == Some(e)
                },
            },
    {
        let i = match self.find_stream(stream_id) {
            Some(i) => i,
            None => { return Err(Error::NotFound); },
        };
        assert(old(self).streams()[i as int].wf());
        assert(old(self).streams()[i as int]@ == old(self)@[i as int]);
        let segment_size = self.segment_size;
        match self.streams[i].add_topic(topic_id, name, partitions_count, segment_size) {
            Ok(_) => {},
            Err(e) => {
                assert(self@ =~= old(self)@);
                assert forall|k: int| 0 <= k < self.streams().len() implies {
                    &&& (#[trigger] self.streams()[k]).wf()
                    &&& self.streams()[k]@ == self@[k]
                } by {
                    if k != i {
                        assert(self.streams()[k] == old(self).streams()[k]);
                        assert(old(self).streams()[k].wf());
                    }
                }
                return Err(e);
            },
        }
        proof {
            let state = with_topic(
                old(self)@[i as int],
                fresh_topic(topic_id, name@, partitions_count),
            );
            assert(self@ =~= old(self)@.update(i as int, state));
            assert forall|k: int| 0 <= k < self.streams().len() implies {
                &&& (#[trigger] self.streams()[k]).wf()
                &&& self.streams()[k]@ == self@[k]
            } by {
                if k != i {
                    assert(self.streams()[k] == old(self).streams()[k]);
                    assert(old(self).streams()[k].wf());
                }
            }
            lemma_update_valid(old(self)@, i as int, state);
        }
        Ok(())
    }

    /// Creates a topic in a stream, with the partitions `1` to
    /// `partitions_count`, each empty, and gives the operations that bring
    /// the catalog file up to date and create the first segment files: the
    /// topic counts as created once the byte store has taken them. Fails
    /// with `NotFound` where there is no such stream, else with
    /// `AlreadyExists` where a topic of the stream has the identifier or
    /// the name, else with `IoError` where the stream is full; the catalog
    /// is then unchanged.
    pub fn create_topic(
        &mut self,
        stream_id: u32,
        topic_id: u32,
        partitions_count: u32,
        name: String,
    ) -> (r: Result<Vec<StorageOp>, Error>)
        requires
            old(self).wf(),
            name_fits(name@),
        ensures
            final(self).wf(),
            final(self).threshold() == old(self).threshold(),
            match r {
                Ok(ops) => {
                    &&& create_topic_error(old(self)@, stream_id, topic_id, name@) is None
                    &&& final(self)@ == old(self)@.update(
                        stream_index(old(self)@, stream_id),
                        with_topic(
                            old(self)@[stream_index(old(self)@, stream_id)],
                            fresh_topic(topic_id, name@, partitions_count),
                        ),
                    )
                    &&& op_views(ops@) == seq![
                        StorageOpView::Overwrite {
                            location: Location::Catalog,
                            bytes: image_of(final(self)@),
                        },
                    ] + provision_of(stream_id, topic_id, partitions_count as nat)
                },
                Err(e) => {
                    &&& final(self)@ == old(self)@
                    &&& create_topic_error(old(self)@, stream_id, topic_id, name@) == Some(e)
                },
            },
    {
        match self.insert_topic(stream_id, topic_id, partitions_count, name) {
            Ok(_) => {},
            Err(e) => { return Err(e); },
        }
        let mut ops = self.persist();
        let ghost first = op_views(ops@);
        let mut k: u32 = 0;
        assert(op_views(ops@) =~= first + provision_of(stream_id, topic_id, 0));
        while k < partitions_count
            invariant
                k <= partitions_count,
                op_views(ops@) == first + provision_of(stream_id, topic_id, k as nat),
            decreases partitions_count - k,
        {
            k += 1;
            let ghost before = op_views(ops@);
            let log = StorageOp::Overwrite {
                location: Location::Log { stream_id, topic_id, partition_id: k, start_offset: 0 },
                bytes: Vec::new(),
            };
            let index = StorageOp::Overwrite {
                location: Location::Index { stream_id, topic_id, partition_id: k, start_offset: 0 },
                bytes: Vec::new(),
            };
            proof {
                let pair = seq![log@, index@];
                assert(op_views(ops@.push(log).push(index)) =~= before + pair);
                assert(provision_of(stream_id, topic_id, k as nat) == provision_of(
                    stream_id,
                    topic_id,
                    (k - 1) as nat,
                ) + pair);
                assert((first + provision_of(stream_id, topic_id, (k - 1) as nat)) + pair =~= first
                    + provision_of(stream_id, topic_id, k as nat));
            }
            ops.push(log);
            ops.push(index);
        }
        Ok(ops)
    }

    /// Forgets a topic, with its partitions, without touching the byte
    /// store: for a topic whose creation the byte store did not take. Says
    /// whether there was such a topic.
    pub fn forget_topic(&mut self, stream_id: u32, topic_id: u32) -> (found: bool)
        requires
            old(self).wf(),
        ensures
            final(self).wf(),
            final(self).threshold() == old(self).threshold(),
            found == (stream_id_taken(old(self)@, stream_id) && topic_id_taken(
                old(self)@[stream_index(old(self)@, stream_id)].topics,
                topic_id,
            )),
            final(self)@ == (if found {
                old(self)@.update(
                    stream_index(old(self)@, stream_id),
                    without_topic(
                        old(self)@[stream_index(old(self)@, stream_id)],
                        topic_index(
                            old(self)@[stream_index(old(self)@, stream_id)].topics,
                            topic_id,
                        ),
                    ),
                )
            } else {
                old(self)@
            }),
    {
        let i = match self.find_stream(stream_id) {
            Some(i) => i,
            None => { return false; },
        };
        assert(old(self).streams()[i as int].wf());
        assert(old(self).streams()[i as int]@ == old(self)@[i as int]);
        let j = match self.streams[i].find_topic(topic_id) {
            Some(j) => j,
            None => { return false; },
        };
        self.streams[i].remove_topic(j);
        proof {
            let state = without_topic(old(self)@[i as int], j as int);
            assert(self@ =~= old(self)@.update(i as int, state));
            assert forall|k: int| 0 <= k < self.streams().len() implies {
                &&& (#[trigger] self.streams()[k]).wf()
                &&& self.streams()[k]@ == self@[k]
            } by {
                if k != i {
                    assert(self.streams()[k] == old(self).streams()[k]);
                    assert(old(self).streams()[k].wf());
                }
            }
            lemma_update_valid(old(self)@, i as int, state);
        }
        true
    }

    /// The partition `pid` of the topic `tid` of the stream `sid`.
    pub open spec fn partition(&self, sid: u32, tid: u32, pid: u32) -> Partition {
        self.streams()[stream_index(self@, sid)].partition(tid, pid)
    }

    /// Puts a partition that was rebuilt from its files in the place of the
    /// partition with the same stream, topic and identifier: its log is
    /// from now on what the files held. Fails with `NotFound`, and changes
    /// nothing, where there is no such partition.
    pub fn restore_partition(&mut self, partition: Partition) -> (r: Result<(), Error>)
        requires
            old(self).wf(),
            partition.wf(),
        ensures
            final(self).wf(),
            final(self).threshold() == old(self).threshold(),
            match r {
                Ok(_) => {
                    &&& partition_log(
                        old(self)@,
                        partition.key().0,
                        partition.key().1,
                        partition.key().2,
                    ) is Some
                    &&& final(self)@ == with_log(
                        old(self)@,
                        partition.key().0,
                        partition.key().1,
                        partition.key().2,
                        partition.messages(),
                    )
                },
                Err(e) => {
                    &&& e == Error::NotFound
                    &&& partition_log(
                        old(self)@,
                        partition.key().0,
                        partition.key().1,
                        partition.key().2,
                    ) is None
                    &&& final(self)@ == old(self)@
                },
            },
    {
        let i = match self.find_stream(partition.stream_id()) {
            Some(i) => i,
            None => { return Err(Error::NotFound); },
        };
        assert(self.streams()[i as int].wf());
        assert(self.streams()[i as int]@ == self@[i as int]);
        let r = self.streams[i].restore_partition(partition);
        proof {
            let state = self.streams()[i as int]@;
            assert(self@ =~= old(self)@.update(i as int, state));
            assert forall|k: int| 0 <= k < self.streams().len() implies {
                &&& (#[trigger] self.streams()[k]).wf()
                &&& self.streams()[k]@ == self@[k]
            } by {
                if k != i {
                    assert(self.streams()[k] == old(self).streams()[k]);
                    assert(old(self).streams()[k].wf());
                }
            }
            lemma_update_valid(old(self)@, i as int, state);
            if r is Err {
                assert(self@ =~= old(self)@);
            }
        }
        r
    }

    /// The partition `pid` of the topic `tid` of the stream `sid`, if there
    /// is one.
    pub fn get_partition(&self, sid: u32, tid: u32, pid: u32) -> (r: Option<&Partition>)
        requires
            self.wf(),
        ensures
            r is Some <==> partition_log(self@, sid, tid, pid) is Some,
            r matches Some(partition) ==> *partition == self.partition(sid, tid, pid),
    {
        match self.find_stream(sid) {
            Some(i) => {
                assert(self.streams()[i as int].wf());
                assert(self.streams()[i as int]@ == self@[i as int]);
                self.streams[i].get_partition(tid, pid)
            },
            None => None,
        }
    }

    /// What the byte store must take before `append_messages` may be called
    /// with the same partition and batch; the catalog is only read. Fails
    /// with `NotFound` where there is no such partition, else with
    /// `IoError` where the partition cannot take the batch.
    pub fn plan_append(&self, sid: u32, tid: u32, pid: u32, payloads: &Vec<Vec<u8>>) -> (r:
        Result<Vec<StorageOp>, Error>)
        requires
            self.wf(),
            counted_fits::<Vec<u8>>(models(payloads@)),
        ensures
            match r {
                Ok(ops) => {
                    &&& partition_log(self@, sid, tid, pid) is Some
                    &&& self.partition(sid, tid, pid).has_room(models(payloads@))
                    &&& op_views(ops@) == self.partition(sid, tid, pid).append_ops(
                        models(payloads@),
                    )
                },
                Err(e) => append_error(
                    partition_log(self@, sid, tid, pid),
                    self.partition(sid, tid, pid).has_room(models(payloads@)),
                ) == Some(e),
            },
    {
        match self.find_stream(sid) {
            Some(i) => {
                assert(self.streams()[i as int].wf());
                assert(self.streams()[i as int]@ == self@[i as int]);
                self.streams[i].plan_append(tid, pid, payloads)
            },
            None => Err(Error::NotFound),
        }
    }

    /// Appends a batch to a partition: its messages take the next offsets
    /// of the partition, in their order. To be called once the byte store
    /// has taken what `plan_append` gave for the same partition and batch.
    /// Fails with `NotFound` where there is no such partition, else with
    /// `IoError` where the partition cannot take the batch; the catalog is
    /// then unchanged.
    pub fn append_messages(&mut self, sid: u32, tid: u32, pid: u32, payloads: &Vec<Vec<u8>>) -> (r:
        Result<Appended, Error>)
        requires
            old(self).wf(),
            counted_fits::<Vec<u8>>(models(payloads@)),
        ensures
            final(self).wf(),
            final(self).threshold() == old(self).threshold(),
            match r {
                Ok(appended) => {
                    &&& partition_log(old(self)@, sid, tid, pid) is Some
                    &&& old(self).partition(sid, tid, pid).has_room(models(payloads@))
                    &&& appended.first_offset == partition_log(
                        old(self)@,
                        sid,
                        tid,
                        pid,
                    ).unwrap().len()
                    &&& appended.count == payloads@.len()
                    &&& final(self)@ == with_log(
                        old(self)@,
                        sid,
                        tid,
                        pid,
                        partition_log(old(self)@, sid, tid, pid).unwrap() + models(payloads@),
                    )
                },
                Err(e) => {
                    &&& final(self)@ == old(self)@
                    &&& append_error(
                        partition_log(old(self)@, sid, tid, pid),
                        old(self).partition(sid, tid, pid).has_room(models(payloads@)),
                    ) == Some(e)
                },
            },
    {
        let i = match self.find_stream(sid) {
            Some(i) => i,
            None => { return Err(Error::NotFound); },
        };
        assert(self.streams()[i as int].wf());
        assert(self.streams()[i as int]@ == self@[i as int]);
        let r = self.streams[i].append_messages(tid, pid, payloads);
        proof {
            let state = self.streams()[i as int]@;
            assert(self@ =~= old(self)@.update(i as int, state));
            assert forall|k: int| 0 <= k < self.streams().len() implies {
                &&& (#[trigger] self.streams()[k]).wf()
                &&& self.streams()[k]@ == self@[k]
            } by {
                if k != i {
                    assert(self.streams()[k] == old(self).streams()[k]);
                    assert(old(self).streams()[k].wf());
                }
            }
            lemma_update_valid(old(self)@, i as int, state);
            if r is Err {
                assert(self@ =~= old(self)@);
            }
        }
        r
    }

    /// Up to `count` messages of a partition from the offset `start_offset`
    /// on, in their order: fewer where the log ends first. Fails with
    /// `NotFound` where there is no such partition.
    pub fn read_messages(&self, sid: u32, tid: u32, pid: u32, start_offset: u64, count: u32) -> (r:
        Result<Vec<Message>, Error>)
        requires
            self.wf(),
        ensures
            match r {
                Ok(messages) => partition_log(self@, sid, tid, pid) is Some && models(messages@)
                    == messages_from(
                    partition_log(self@, sid, tid, pid).unwrap(),
                    start_offset,
                    count,
                ),
                Err(e) => e == Error::NotFound && partition_log(self@, sid, tid, pid) is None,
            },
    {
        match self.find_stream(sid) {
            Some(i) => {
                assert(self.streams()[i as int].wf());
                assert(self.streams()[i as int]@ == self@[i as int]);
                self.streams[i].read_messages(tid, pid, start_offset, count)
            },
            None => Err(Error::NotFound),
        }
    }

    /// Rebuilds the catalog from the content of the catalog file: the
    /// streams and their topics, with every partition empty. The logs of the
    /// partitions come from their own files, one `restore_partition` each.
    /// Fails with `Corruption` where the bytes are not the content of a
    /// catalog file.
    pub fn recover(image: &[u8], segment_size: u64) -> (r: Result<Catalog, Error>)
        ensures
            match r {
                Ok(catalog) => {
                    &&& catalog.wf()
                    &&& catalog.threshold() == segment_size
                    &&& image_of(catalog@) == image@
                    &&& unused(catalog@)
                },
                Err(e) => e == Error::Corruption && !is_catalog_image(image@),
            },
    {
        let (all, end) = match get_counted::<StreamDetails>(image, 0) {
            Some(found) => found,
            None => {
                proof {
                    if is_catalog_image(image@) {
                        lemma_image_is_read(image@);
                    }
                }
                return Err(Error::Corruption);
            },
        };
        if end != image.len() {
            proof {
                if is_catalog_image(image@) {
                    lemma_image_is_read(image@);
                }
            }
            return Err(Error::Corruption);
        }
        let ghost listed = models(all@);
        proof {
            lemma_holds_at_empty(image@, end as int);
            lemma_counted_before::<StreamDetails>(image@, 0, Seq::empty());
            assert(counted_encoding::<StreamDetails>(listed) + Seq::<u8>::empty()
                =~= counted_encoding::<StreamDetails>(listed));
            assert(image@.subrange(0, image@.len() as int) =~= image@);
        }
        let mut catalog = Catalog::new(segment_size);
        let mut i: usize = 0;
        assert(all_details_of(catalog@) =~= listed.take(0));
        while i < all.len()
            invariant
                i <= all@.len(),
                listed == models(all@),
                counted_fits::<StreamDetails>(listed),
                image@ == counted_encoding::<StreamDetails>(listed),
                catalog.wf(),
                catalog.threshold() == segment_size,
                catalog@.len() == i,
                all_details_of(catalog@) == listed.take(i as int),
                unused(catalog@),
            decreases all@.len() - i,
        {
            let details = &all[i];
            let ghost before = catalog@;
            assert(<StreamDetails as Wire>::fits(listed[i as int]));
            assert(listed[i as int] == details@);
            match catalog.insert_stream(details.id, details.name.clone(), details.created_at) {
                Ok(_) => {},
                Err(_) => {
                    proof {
                        lemma_stream_twice(image@, listed, before, i as int);
                    }
                    return Err(Error::Corruption);
                },
            }
            let mut j: usize = 0;
            proof {
                assert(details_of(catalog@[i as int]).topics =~= details@.topics.take(0));
            }
            while j < details.topics.len()
                invariant
                    i < all@.len(),
                    j <= details.topics@.len(),
                    *details == all@[i as int],
                    listed == models(all@),
                    counted_fits::<StreamDetails>(listed),
                    image@ == counted_encoding::<StreamDetails>(listed),
                    catalog.wf(),
                    catalog.threshold() == segment_size,
                    catalog@.len() == i + 1,
                    catalog@.take(i as int) == before,
                    all_details_of(before) == listed.take(i as int),
                    catalog@[i as int].id == details.id,
                    catalog@[i as int].name == details.name@,
                    catalog@[i as int].created_at == details.created_at,
                    details_of(catalog@[i as int]).topics == details@.topics.take(j as int),
                    unused(catalog@),
                decreases details.topics@.len() - j,
            {
                let topic = &details.topics[j];
                let ghost earlier = catalog@;
                assert(<StreamDetails as Wire>::fits(listed[i as int]));
                assert(listed[i as int] == details@);
                assert(details@.topics[j as int] == topic@);
                assert(<Topic as Wire>::fits(details@.topics[j as int]));
                proof {
                    lemma_index_is(catalog@, i as int);
                }
                match catalog.insert_topic(
                    details.id,
                    topic.id,
                    topic.partitions_count,
                    topic.name.clone(),
                ) {
                    Ok(_) => {},
                    Err(_) => {
                        proof {
                            lemma_topic_twice(image@, listed, earlier, i as int, j as int);
                        }
                        return Err(Error::Corruption);
                    },
                }
                proof {
                    let fresh = fresh_topic(topic.id, topic.name@, topic.partitions_count);
                    assert(catalog@[i as int] == with_topic(earlier[i as int], fresh));
                    assert(catalog@.take(i as int) =~= earlier.take(i as int));
                    assert(topic_of(fresh) == topic@);
                    assert(details_of(catalog@[i as int]).topics =~= details@.topics.take(
                        j + 1,
                    )) by {
                        let now = details_of(catalog@[i as int]).topics;
                        let was = details_of(earlier[i as int]).topics;
                        assert(was.len() == earlier[i as int].topics.len());
                        assert(was.len() == j);
                        assert(now.len() == catalog@[i as int].topics.len());
                        assert(now.len() == j + 1);
                        assert forall|k: int| 0 <= k < j + 1 implies now[k]
                            == details@.topics[k] by {
                            if k < j {
                                assert(now[k] == was[k]);
                            }
                        }
                    }
                    assert(topic_unused(fresh));
                    assert forall|a: int| 0 <= a < catalog@.len() implies stream_unused(
                        #[trigger] catalog@[a],
                    ) by {
                        if a != i {
                            assert(catalog@[a] == earlier[a]);
                        } else {
                            assert(stream_unused(earlier[i as int]));
                            assert forall|b: int|
                                0 <= b < catalog@[a].topics.len() implies topic_unused(
                                #[trigger] catalog@[a].topics[b],
                            ) by {
                                if b < earlier[i as int].topics.len() {
                                    assert(catalog@[a].topics[b] == earlier[i as int].topics[b]);
                                }
                            }
                        }
                    }
                }
                j += 1;
            }
            proof {
                assert(details@.topics.take(j as int) =~= details@.topics);
                assert(details_of(catalog@[i as int]) == details@);
                assert(all_details_of(catalog@) =~= listed.take(i + 1)) by {
                    assert forall|k: int| 0 <= k < i + 1 implies all_details_of(catalog@)[k]
                        == listed[k] by {
                        if k < i {
                            assert(catalog@[k] == before[k]);
                            assert(all_details_of(before)[k] == listed.take(i as int)[k]);
                        }
                    }
                }
            }
            i += 1;
        }
        proof {
            assert(listed.take(i as int) =~= listed);
        }
        Ok(catalog)
    }

    /// The files of the stream with the identifier.
    pub open spec fn stream_files(&self, id: u32) -> Seq<Location> {
        self.streams()[stream_index(self@, id)].files()
    }

    /// Deletes a stream with its topics and partitions, and gives the
    /// operations that remove every file of every partition and then bring
    /// the catalog file up to date. The stream is gone from the catalog
    /// whether or not the byte store takes them. Fails with `NotFound`
    /// where there is no such stream; the catalog is then unchanged.
    pub fn delete_stream(&mut self, id: u32) -> (r: Result<Vec<StorageOp>, Error>)
        requires
            old(self).wf(),
        ensures
            final(self).wf(),
            final(self).threshold() == old(self).threshold(),
            match r {
                Ok(ops) => {
                    &&& stream_id_taken(old(self)@, id)
                    &&& final(self)@ == old(self)@.remove(stream_index(old(self)@, id))
                    &&& !stream_id_taken(final(self)@, id)
                    &&& op_views(ops@) == removals_of(old(self).stream_files(id)) + seq![
                        StorageOpView::Overwrite {
                            location: Location::Catalog,
                            bytes: image_of(final(self)@),
                        },
                    ]
                },
                Err(e) => {
                    &&& e == Error::NotFound
                    &&& !stream_id_taken(old(self)@, id)
                    &&& final(self)@ == old(self)@
                },
            },
    {
        let i = match self.find_stream(id) {
            Some(i) => i,
            None => { return Err(Error::NotFound); },
        };
        let mut files: Vec<Location> = Vec::new();
        self.streams[i].collect_files(&mut files);
        assert(files@ =~= self.stream_files(id));
        let mut ops: Vec<StorageOp> = Vec::new();
        let mut k: usize = 0;
        while k < files.len()
            invariant
                k <= files@.len(),
                ops@.len() == k,
                op_views(ops@) == removals_of(files@).take(k as int),
            decreases files@.len() - k,
        {
            ops.push(StorageOp::Remove { location: files[k] });
            k += 1;
            assert(op_views(ops@) =~= removals_of(files@).take(k as int));
        }
        assert(removals_of(files@).take(k as int) =~= removals_of(files@));
        self.forget_stream(id);
        proof {
            lemma_removed_is_gone(old(self)@, i as int);
        }
        let bytes = self.image();
        ops.push(StorageOp::Overwrite { location: Location::Catalog, bytes });
        assert(op_views(ops@) =~= removals_of(files@) + seq![
            StorageOpView::Overwrite { location: Location::Catalog, bytes: image_of(self@) },
        ]);
        Ok(ops)
    }
}

/// Streams in order stay in order where one of them changes its topics for
/// topics in order.
pub proof fn lemma_update_valid(streams: Seq<StreamState>, i: int, state: StreamState)
    requires
        streams_valid(streams),
        0 <= i < streams.len(),
        state.id == streams[i].id,
        state.name == streams[i].name,
        topics_valid(state.topics),
    ensures
        streams_valid(streams.update(i, state)),
{
    let after = streams.update(i, state);
    assert forall|a: int, b: int| 0 <= a < b < after.len() implies (#[trigger] after[a]).id != (
    #[trigger] after[b]).id && after[a].name != after[b].name by {
        assert(after[a].id == streams[a].id && after[a].name == streams[a].name);
        assert(after[b].id == streams[b].id && after[b].name == streams[b].name);
    }
    assert forall|a: int| 0 <= a < after.len() implies name_fits((#[trigger] after[a]).name)
        && topics_valid(after[a].topics) by {
        if a != i {
            assert(after[a] == streams[a]);
        } else {
            assert(name_fits(streams[i].name));
        }
    }
}

/// Once a stream is taken out of streams in order, no stream has its
/// identifier.
pub proof fn lemma_removed_is_gone(streams: Seq<StreamState>, i: int)
    requires
        streams_valid(streams),
        0 <= i < streams.len(),
    ensures
        !stream_id_taken(streams.remove(i), streams[i].id),
{
    let left = streams.remove(i);
    assert forall|a: int| 0 <= a < left.len() implies (#[trigger] left[a]).id != streams[i].id by {
        let a0 = if a < i { a } else { a + 1 };
        assert(left[a] == streams[a0]);
    }
}

/// What is left of streams in order, once one is taken out, is in order.
pub proof fn lemma_remove_valid(streams: Seq<StreamState>, i: int)
    requires
        streams_valid(streams),
        0 <= i < streams.len(),
    ensures
        streams_valid(streams.remove(i)),
{
    let left = streams.remove(i);
    assert forall|a: int, b: int| 0 <= a < b < left.len() implies (#[trigger] left[a]).id != (
    #[trigger] left[b]).id && left[a].name != left[b].name by {
        let a0 = if a < i { a } else { a + 1 };
        let b0 = if b < i { b } else { b + 1 };
        assert(left[a] == streams[a0]);
        assert(left[b] == streams[b0]);
    }
    assert forall|a: int| 0 <= a < left.len() implies name_fits((#[trigger] left[a]).name)
        && topics_valid(left[a].topics) by {
        let a0 = if a < i { a } else { a + 1 };
        assert(left[a] == streams[a0]);
    }
}

/// Streams in order can be written: their names and their topics fit.
pub proof fn lemma_details_fit(streams: Seq<StreamState>)
    requires
        streams_valid(streams),
    ensures
        counted_fits::<StreamDetails>(all_details_of(streams)),
        counted_fits::<Stream>(listing_of(streams)),
{
    assert forall|i: int| 0 <= i < streams.len() implies <StreamDetails as Wire>::fits(
        #[trigger] all_details_of(streams)[i],
    ) by {
        let stream = streams[i];
        assert(name_fits(stream.name) && topics_valid(stream.topics));
        let topics = details_of(stream).topics;
        assert forall|j: int| 0 <= j < topics.len() implies <Topic as Wire>::fits(
            #[trigger] topics[j],
        ) by {
            assert(name_fits(stream.topics[j].name));
        }
    }
    assert forall|i: int| 0 <= i < streams.len() implies <Stream as Wire>::fits(
        #[trigger] listing_of(streams)[i],
    ) by {
        assert(name_fits(streams[i].name));
    }
}

/// The content of a catalog file is read back as the streams it was written
/// for, with their topics, and nothing is left over.
pub proof fn lemma_image_is_read(b: Seq<u8>)
    requires
        is_catalog_image(b),
    ensures
        counted_at::<StreamDetails>(b, 0) is Some,
        counted_at::<StreamDetails>(b, 0).unwrap().1 == b.len(),
        forall|streams: Seq<StreamState>|
            streams_valid(streams) && #[trigger] image_of(streams) == b ==> counted_at::<
                StreamDetails,
            >(b, 0).unwrap().0 == all_details_of(streams),
{
    assert forall|streams: Seq<StreamState>|
        streams_valid(streams) && #[trigger] image_of(streams) == b implies counted_at::<
        StreamDetails,
    >(b, 0) == Some((all_details_of(streams), b.len() as int)) by {
        lemma_details_fit(streams);
        let list = counted_encoding::<StreamDetails>(all_details_of(streams));
        assert(list + Seq::<u8>::empty() =~= list);
        assert(b.subrange(0, b.len() as int) =~= b);
        lemma_counted_then::<StreamDetails>(b, 0, all_details_of(streams), Seq::empty());
    }
}

/// In a catalog in order, the stream at a place is the one that is found
/// by its identifier.
pub proof fn lemma_index_is(streams: Seq<StreamState>, i: int)
    requires
        streams_valid(streams),
        0 <= i < streams.len(),
    ensures
        stream_id_taken(streams, streams[i].id),
        stream_index(streams, streams[i].id) == i,
{
    let found = stream_index(streams, streams[i].id);
    if found < i {
        assert(streams[found].id != streams[i].id);
    } else if i < found {
        assert(streams[i].id != streams[found].id);
    }
}

/// Bytes that list a stream whose identifier or name an earlier stream of
/// the list has are not the content of a catalog file.
pub proof fn lemma_stream_twice(
    b: Seq<u8>,
    listed: Seq<StreamDetailsView>,
    before: Seq<StreamState>,
    i: int,
)
    requires
        b == counted_encoding::<StreamDetails>(listed),
        counted_fits::<StreamDetails>(listed),
        0 <= i < listed.len(),
        before.len() == i,
        all_details_of(before) == listed.take(i),
        create_stream_error(before, listed[i].id, listed[i].name) is Some,
    ensures
        !is_catalog_image(b),
{
    if is_catalog_image(b) {
        let streams = choose|streams: Seq<StreamState>|
            streams_valid(streams) && #[trigger] image_of(streams) == b;
        lemma_image_is_read(b);
        lemma_listing_is_read(b, listed);
        assert(all_details_of(streams) == listed);
        if stream_id_taken(before, listed[i].id) {
            let k = choose|k: int| 0 <= k < before.len() && (#[trigger] before[k]).id == listed[i].id;
            assert(all_details_of(before)[k] == listed.take(i)[k]);
            assert(all_details_of(streams)[k].id == streams[k].id);
            assert(all_details_of(streams)[i].id == streams[i].id);
            assert(streams[k].id != streams[i].id);
        } else if stream_name_taken(before, listed[i].name) {
            let k = choose|k: int|
                0 <= k < before.len() && (#[trigger] before[k]).name == listed[i].name;
            assert(all_details_of(before)[k] == listed.take(i)[k]);
            assert(all_details_of(streams)[k].name == streams[k].name);
            assert(all_details_of(streams)[i].name == streams[i].name);
            assert(streams[k].name != streams[i].name);
        }
    }
}

/// Bytes that are the encoding of a list are read back as that list, and
/// nothing is left over.
pub proof fn lemma_listing_is_read(b: Seq<u8>, listed: Seq<StreamDetailsView>)
    requires
        b == counted_encoding::<StreamDetails>(listed),
        counted_fits::<StreamDetails>(listed),
    ensures
        counted_at::<StreamDetails>(b, 0) == Some((listed, b.len() as int)),
{
    let list = counted_encoding::<StreamDetails>(listed);
    assert(list + Seq::<u8>::empty() =~= list);
    assert(b.subrange(0, b.len() as int) =~= b);
    lemma_counted_then::<StreamDetails>(b, 0, listed, Seq::empty());
}

/// Bytes that list, for a stream, a topic whose identifier or name an
/// earlier topic of that stream has are not the content of a catalog file.
pub proof fn lemma_topic_twice(
    b: Seq<u8>,
    listed: Seq<StreamDetailsView>,
    earlier: Seq<StreamState>,
    i: int,
    j: int,
)
    requires
        b == counted_encoding::<StreamDetails>(listed),
        counted_fits::<StreamDetails>(listed),
        0 <= i < listed.len(),
        earlier.len() == i + 1,
        streams_valid(earlier),
        earlier[i].id == listed[i].id,
        0 <= j < listed[i].topics.len(),
        details_of(earlier[i]).topics == listed[i].topics.take(j),
        create_topic_error(
            earlier,
            listed[i].id,
            listed[i].topics[j].id,
            listed[i].topics[j].name,
        ) is Some,
    ensures
        !is_catalog_image(b),
{
    lemma_index_is(earlier, i);
    let topics = earlier[i].topics;
    let wanted = listed[i].topics[j];
    assert(details_of(earlier[i]).topics.len() == topics.len());
    assert(listed[i].topics.take(j).len() == j);
    assert(topics.len() == j);
    if is_catalog_image(b) {
        let streams = choose|streams: Seq<StreamState>|
            streams_valid(streams) && #[trigger] image_of(streams) == b;
        lemma_image_is_read(b);
        lemma_listing_is_read(b, listed);
        assert(all_details_of(streams) == listed);
        assert(all_details_of(streams)[i] == details_of(streams[i]));
        let theirs = streams[i].topics;
        assert(topics_valid(theirs));
        assert(details_of(streams[i]).topics[j] == topic_of(theirs[j]));
        if topic_id_taken(topics, wanted.id) {
            let k = choose|k: int| 0 <= k < topics.len() && (#[trigger] topics[k]).id == wanted.id;
            assert(details_of(earlier[i]).topics[k] == listed[i].topics.take(j)[k]);
            assert(details_of(streams[i]).topics[k] == topic_of(theirs[k]));
            assert(theirs[k].id != theirs[j].id);
        } else if topic_name_taken(topics, wanted.name) {
            let k = choose|k: int|
                0 <= k < topics.len() && (#[trigger] topics[k]).name == wanted.name;
            assert(details_of(earlier[i]).topics[k] == listed[i].topics.take(j)[k]);
            assert(details_of(streams[i]).topics[k] == topic_of(theirs[k]));
            assert(theirs[k].name != theirs[j].name);
        }
    }
}

/// The catalog file says all there is to say of streams whose partitions
/// are empty: two such catalogs in order with the same file are the same.
pub proof fn lemma_image_tells_all(first: Seq<StreamState>, second: Seq<StreamState>)
    requires
        streams_valid(first),
        streams_valid(second),
        unused(first),
        unused(second),
        image_of(first) == image_of(second),
    ensures
        first == second,
{
    lemma_image_is_read(image_of(first));
    assert(all_details_of(first) == all_details_of(second));
    assert(first.len() == all_details_of(first).len());
    assert(second.len() == all_details_of(second).len());
    assert forall|i: int| 0 <= i < first.len() implies first[i] == second[i] by {
        let a = first[i];
        let b = second[i];
        assert(details_of(a) == all_details_of(first)[i]);
        assert(details_of(b) == all_details_of(second)[i]);
        assert(topics_valid(a.topics) && topics_valid(b.topics));
        assert(stream_unused(a) && stream_unused(b));
        assert(details_of(a).topics.len() == a.topics.len());
        assert(details_of(b).topics.len() == b.topics.len());
        assert forall|j: int| 0 <= j < a.topics.len() implies a.topics[j] == b.topics[j] by {
            let t = a.topics[j];
            let u = b.topics[j];
            assert(topic_of(t) == details_of(a).topics[j]);
            assert(topic_of(u) == details_of(b).topics[j]);
            assert(topic_unused(t) && topic_unused(u));
            assert(t.partitions.len() <= u32::MAX && u.partitions.len() <= u32::MAX);
            assert forall|k: int| 0 <= k < t.partitions.len() implies t.partitions[k]
                == u.partitions[k] by {
                assert(t.partitions[k].len() == 0);
                assert(u.partitions[k].len() == 0);
                assert(t.partitions[k] =~= u.partitions[k]);
            }
            assert(t.partitions =~= u.partitions);
        }
        assert(a.topics =~= b.topics);
    }
    assert(first =~= second);
}

/// A list holds what either of its two parts holds.
pub proof fn lemma_part_holds(front: Seq<Location>, back: Seq<Location>, file: Location)
    requires
        front.contains(file) || back.contains(file),
    ensures
        (front + back).contains(file),
{
    if front.contains(file) {
        let i = choose|i: int| 0 <= i < front.len() && front[i] == file;
        assert((front + back)[i] == file);
    } else {
        let i = choose|i: int| 0 <= i < back.len() && back[i] == file;
        assert((front + back)[front.len() + i] == file);
    }
}

/// The files of the first `n` partitions hold the files of each of them.
pub proof fn lemma_partition_files_listed(partitions: Seq<Partition>, n: nat, k: int, file: Location)
    requires
        0 <= k < n <= partitions.len(),
        partitions[k].files().contains(file),
    ensures
        partition_files(partitions, n).contains(file),
    decreases n,
{
    if k < n - 1 {
        lemma_partition_files_listed(partitions, (n - 1) as nat, k, file);
    }
    lemma_part_holds(partition_files(partitions, (n - 1) as nat), partitions[n - 1].files(), file);
}

/// The files of the first `n` topics hold the files of each of them.
pub proof fn lemma_topic_files_listed(topics: Seq<TopicEntry>, n: nat, j: int, file: Location)
    requires
        0 <= j < n <= topics.len(),
        topics[j].files().contains(file),
    ensures
        topic_files(topics, n).contains(file),
    decreases n,
{
    if j < n - 1 {
        lemma_topic_files_listed(topics, (n - 1) as nat, j, file);
    }
    lemma_part_holds(topic_files(topics, (n - 1) as nat), topics[n - 1].files(), file);
}

/// Every file of every partition of a stream is among the files that are
/// removed when the stream is deleted: the log and the index of segment `m`
/// of partition `k + 1` of the topic at place `j`.
pub proof fn lemma_every_file_is_removed(stream: StreamEntry, j: int, k: int, m: int)
    requires
        0 <= j < stream.topics().len(),
        0 <= k < stream.topics()[j].partitions().len(),
        0 <= m < stream.topics()[j].partitions()[k].segments().len(),
    ensures
        ({
            let partition = stream.topics()[j].partitions()[k];
            let key = partition.key();
            let start_offset = partition.segments()[m].start();
            &&& removals_of(stream.files()).contains(
                StorageOpView::Remove {
                    location: Location::Log {
                        stream_id: key.0,
                        topic_id: key.1,
                        partition_id: key.2,
                        start_offset,
                    },
                },
            )
            &&& removals_of(stream.files()).contains(
                StorageOpView::Remove {
                    location: Location::Index {
                        stream_id: key.0,
                        topic_id: key.1,
                        partition_id: key.2,
                        start_offset,
                    },
                },
            )
        }),
{
    let topic = stream.topics()[j];
    let partition = topic.partitions()[k];
    let key = partition.key();
    let start_offset = partition.segments()[m].start();
    let log = Location::Log {
        stream_id: key.0,
        topic_id: key.1,
        partition_id: key.2,
        start_offset,
    };
    let index = Location::Index {
        stream_id: key.0,
        topic_id: key.1,
        partition_id: key.2,
        start_offset,
    };
    lemma_segment_files_listed(key, partition.segments(), partition.segments().len(), m);
    lemma_partition_files_listed(topic.partitions(), topic.partitions().len(), k, log);
    lemma_partition_files_listed(topic.partitions(), topic.partitions().len(), k, index);
    lemma_topic_files_listed(stream.topics(), stream.topics().len(), j, log);
    lemma_topic_files_listed(stream.topics(), stream.topics().len(), j, index);
    let files = stream.files();
    let a = choose|a: int| 0 <= a < files.len() && files[a] == log;
    assert(removals_of(files)[a] == StorageOpView::Remove { location: log });
    let b = choose|b: int| 0 <= b < files.len() && files[b] == index;
    assert(removals_of(files)[b] == StorageOpView::Remove { location: index });
}

/// When an append is owed: a partition of the catalog takes every batch
/// with which its log stays within what offsets and positions can count.
pub proof fn lemma_partition_has_room(
    catalog: Catalog,
    sid: u32,
    tid: u32,
    pid: u32,
    payloads: Seq<Seq<u8>>,
)
    requires
        catalog.wf(),
        partition_log(catalog@, sid, tid, pid) is Some,
        partition_log(catalog@, sid, tid, pid).unwrap().len() + payloads.len() <= u64::MAX,
        stored_size(partition_log(catalog@, sid, tid, pid).unwrap() + payloads) <= u64::MAX,
    ensures
        catalog.partition(sid, tid, pid).has_room(payloads),
{
    let i = stream_index(catalog@, sid);
    let stream = catalog.streams()[i];
    assert(stream.wf());
    assert(stream@ == catalog@[i]);
    let j = topic_index(stream@.topics, tid);
    let topic = stream.topics()[j];
    assert(topic.wf());
    assert(topic@ == stream@.topics[j]);
    let partition = topic.partitions()[pid - 1];
    assert(partition.wf());
    assert(partition.messages() == topic@.partitions[pid - 1]);
    lemma_room(partition, payloads);
}

/// None of the operations that create the first segment files is about the
/// catalog file.
pub proof fn lemma_provision_spares_catalog(stream_id: u32, topic_id: u32, n: nat)
    ensures
        forall|k: int|
            0 <= k < provision_of(stream_id, topic_id, n).len() ==> location_of(
                #[trigger] provision_of(stream_id, topic_id, n)[k],
            ) != Location::Catalog,
    decreases n,
{
    if n > 0 {
        lemma_provision_spares_catalog(stream_id, topic_id, (n - 1) as nat);
        let front = provision_of(stream_id, topic_id, (n - 1) as nat);
        let all = provision_of(stream_id, topic_id, n);
        assert forall|k: int| 0 <= k < all.len() implies location_of(#[trigger] all[k])
            != Location::Catalog by {
            if k < front.len() {
                assert(all[k] == front[k]);
            }
        }
    }
}

/// The catalog file follows the memory: once the byte store has taken the
/// operations of a change, of which the one that overwrites the catalog
/// file is the last that is about it, the catalog file is the image of the
/// streams.
pub proof fn lemma_catalog_is_mirrored(
    store: Map<Location, Seq<u8>>,
    streams: Seq<StreamState>,
    earlier: Seq<StorageOpView>,
    later: Seq<StorageOpView>,
)
    requires
        forall|k: int| 0 <= k < later.len() ==> location_of(#[trigger] later[k])
            != Location::Catalog,
    ensures
        after_ops(
            store,
            earlier + seq![
                StorageOpView::Overwrite { location: Location::Catalog, bytes: image_of(streams) },
            ] + later,
        ).dom().contains(Location::Catalog),
        after_ops(
            store,
            earlier + seq![
                StorageOpView::Overwrite { location: Location::Catalog, bytes: image_of(streams) },
            ] + later,
        )[Location::Catalog] == image_of(streams),
{
    let ops = earlier + seq![
        StorageOpView::Overwrite { location: Location::Catalog, bytes: image_of(streams) },
    ] + later;
    let k = earlier.len() as int;
    assert forall|j: int| k < j < ops.len() implies location_of(#[trigger] ops[j])
        != Location::Catalog by {
        assert(ops[j] == later[j - k - 1]);
    }
    lemma_overwritten(store, ops, k, Location::Catalog, image_of(streams));
}

/// The byte store follows a new topic: once it has taken the operations
/// that create the first segment files, the log file of the first segment
/// of each partition exists and is empty, as the partition is.
pub proof fn lemma_provision_is_mirrored(
    store: Map<Location, Seq<u8>>,
    stream_id: u32,
    topic_id: u32,
    n: nat,
    pid: u32,
)
    requires
        1 <= pid <= n <= u32::MAX,
    ensures
        after_ops(store, provision_of(stream_id, topic_id, n)).dom().contains(
            Location::Log { stream_id, topic_id, partition_id: pid, start_offset: 0 },
        ),
        after_ops(store, provision_of(stream_id, topic_id, n))[Location::Log {
            stream_id,
            topic_id,
            partition_id: pid,
            start_offset: 0,
        }] == Seq::<u8>::empty(),
    decreases n,
{
    let location = Location::Log { stream_id, topic_id, partition_id: pid, start_offset: 0 };
    let front = provision_of(stream_id, topic_id, (n - 1) as nat);
    let ops = provision_of(stream_id, topic_id, n);
    let pair = ops.skip(front.len() as int);
    assert(ops =~= front + pair);
    lemma_after_ops_concat(store, front, pair);
    if pid < n {
        lemma_provision_is_mirrored(store, stream_id, topic_id, (n - 1) as nat, pid);
        assert forall|k: int| 0 <= k < pair.len() implies location_of(#[trigger] pair[k])
            != location by {}
        lemma_untouched(after_ops(store, front), pair, location);
    } else {
        lemma_overwritten(after_ops(store, front), pair, 0, location, Seq::empty());
    }
}

} // verus!
