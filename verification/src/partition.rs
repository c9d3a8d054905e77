use crate::error::Error;
use crate::message::{Message, MessageView};
use crate::response::Appended;
use crate::segment::{
    batch_has_room, encode_batch, index_of, is_batch_of, lemma_encoding_size, lemma_replay,
    lemma_stored_size_concat, payloads_of, records_in, records_of, stored_size, Batch,
    IndexEntry, Segment,
};
use crate::storage::{
    after_op, after_ops, lemma_after_ops_concat, lemma_overwritten, lemma_untouched,
    location_of, op_views, Location, StorageOp, StorageOpView,
};
use crate::wire::{counted_fits, lemma_list_encoding_concat, list_encoding, models, put_bytes};
use vstd::slice::slice_to_vec;
use vstd::prelude::*;

verus! {

/// The messages that a read of a log takes that asks for `count` messages
/// from the offset `start` on: the message at offset `i` is the `i`-th of the
/// log, and the read ends where the log ends.
pub open spec fn messages_from(log: Seq<Seq<u8>>, start: u64, count: u32) -> Seq<MessageView> {
    if start >= log.len() {
        Seq::empty()
    } else {
        Seq::new(
            (if log.len() - start < count {
                log.len() - start
            } else {
                count as int
            }) as nat,
            |j: int| MessageView { offset: (start + j) as u64, payload: log[start + j] },
        )
    }
}

/// Whether a segment stores a part of a log: each of its messages is the one
/// that the log has at that offset.
#[verifier::opaque]
pub open spec fn stores(segment: Segment, log: Seq<Seq<u8>>) -> bool {
    &&& segment.wf()
    &&& segment.end() <= log.len()
    &&& forall|k: int|
        0 <= k < segment.records().len() ==> (#[trigger] segment.records()[k]).payload
            == log[segment.start() + k]
}

/// A segment that stores a part of a log is well formed and ends within it.
pub proof fn lemma_stores_wf(segment: Segment, log: Seq<Seq<u8>>)
    requires
        stores(segment, log),
    ensures
        segment.wf(),
        segment.end() <= log.len(),
{
    reveal(stores);
}

/// A segment stores a part of every log that goes on from the one it stores
/// a part of, and so does every segment with the same start and messages.
pub proof fn lemma_stores_more(segment: Segment, same: Segment, log: Seq<Seq<u8>>, more: Seq<Seq<u8>>)
    requires
        stores(segment, log),
        same.wf(),
        same.start() == segment.start(),
        same.records() == segment.records(),
    ensures
        stores(same, log + more),
{
    reveal(stores);
}

/// A segment that ended where the log ended, and took a batch, stores a part
/// of the log with the batch.
pub proof fn lemma_stores_appended(
    segment: Segment,
    grown: Segment,
    log: Seq<Seq<u8>>,
    payloads: Seq<Seq<u8>>,
)
    requires
        stores(segment, log),
        segment.end() == log.len(),
        grown.wf(),
        grown.start() == segment.start(),
        grown.records() == segment.records() + records_of(segment.end(), payloads),
    ensures
        stores(grown, log + payloads),
        grown.end() == (log + payloads).len(),
{
    reveal(stores);
    let after = log + payloads;
    assert forall|k: int| 0 <= k < grown.records().len() implies (#[trigger] grown.records()[k]).payload
        == after[grown.start() + k] by {
        if k < segment.records().len() {
            assert(grown.records()[k] == segment.records()[k]);
        } else {
            assert(grown.records()[k] == records_of(segment.end(), payloads)[k
                - segment.records().len()]);
        }
    }
}

/// What a read of one segment takes goes on what was taken before it.
pub proof fn lemma_slice_goes_on(
    segment: Segment,
    log: Seq<Seq<u8>>,
    start: u64,
    count: u32,
    from: u64,
    need: u64,
)
    requires
        stores(segment, log),
        start <= from,
        segment.start() <= from,
        start < log.len(),
        from <= log.len(),
        from - start + need == count,
    ensures
        from + segment.available(from, need) <= log.len(),
        messages_from(log, start, count).take(from - start) + segment.slice(from, need)
            == messages_from(log, start, count).take(
            from - start + segment.available(from, need),
        ),
{
    reveal(stores);
    let wanted = messages_from(log, start, count);
    let slice = segment.slice(from, need);
    let taken = segment.available(from, need);
    assert forall|j: int| 0 <= j < slice.len() implies slice[j] == wanted[from - start + j] by {
        let k = from - segment.start() + j;
        assert(slice[j] == segment.records()[k]);
    }
    assert(wanted.take(from - start) + slice =~= wanted.take(from - start + taken));
}

/// The files of the first `n` segments of a partition: for each segment its
/// log, then its index.
pub open spec fn segment_files(key: (u32, u32, u32), segments: Seq<Segment>, n: nat) -> Seq<
    Location,
>
    decreases n,
{
    if n == 0 {
        Seq::empty()
    } else {
        segment_files(key, segments, (n - 1) as nat) + seq![
            Location::Log {
                stream_id: key.0,
                topic_id: key.1,
                partition_id: key.2,
                start_offset: segments[n - 1].start(),
            },
            Location::Index {
                stream_id: key.0,
                topic_id: key.1,
                partition_id: key.2,
                start_offset: segments[n - 1].start(),
            },
        ]
    }
}

/// The two files of a segment, as they were read from the byte store.
pub struct SegmentFiles {
    pub start_offset: u64,
    pub log: Vec<u8>,
    pub index: Vec<u8>,
}

/// The messages that the log file of a segment holds.
pub open spec fn file_records(file: SegmentFiles) -> Seq<MessageView> {
    records_in(file.log@, 0, file.start_offset as int)
}

/// Whether the log file of a segment holds its messages and nothing more.
pub open spec fn file_whole(file: SegmentFiles) -> bool {
    list_encoding::<Message>(file_records(file)).len() == file.log@.len()
}

/// Whether the files of segments are those of one partition, oldest first:
/// there is at least one, the first starts at offset 0, each of the others
/// starts where the one before it ends, and all but the last are whole and
/// hold messages.
pub open spec fn files_chain(files: Seq<SegmentFiles>) -> bool {
    &&& files.len() >= 1
    &&& files[0].start_offset == 0
    &&& forall|i: int|
        0 <= i < files.len() - 1 ==> {
            &&& file_whole(#[trigger] files[i])
            &&& file_records(files[i]).len() > 0
            &&& files[i + 1].start_offset == files[i].start_offset + file_records(
                files[i],
            ).len()
        }
}

/// The log that the first `n` of the files hold: their messages, one file
/// after the other.
pub open spec fn files_log(files: Seq<SegmentFiles>, n: nat) -> Seq<Seq<u8>>
    decreases n,
{
    if n == 0 {
        Seq::empty()
    } else {
        files_log(files, (n - 1) as nat) + payloads_of(file_records(files[n - 1]))
    }
}

/// Whether segments are the chain that stores a log: they follow one another
/// without a gap from offset 0 on, all but the last are closed, hold
/// messages and have whole files, the last is open and ends where the log
/// ends, and every stored message is the one that the log has at its
/// offset.
pub open spec fn chain(segments: Seq<Segment>, log: Seq<Seq<u8>>) -> bool {
    &&& segments.len() >= 1
    &&& forall|i: int| 0 <= i < segments.len() ==> stores(#[trigger] segments[i], log)
    &&& segments[0].start() == 0
    &&& forall|i: int|
        0 <= i < segments.len() - 1 ==> {
            &&& (#[trigger] segments[i]).closed()
            &&& !segments[i].torn()
            &&& segments[i].records().len() > 0
            &&& segments[i + 1].start() == segments[i].end()
        }
    &&& !segments.last().closed()
    &&& segments.last().end() == log.len()
}

/// Appends a batch to the last segment of a chain. Says whether the segment
/// could take it; where it could not, nothing is changed.
fn extend_chain(segments: &mut Vec<Segment>, payloads: &Vec<Vec<u8>>, Ghost(log): Ghost<
    Seq<Seq<u8>>,
>) -> (ok: bool)
    requires
        chain(old(segments)@, log),
        counted_fits::<Vec<u8>>(models(payloads@)),
    ensures
        ok == batch_has_room(
            log.len() as u64,
            old(segments)@.last().image().len() as u64,
            models(payloads@),
        ),
        !ok ==> final(segments)@ == old(segments)@,
        ok ==> {
            &&& chain(final(segments)@, log + models(payloads@))
            &&& final(segments)@.len() == old(segments)@.len()
            &&& forall|i: int|
                0 <= i < final(segments)@.len() - 1 ==> #[trigger] final(segments)@[i] == old(
                    segments,
                )@[i]
            &&& final(segments)@.last().start() == old(segments)@.last().start()
            &&& final(segments)@.last().records() == old(segments)@.last().records() + records_of(
                log.len() as int,
                models(payloads@),
            )
            &&& !final(segments)@.last().torn()
        },
{
    let last = segments.len() - 1;
    proof {
        lemma_stores_wf(segments@[last as int], log);
    }
    if segments[last].append(payloads).is_none() {
        assert(segments@ =~= old(segments)@);
        return false;
    }
    proof {
        assert forall|i: int| 0 <= i < segments@.len() implies stores(
            #[trigger] segments@[i],
            log + models(payloads@),
        ) by {
            if i < last {
                lemma_stores_wf(old(segments)@[i], log);
                lemma_stores_more(old(segments)@[i], segments@[i], log, models(payloads@));
            } else {
                lemma_stores_appended(old(segments)@[i], segments@[i], log, models(payloads@));
            }
        }
        lemma_stores_appended(
            old(segments)@[last as int],
            segments@[last as int],
            log,
            models(payloads@),
        );
    }
    true
}

/// Closes the last segment of a chain and opens a new one with a batch.
/// Says whether a new segment can take the batch; where it cannot, nothing
/// is changed.
fn roll_chain(segments: &mut Vec<Segment>, payloads: &Vec<Vec<u8>>, Ghost(log): Ghost<
    Seq<Seq<u8>>,
>) -> (ok: bool)
    requires
        chain(old(segments)@, log),
        old(segments)@.last().image().len() > 0,
        log.len() <= u64::MAX,
        counted_fits::<Vec<u8>>(models(payloads@)),
    ensures
        ok == batch_has_room(log.len() as u64, 0, models(payloads@)),
        !ok ==> final(segments)@ == old(segments)@,
        ok ==> {
            &&& chain(final(segments)@, log + models(payloads@))
            &&& final(segments)@.len() == old(segments)@.len() + 1
            &&& forall|i: int|
                0 <= i < final(segments)@.len() - 1 ==> {
                    &&& (#[trigger] final(segments)@[i]).start() == old(segments)@[i].start()
                    &&& final(segments)@[i].records() == old(segments)@[i].records()
                }
            &&& final(segments)@.last().start() == log.len()
            &&& final(segments)@.last().records() == records_of(
                log.len() as int,
                models(payloads@),
            )
            &&& !final(segments)@.last().torn()
        },
{
    let last = segments.len() - 1;
    proof {
        lemma_stores_wf(segments@[last as int], log);
    }
    let first = segments[last].end_offset();
    let mut fresh = Segment::new(first);
    if fresh.append(payloads).is_none() {
        return false;
    }
    segments[last].close();
    segments[last].mend();
    let ghost closed = segments@;
    segments.push(fresh);
    proof {
        assert(Seq::<MessageView>::empty() + records_of(first as int, models(payloads@))
            =~= records_of(first as int, models(payloads@)));
        assert forall|i: int| 0 <= i < segments@.len() implies stores(
            #[trigger] segments@[i],
            log + models(payloads@),
        ) by {
            if i <= last {
                lemma_stores_wf(old(segments)@[i], log);
                assert(segments@[i] == closed[i]);
                lemma_stores_more(old(segments)@[i], segments@[i], log, models(payloads@));
            } else {
                assert(segments@[i] == fresh);
                reveal(stores);
            }
        }
        assert forall|i: int| 0 <= i < segments@.len() - 1 implies {
            &&& (#[trigger] segments@[i]).closed()
            &&& !segments@[i].torn()
            &&& segments@[i].records().len() > 0
            &&& segments@[i + 1].start() == segments@[i].end()
        } by {
            assert(segments@[i] == closed[i]);
            if i < last {
                assert(closed[i] == old(segments)@[i]);
                assert(segments@[i + 1] == closed[i + 1]);
            }
        }
    }
    true
}

/// Whether `after` is `before` with a batch appended: the messages go
/// behind the log, the earlier segments keep their messages, and the whole
/// batch lies in the segment that is active afterwards, which is a new one
/// where the active segment had outgrown the threshold. The file of that
/// segment counts as whole.
pub open spec fn appended_to(before: Partition, after: Partition, payloads: Seq<Seq<u8>>) -> bool {
    &&& after.key() == before.key()
    &&& after.threshold() == before.threshold()
    &&& after.messages() == before.messages() + payloads
    &&& after.segments().len() == before.segments().len() + (if before.rolls() {
        1int
    } else {
        0int
    })
    &&& forall|i: int|
        0 <= i < after.segments().len() - 1 ==> {
            &&& (#[trigger] after.segments()[i]).start() == before.segments()[i].start()
            &&& after.segments()[i].records() == before.segments()[i].records()
        }
    &&& after.active().start() == before.target()
    &&& after.active().records() == (if before.rolls() {
        Seq::<MessageView>::empty()
    } else {
        before.active().records()
    }) + records_of(before.messages().len() as int, payloads)
    &&& !after.active().torn()
}

/// One ordered, append-only log of messages, stored as a chain of segments:
/// the last one is active, the others are closed.
pub struct Partition {
    stream_id: u32,
    topic_id: u32,
    id: u32,
    segment_size: u64,
    next_offset: u64,
    segments: Vec<Segment>,
    log: Ghost<Seq<Seq<u8>>>,
}

impl Partition {
    /// The payloads of the partition's messages: the message at offset `i`
    /// is the `i`-th.
    pub closed spec fn messages(&self) -> Seq<Seq<u8>> {
        self.log@
    }

    /// The partition's segments, oldest first.
    pub closed spec fn segments(&self) -> Seq<Segment> {
        self.segments@
    }

    /// The offset that the next message takes, as the partition counts it.
    pub closed spec fn counter(&self) -> u64 {
        self.next_offset
    }

    /// The size from which on the active segment is closed before an append.
    pub closed spec fn threshold(&self) -> u64 {
        self.segment_size
    }

    /// The stream, the topic and the identifier of the partition.
    pub closed spec fn key(&self) -> (u32, u32, u32) {
        (self.stream_id, self.topic_id, self.id)
    }

    /// The segment that takes the next append.
    pub open spec fn active(&self) -> Segment {
        self.segments().last()
    }

    /// The partition's invariant: the segments follow one another without a
    /// gap from offset 0 on, all but the last are closed and their files
    /// whole, every stored message is the one that the log has at its
    /// offset, and the counter is the length of the log.
    pub open spec fn wf(&self) -> bool {
        &&& chain(self.segments(), self.messages())
        &&& self.counter() == self.messages().len()
    }

    /// Whether the active segment has outgrown the threshold, so that the
    /// next append closes it and opens a new one.
    pub open spec fn rolls(&self) -> bool {
        self.active().image().len() > self.threshold()
    }

    /// Where the next batch is stored: in a new segment from position 0 on
    /// after a rollover, else behind the active segment's log.
    pub open spec fn base(&self) -> u64 {
        if self.rolls() {
            0
        } else {
            self.active().image().len() as u64
        }
    }

    /// The start offset of the segment that takes the next batch.
    pub open spec fn target(&self) -> u64 {
        if self.rolls() {
            self.counter()
        } else {
            self.active().start()
        }
    }

    /// Whether the partition can take a batch.
    pub open spec fn has_room(&self, payloads: Seq<Seq<u8>>) -> bool {
        batch_has_room(self.counter(), self.base(), payloads)
    }

    /// An empty partition with one empty, active segment.
    pub fn new(stream_id: u32, topic_id: u32, id: u32, segment_size: u64) -> (partition: Partition)
        ensures
            partition.wf(),
            partition.messages() == Seq::<Seq<u8>>::empty(),
            partition.key() == (stream_id, topic_id, id),
            partition.threshold() == segment_size,
            partition.segments().len() == 1,
            partition.active().start() == 0,
    {
        let mut segments: Vec<Segment> = Vec::new();
        segments.push(Segment::new(0));
        proof {
            reveal(stores);
        }
        Partition {
            stream_id,
            topic_id,
            id,
            segment_size,
            next_offset: 0,
            segments,
            log: Ghost(Seq::empty()),
        }
    }

    /// Rebuilds a partition from the files of its segments, oldest first.
    /// The last segment is active; where its file is torn, what stands
    /// behind its last whole record is left out and cut off by the next
    /// append. Fails with `Corruption` where the files are not those of
    /// one partition.
    pub fn recover(
        stream_id: u32,
        topic_id: u32,
        id: u32,
        segment_size: u64,
        files: &Vec<SegmentFiles>,
    ) -> (r: Result<Partition, Error>)
        ensures
            match r {
                Ok(partition) => {
                    &&& files_chain(files@)
                    &&& partition.wf()
                    &&& partition.key() == (stream_id, topic_id, id)
                    &&& partition.threshold() == segment_size
                    &&& partition.messages() == files_log(files@, files@.len())
                    &&& partition.segments().len() == files@.len()
                    &&& forall|i: int|
                        0 <= i < files@.len() ==> {
                            &&& (#[trigger] partition.segments()[i]).start()
                                == files@[i].start_offset
                            &&& partition.segments()[i].records() == file_records(files@[i])
                        }
                    &&& partition.active().torn() == !file_whole(files@.last())
                },
                Err(e) => e == Error::Corruption && !files_chain(files@),
            },
    {
        let n = files.len();
        if n == 0 {
            return Err(Error::Corruption);
        }
        let mut segments: Vec<Segment> = Vec::new();
        let mut next: u64 = 0;
        let ghost mut log: Seq<Seq<u8>> = Seq::empty();
        let mut i: usize = 0;
        while i < n
            invariant
                n == files@.len(),
                i <= n,
                segments@.len() == i,
                log == files_log(files@, i as nat),
                next == log.len(),
                forall|k: int| 0 <= k < i ==> stores(#[trigger] segments@[k], log),
                forall|k: int|
                    0 <= k < i ==> {
                        &&& (#[trigger] segments@[k]).start() == files@[k].start_offset
                        &&& segments@[k].records() == file_records(files@[k])
                        &&& segments@[k].closed() == (k < n - 1)
                        &&& segments@[k].torn() == !file_whole(files@[k])
                        &&& k < n - 1 ==> !segments@[k].torn() && segments@[k].records().len() > 0
                    },
                i > 0 ==> files@[0].start_offset == 0,
                i > 0 ==> next == segments@[i - 1].end(),
                forall|k: int|
                    0 <= k < i - 1 ==> {
                        &&& file_whole(#[trigger] files@[k])
                        &&& file_records(files@[k]).len() > 0
                        &&& files@[k + 1].start_offset == files@[k].start_offset + file_records(
                            files@[k],
                        ).len()
                    },
                i == n ==> i > 0,
            decreases n - i,
        {
            let file = &files[i];
            let mut segment = Segment::recover(
                file.start_offset,
                file.log.as_slice(),
                file.index.as_slice(),
            );
            if segment.start_offset() != next {
                proof {
                    if i > 0 {
                        assert(!(files@[i as int].start_offset == files@[i - 1].start_offset
                            + file_records(files@[i - 1]).len()));
                    }
                }
                return Err(Error::Corruption);
            }
            if i < n - 1 {
                if segment.is_torn() || segment.len() == 0 {
                    assert(!file_whole(files@[i as int]) || file_records(files@[i as int]).len()
                        == 0);
                    return Err(Error::Corruption);
                }
                segment.close();
            }
            let ghost longer = log + payloads_of(segment.records());
            proof {
                assert forall|k: int| 0 <= k < i implies stores(#[trigger] segments@[k], longer) by {
                    lemma_stores_wf(segments@[k], log);
                    lemma_stores_more(
                        segments@[k],
                        segments@[k],
                        log,
                        payloads_of(segment.records()),
                    );
                }
                assert(stores(segment, longer)) by {
                    reveal(stores);
                }
            }
            proof {
                if i > 0 {
                    assert(segments@[i - 1].start() == files@[i - 1].start_offset);
                    assert(file_whole(files@[i - 1]));
                    assert(file_records(files@[i - 1]).len() > 0);
                }
            }
            next = segment.end_offset();
            segments.push(segment);
            proof {
                log = longer;
            }
            i += 1;
        }
        Ok(
            Partition {
                stream_id,
                topic_id,
                id,
                segment_size,
                next_offset: next,
                segments,
                log: Ghost(log),
            },
        )
    }

    /// The files of the partition: the log and the index of each segment.
    pub open spec fn files(&self) -> Seq<Location> {
        segment_files(self.key(), self.segments(), self.segments().len())
    }

    /// Appends the partition's files to `out`.
    pub fn collect_files(&self, out: &mut Vec<Location>)
        ensures
            final(out)@ == old(out)@ + self.files(),
    {
        let mut i: usize = 0;
        assert(out@ =~= old(out)@ + segment_files(self.key(), self.segments(), 0));
        while i < self.segments.len()
            invariant
                i <= self.segments@.len(),
                out@ == old(out)@ + segment_files(self.key(), self.segments(), i as nat),
            decreases self.segments@.len() - i,
        {
            let start_offset = self.segments[i].start_offset();
            out.push(
                Location::Log {
                    stream_id: self.stream_id,
                    topic_id: self.topic_id,
                    partition_id: self.id,
                    start_offset,
                },
            );
            out.push(
                Location::Index {
                    stream_id: self.stream_id,
                    topic_id: self.topic_id,
                    partition_id: self.id,
                    start_offset,
                },
            );
            i += 1;
            assert(out@ =~= old(out)@ + segment_files(self.key(), self.segments(), i as nat));
        }
    }

    /// The identifier of the stream that the partition belongs to.
    pub fn stream_id(&self) -> (id: u32)
        ensures
            id == self.key().0,
    {
        self.stream_id
    }

    /// The identifier of the topic that the partition belongs to.
    pub fn topic_id(&self) -> (id: u32)
        ensures
            id == self.key().1,
    {
        self.topic_id
    }

    /// The partition's identifier within its topic.
    pub fn id(&self) -> (id: u32)
        ensures
            id == self.key().2,
    {
        self.id
    }

    /// The offset that the next message takes.
    pub fn next_offset(&self) -> (offset: u64)
        requires
            self.wf(),
        ensures
            offset == self.messages().len(),
    {
        self.next_offset
    }

    /// The segment at place `i`, oldest first, if there is one.
    pub fn segment(&self, i: usize) -> (r: Option<&Segment>)
        ensures
            r is Some <==> i < self.segments().len(),
            r matches Some(segment) ==> *segment == self.segments()[i as int],
    {
        if i < self.segments.len() {
            Some(&self.segments[i])
        } else {
            None
        }
    }

    /// The number of segments.
    pub fn segments_count(&self) -> (count: usize)
        ensures
            count == self.segments().len(),
    {
        self.segments.len()
    }

    /// The stored form of a batch and the start offset of the segment that
    /// takes it, as the next append would store it; nothing where the
    /// partition cannot take the batch.
    fn stage(&self, payloads: &Vec<Vec<u8>>) -> (r: Option<(Batch, u64, bool)>)
        requires
            self.wf(),
            counted_fits::<Vec<u8>>(models(payloads@)),
        ensures
            r is Some <==> self.has_room(models(payloads@)),
            r matches Some((batch, target, indexed)) ==> {
                &&& is_batch_of(batch, self.counter(), self.base(), models(payloads@))
                &&& target == self.target()
                &&& indexed == (self.rolls() || self.active().index_complete())
            },
    {
        proof {
            lemma_stores_wf(self.segments@[self.segments@.len() - 1], self.log@);
        }
        let active = &self.segments[self.segments.len() - 1];
        let rolls = active.size() as u64 > self.segment_size;
        let base: u64 = if rolls {
            0
        } else {
            active.size() as u64
        };
        let target = if rolls {
            self.next_offset
        } else {
            active.start_offset()
        };
        let indexed = rolls || active.is_index_complete();
        match encode_batch(self.next_offset, base, payloads) {
            Some(batch) => Some((batch, target, indexed)),
            None => None,
        }
    }

    /// The log of the segment that takes the next batch.
    pub open spec fn target_log(&self) -> Location {
        Location::Log {
            stream_id: self.key().0,
            topic_id: self.key().1,
            partition_id: self.key().2,
            start_offset: self.target(),
        }
    }

    /// What the next append of `payloads` asks of the byte store. The
    /// records go behind the log of the active segment; where that file is
    /// torn it is written anew instead, with the log in memory before the
    /// records, which cuts off what stood behind the log. The index entries
    /// go behind the segment's index, unless that index is stale. On a
    /// rollover the two files of the new segment are written anew with the
    /// batch, and before that a torn file of the segment that is closed.
    pub open spec fn append_ops(&self, payloads: Seq<Seq<u8>>) -> Seq<StorageOpView> {
        let records = records_of(self.counter() as int, payloads);
        let repair = StorageOpView::Overwrite {
            location: Location::Log {
                stream_id: self.key().0,
                topic_id: self.key().1,
                partition_id: self.key().2,
                start_offset: self.active().start(),
            },
            bytes: self.active().image(),
        };
        let log = if self.rolls() {
            StorageOpView::Overwrite {
                location: self.target_log(),
                bytes: list_encoding::<Message>(records),
            }
        } else if self.active().torn() {
            StorageOpView::Overwrite {
                location: self.target_log(),
                bytes: self.active().image() + list_encoding::<Message>(records),
            }
        } else {
            StorageOpView::Append {
                location: self.target_log(),
                bytes: list_encoding::<Message>(records),
            }
        };
        let index_location = Location::Index {
            stream_id: self.key().0,
            topic_id: self.key().1,
            partition_id: self.key().2,
            start_offset: self.target(),
        };
        let entries = list_encoding::<IndexEntry>(index_of(self.base() as int, records));
        let index = if self.rolls() {
            StorageOpView::Overwrite { location: index_location, bytes: entries }
        } else {
            StorageOpView::Append { location: index_location, bytes: entries }
        };
        (if self.active().torn() && self.rolls() {
            seq![repair]
        } else {
            Seq::empty()
        }) + (if self.rolls() || self.active().index_complete() {
            seq![log, index]
        } else {
            seq![log]
        })
    }

    /// What the byte store must take before `append_messages` may be called
    /// with the same batch. The partition itself is not changed. Fails with
    /// `IoError` where the partition cannot take the batch.
    pub fn plan_append(&self, payloads: &Vec<Vec<u8>>) -> (r: Result<Vec<StorageOp>, Error>)
        requires
            self.wf(),
            counted_fits::<Vec<u8>>(models(payloads@)),
        ensures
            match r {
                Ok(ops) => self.has_room(models(payloads@)) && op_views(ops@) == self.append_ops(
                    models(payloads@),
                ),
                Err(e) => e == Error::IoError && !self.has_room(models(payloads@)),
            },
    {
        let (batch, target, indexed) = match self.stage(payloads) {
            Some(staged) => staged,
            None => { return Err(Error::IoError); },
        };
        let last = self.segments.len() - 1;
        let active = &self.segments[last];
        let rolls = active.size() as u64 > self.segment_size;
        let location = Location::Log {
            stream_id: self.stream_id,
            topic_id: self.topic_id,
            partition_id: self.id,
            start_offset: target,
        };
        let mut ops: Vec<StorageOp> = Vec::new();
        if active.is_torn() && rolls {
            ops.push(
                StorageOp::Overwrite {
                    location: Location::Log {
                        stream_id: self.stream_id,
                        topic_id: self.topic_id,
                        partition_id: self.id,
                        start_offset: active.start_offset(),
                    },
                    bytes: slice_to_vec(active.log().as_slice()),
                },
            );
        }
        let index_location = Location::Index {
            stream_id: self.stream_id,
            topic_id: self.topic_id,
            partition_id: self.id,
            start_offset: target,
        };
        if rolls {
            ops.push(StorageOp::Overwrite { location, bytes: batch.log });
            ops.push(StorageOp::Overwrite { location: index_location, bytes: batch.index });
        } else {
            if active.is_torn() {
                let mut bytes = slice_to_vec(active.log().as_slice());
                put_bytes(&mut bytes, batch.log.as_slice());
                ops.push(StorageOp::Overwrite { location, bytes });
            } else {
                ops.push(StorageOp::Append { location, bytes: batch.log });
            }
            if indexed {
                ops.push(StorageOp::Append { location: index_location, bytes: batch.index });
            }
        }
        assert(op_views(ops@) =~= self.append_ops(models(payloads@)));
        Ok(ops)
    }

    /// Appends a batch: its messages take the next offsets, in their order,
    /// and the counter advances by their number. Where the active segment
    /// has outgrown the threshold it is closed first and a new one opened,
    /// so that the whole batch lies in one segment, the one that is active
    /// afterwards; the earlier segments keep their messages. Fails with
    /// `IoError`, and changes nothing, where the partition cannot take the
    /// batch.
    pub fn append_messages(&mut self, payloads: &Vec<Vec<u8>>) -> (r: Result<Appended, Error>)
        requires
            old(self).wf(),
            counted_fits::<Vec<u8>>(models(payloads@)),
        ensures
            final(self).wf(),
            final(self).key() == old(self).key(),
            final(self).threshold() == old(self).threshold(),
            match r {
                Ok(appended) => {
                    &&& old(self).has_room(models(payloads@))
                    &&& appended.first_offset == old(self).messages().len()
                    &&& appended.count == payloads@.len()
                    &&& appended_to(*old(self), *final(self), models(payloads@))
                },
                Err(e) => {
                    &&& e == Error::IoError
                    &&& !old(self).has_room(models(payloads@))
                    &&& final(self).messages() == old(self).messages()
                    &&& final(self).segments() == old(self).segments()
                },
            },
    {
        let last = self.segments.len() - 1;
        let first = self.next_offset;
        let rolls = self.segments[last].size() as u64 > self.segment_size;
        let ghost before = self.log@;
        let ok = if rolls {
            roll_chain(&mut self.segments, payloads, Ghost(before))
        } else {
            extend_chain(&mut self.segments, payloads, Ghost(before))
        };
        if !ok {
            return Err(Error::IoError);
        }
        self.next_offset = first + payloads.len() as u64;
        self.log = Ghost(before + models(payloads@));
        Ok(Appended { first_offset: first, count: payloads.len() as u32 })
    }

    /// Up to `count` messages from the offset `start_offset` on, in their
    /// order: fewer where the log ends first, none where it ends before
    /// `start_offset`.
    pub fn read_messages(&self, start_offset: u64, count: u32) -> (messages: Vec<Message>)
        requires
            self.wf(),
        ensures
            models(messages@) == messages_from(self.messages(), start_offset, count),
    {
        let mut out: Vec<Message> = Vec::new();
        let ghost log = self.log@;
        let ghost wanted = messages_from(log, start_offset, count);
        if start_offset >= self.next_offset || count == 0 {
            assert(models(out@) =~= wanted);
            return out;
        }
        let n = self.segments.len();
        let mut i: usize = 0;
        while i < n && self.end_of(i) <= start_offset
            invariant
                self.wf(),
                n == self.segments@.len(),
                i <= n,
                start_offset < self.next_offset,
                i < n ==> self.segments@[i as int].start() <= start_offset,
                i == n ==> start_offset >= self.messages().len(),
            decreases n - i,
        {
            i += 1;
        }
        let mut from: u64 = start_offset;
        let mut need: u64 = count as u64;
        assert(models(out@) =~= wanted.take(0));
        while i < n && need > 0
            invariant
                self.wf(),
                n == self.segments@.len(),
                log == self.log@,
                wanted == messages_from(log, start_offset, count),
                i <= n,
                start_offset < log.len(),
                start_offset <= from <= log.len(),
                from - start_offset + need == count,
                need > 0 && i < n ==> self.segments@[i as int].start() <= from
                    <= self.segments@[i as int].end(),
                need > 0 && i == n ==> from == log.len(),
                models(out@) == wanted.take(from - start_offset),
            decreases n - i,
        {
            let segment = &self.segments[i];
            proof {
                lemma_stores_wf(*segment, log);
                lemma_slice_goes_on(*segment, log, start_offset, count, from, need);
            }
            let taken = segment.read(from, need, &mut out);
            from = from + taken;
            need = need - taken;
            i += 1;
        }
        assert(models(out@) =~= wanted);
        out
    }

    /// The offset behind the last message of segment `i`.
    fn end_of(&self, i: usize) -> (offset: u64)
        requires
            self.wf(),
            i < self.segments().len(),
        ensures
            offset == self.segments()[i as int].end(),
            offset <= self.messages().len(),
    {
        proof {
            lemma_stores_wf(self.segments@[i as int], self.log@);
        }
        self.segments[i].end_offset()
    }
}

/// The log of a partition that was empty and took the batches one after the
/// other.
pub open spec fn log_after(batches: Seq<Seq<Seq<u8>>>) -> Seq<Seq<u8>>
    decreases batches.len(),
{
    if batches.len() == 0 {
        Seq::empty()
    } else {
        log_after(batches.drop_last()) + batches.last()
    }
}

/// The offset that the append of batch `i` returns: the length of the log
/// that the batches before it left.
pub open spec fn returned_offset(batches: Seq<Seq<Seq<u8>>>, i: int) -> int {
    log_after(batches.take(i)).len() as int
}

/// The offsets that a run of appends returns start at 0 and are contiguous:
/// each append returns the offset behind the last message of the one before
/// it, so the offsets never decrease and grow with every batch that is not
/// empty; and message `j` of batch `i` is found in the log at the returned
/// offset plus `j`.
pub proof fn lemma_offsets_contiguous(batches: Seq<Seq<Seq<u8>>>, i: int, j: int)
    requires
        0 <= i < batches.len(),
        0 <= j < batches[i].len(),
    ensures
        returned_offset(batches, 0) == 0,
        returned_offset(batches, i + 1) == returned_offset(batches, i) + batches[i].len(),
        returned_offset(batches, i) + j < log_after(batches).len(),
        log_after(batches)[returned_offset(batches, i) + j] == batches[i][j],
    decreases batches.len(),
{
    assert(batches.take(0) =~= Seq::<Seq<Seq<u8>>>::empty());
    assert(batches.take(i + 1).drop_last() =~= batches.take(i));
    assert(batches.take(i + 1).last() == batches[i]);
    if i == batches.len() - 1 {
        assert(batches.take(i + 1) =~= batches);
    } else {
        let front = batches.drop_last();
        lemma_offsets_contiguous(front, i, j);
        assert(front.take(i) =~= batches.take(i));
    }
}

/// The files of the first `n` segments hold the log and the index of each
/// of them.
pub proof fn lemma_segment_files_listed(key: (u32, u32, u32), segments: Seq<Segment>, n: nat, m: int)
    requires
        0 <= m < n <= segments.len(),
    ensures
        segment_files(key, segments, n).contains(
            Location::Log {
                stream_id: key.0,
                topic_id: key.1,
                partition_id: key.2,
                start_offset: segments[m].start(),
            },
        ),
        segment_files(key, segments, n).contains(
            Location::Index {
                stream_id: key.0,
                topic_id: key.1,
                partition_id: key.2,
                start_offset: segments[m].start(),
            },
        ),
    decreases n,
{
    let files = segment_files(key, segments, n);
    let front = segment_files(key, segments, (n - 1) as nat);
    if m < n - 1 {
        lemma_segment_files_listed(key, segments, (n - 1) as nat, m);
        let log = Location::Log {
            stream_id: key.0,
            topic_id: key.1,
            partition_id: key.2,
            start_offset: segments[m].start(),
        };
        let index = Location::Index {
            stream_id: key.0,
            topic_id: key.1,
            partition_id: key.2,
            start_offset: segments[m].start(),
        };
        let a = choose|a: int| 0 <= a < front.len() && front[a] == log;
        assert(files[a] == log);
        let b = choose|b: int| 0 <= b < front.len() && front[b] == index;
        assert(files[b] == index);
    } else {
        assert(files[front.len() as int] == Location::Log {
            stream_id: key.0,
            topic_id: key.1,
            partition_id: key.2,
            start_offset: segments[m].start(),
        });
        assert(files[front.len() as int + 1] == Location::Index {
            stream_id: key.0,
            topic_id: key.1,
            partition_id: key.2,
            start_offset: segments[m].start(),
        });
    }
}

/// When an append is owed: a partition takes every batch with which its log
/// stays within what offsets and positions can count.
pub proof fn lemma_room(partition: Partition, payloads: Seq<Seq<u8>>)
    requires
        partition.wf(),
        partition.messages().len() + payloads.len() <= u64::MAX,
        stored_size(partition.messages() + payloads) <= u64::MAX,
    ensures
        partition.has_room(payloads),
{
    let log = partition.messages();
    let active = partition.active();
    reveal(stores);
    assert(stores(active, log));
    let records = active.records();
    let front = log.take(active.start() as int);
    assert(log =~= front + payloads_of(records)) by {
        assert forall|k: int| 0 <= k < records.len() implies payloads_of(records)[k] == log[active.start()
            + k] by {
            assert(records[k].payload == log[active.start() + k]);
        }
    }
    lemma_stored_size_concat(front, payloads_of(records));
    lemma_stored_size_concat(log, payloads);
    lemma_encoding_size(records);
    let added = records_of(partition.counter() as int, payloads);
    lemma_encoding_size(added);
    assert(payloads_of(added) =~= payloads);
}

/// In a chain, a later segment starts at a higher offset.
pub proof fn lemma_starts_rise(segments: Seq<Segment>, log: Seq<Seq<u8>>, i: int, j: int)
    requires
        chain(segments, log),
        0 <= i < j < segments.len(),
    ensures
        segments[i].start() < segments[j].start(),
    decreases j - i,
{
    assert(segments[j - 1].closed());
    if i < j - 1 {
        lemma_starts_rise(segments, log, i, j - 1);
    }
}

impl Partition {
    /// The log file of the segment at place `i`.
    pub open spec fn log_of(&self, i: int) -> Location {
        Location::Log {
            stream_id: self.key().0,
            topic_id: self.key().1,
            partition_id: self.key().2,
            start_offset: self.segments()[i].start(),
        }
    }

    /// Whether a byte store holds the partition: the log file of each
    /// segment exists and is the segment's log, and the file of a torn
    /// segment holds the segment's messages and then what is no record.
    pub open spec fn mirrored(&self, store: Map<Location, Seq<u8>>) -> bool {
        forall|i: int|
            0 <= i < self.segments().len() ==> {
                &&& store.dom().contains(#[trigger] self.log_of(i))
                &&& if self.segments()[i].torn() {
                    records_in(store[self.log_of(i)], 0, self.segments()[i].start() as int)
                        == self.segments()[i].records()
                } else {
                    store[self.log_of(i)] == self.segments()[i].image()
                }
            }
    }
}

/// The byte store follows the memory: where a byte store holds a partition
/// and takes what `plan_append` gives for a batch, it holds the partition
/// with the batch appended.
pub proof fn lemma_append_is_mirrored(
    before: Partition,
    after: Partition,
    payloads: Seq<Seq<u8>>,
    store: Map<Location, Seq<u8>>,
)
    requires
        before.wf(),
        after.wf(),
        appended_to(before, after, payloads),
        before.mirrored(store),
    ensures
        after.mirrored(after_ops(store, before.append_ops(payloads))),
{
    let ops = before.append_ops(payloads);
    let last = before.segments().len() - 1;
    let added = records_of(before.counter() as int, payloads);
    let target = before.target_log();
    let active = before.active();
    let taken = after_ops(store, ops);
    reveal(stores);
    assert(stores(active, before.messages()));
    assert(stores(after.active(), after.messages()));
    lemma_list_encoding_concat::<Message>(active.records(), added);
    assert(Seq::<MessageView>::empty() + added =~= added);
    assert(before.log_of(last) == Location::Log {
        stream_id: before.key().0,
        topic_id: before.key().1,
        partition_id: before.key().2,
        start_offset: active.start(),
    });
    assert(store.dom().contains(before.log_of(last)));
    // What the target holds afterwards.
    let k: int = if before.rolls() && active.torn() {
        1
    } else {
        0
    };
    assert(location_of(ops[k]) == target);
    assert forall|j: int| k < j < ops.len() implies location_of(#[trigger] ops[j]) != target by {}
    if before.rolls() || active.torn() {
        let bytes = if before.rolls() {
            list_encoding::<Message>(added)
        } else {
            active.image() + list_encoding::<Message>(added)
        };
        lemma_overwritten(store, ops, k, target, bytes);
    } else {
        let front = ops.take(1);
        let back = ops.skip(1);
        assert(ops =~= front + back);
        lemma_after_ops_concat(store, front, back);
        assert(front.drop_last() =~= Seq::<StorageOpView>::empty());
        assert(after_ops(store, front) == after_op(store, ops[0])) by {
            assert(front.last() == ops[0]);
            assert(after_ops(store, front.drop_last()) == store);
        }
        assert forall|j: int| 0 <= j < back.len() implies location_of(#[trigger] back[j])
            != target by {
            assert(back[j] == ops[1 + j]);
        }
        lemma_untouched(after_ops(store, front), back, target);
    }
    assert(taken.dom().contains(target));
    assert(taken[target] == after.active().image());
    assert forall|i: int| 0 <= i < after.segments().len() implies {
        &&& taken.dom().contains(#[trigger] after.log_of(i))
        &&& if after.segments()[i].torn() {
            records_in(taken[after.log_of(i)], 0, after.segments()[i].start() as int)
                == after.segments()[i].records()
        } else {
            taken[after.log_of(i)] == after.segments()[i].image()
        }
    } by {
        if i == after.segments().len() - 1 {
            assert(after.log_of(i) == target);
        } else {
            let location = after.log_of(i);
            assert(location == before.log_of(i));
            assert(stores(before.segments()[i], before.messages()));
            assert(stores(after.segments()[i], after.messages()));
            assert(after.segments()[i].image() == before.segments()[i].image());
            assert(!after.segments()[i].torn());
            if i < last {
                lemma_starts_rise(before.segments(), before.messages(), i, last);
                assert(!before.segments()[i].torn());
                assert forall|j: int| 0 <= j < ops.len() implies location_of(#[trigger] ops[j])
                    != location by {}
                lemma_untouched(store, ops, location);
            } else {
                // The segment that a rollover closes.
                assert(before.rolls());
                assert(active.records().len() > 0) by {
                    if active.records().len() == 0 {
                        assert(active.image().len() == 0);
                    }
                }
                if active.torn() {
                    lemma_overwritten(store, ops, 0, location, active.image());
                } else {
                    assert forall|j: int| 0 <= j < ops.len() implies location_of(
                        #[trigger] ops[j],
                    ) != location by {}
                    lemma_untouched(store, ops, location);
                }
            }
        }
    }
}

/// Replay rebuilds the partition: where a byte store holds a partition, the
/// messages that the log file of each segment holds are those of the
/// segment.
pub proof fn lemma_mirror_replays(partition: Partition, store: Map<Location, Seq<u8>>, i: int)
    requires
        partition.wf(),
        partition.mirrored(store),
        0 <= i < partition.segments().len(),
    ensures
        store.dom().contains(partition.log_of(i)),
        records_in(store[partition.log_of(i)], 0, partition.segments()[i].start() as int)
            == partition.segments()[i].records(),
{
    reveal(stores);
    let segment = partition.segments()[i];
    assert(stores(segment, partition.messages()));
    assert(store.dom().contains(partition.log_of(i)));
    if !segment.torn() {
        lemma_replay(segment.records(), segment.start() as int);
    }
}

} // verus!
