use crate::message::{Message, MessageView};
use crate::wire::{
    all_fit, get_u32, get_u64, lemma_list_encoding_at, lemma_list_encoding_concat,
    lemma_list_encoding_grows, lemma_list_encoding_push, lemma_list_item_at, lemma_u64_at,
    lemma_u64_before, lemma_u64_holds, lemma_u64_then, list_at, list_encoding, models,
    put_bytes, put_u64, u64_at, Wire,
};
use vstd::bytes::*;
use vstd::prelude::*;
use vstd::slice::{slice_subrange, slice_to_vec};

verus! {

/// One record of a segment's index: the offset of a message and the position
/// of its record in the segment's log.
#[derive(Clone, Copy, Debug, PartialEq, Eq, Structural)]
pub struct IndexEntry {
    pub offset: u64,
    pub position: u64,
}

impl View for IndexEntry {
    type V = IndexEntry;

    open spec fn view(&self) -> IndexEntry {
        *self
    }
}

impl Wire for IndexEntry {
    open spec fn fits(m: IndexEntry) -> bool {
        true
    }

    /// The offset in eight bytes, then the position in eight.
    open spec fn encoding(m: IndexEntry) -> Seq<u8> {
        spec_u64_to_le_bytes(m.offset) + spec_u64_to_le_bytes(m.position)
    }

    open spec fn parse_at(b: Seq<u8>, pos: int) -> Option<(IndexEntry, int)> {
        if 0 <= pos && pos + 16 <= b.len() {
            Some((IndexEntry { offset: u64_at(b, pos), position: u64_at(b, pos + 8) }, pos + 16))
        } else {
            None
        }
    }

    proof fn lemma_parse_encoding(b: Seq<u8>, pos: int, m: IndexEntry) {
        lemma_auto_spec_u64_to_from_le_bytes();
        lemma_u64_then(b, pos, m.offset, spec_u64_to_le_bytes(m.position));
        lemma_u64_at(b, pos + 8, m.position);
    }

    proof fn lemma_encoding_parse(b: Seq<u8>, pos: int) {
        lemma_u64_holds(b, pos + 8);
        lemma_u64_before(b, pos, spec_u64_to_le_bytes(u64_at(b, pos + 8)));
    }

    fn is_fit(&self) -> (ok: bool) {
        true
    }

    fn put(&self, out: &mut Vec<u8>) {
        put_u64(out, self.offset);
        put_u64(out, self.position);
        assert(out@ =~= old(out)@ + Self::encoding(self@));
    }

    fn get(buf: &[u8], pos: usize) -> (r: Option<(Self, usize)>) {
        let offset = match get_u64(buf, pos) {
            Some(offset) => offset,
            None => { return None; },
        };
        match get_u64(buf, pos + 8) {
            Some(position) => Some((IndexEntry { offset, position }, pos + 16)),
            None => None,
        }
    }
}

/// The records of a batch of payloads whose first message takes the offset
/// `first`: the offsets are consecutive.
pub open spec fn records_of(first: int, payloads: Seq<Seq<u8>>) -> Seq<MessageView> {
    Seq::new(
        payloads.len(),
        |i: int| MessageView { offset: (first + i) as u64, payload: payloads[i] },
    )
}

/// The payloads of records, in their order.
pub open spec fn payloads_of(records: Seq<MessageView>) -> Seq<Seq<u8>> {
    Seq::new(records.len(), |i: int| records[i].payload)
}

/// Where record `k` starts in the encoding of `records`: where the records
/// before it end.
pub open spec fn position_in(records: Seq<MessageView>, k: int) -> int {
    list_encoding::<Message>(records.take(k)).len() as int
}

/// The index of records that are stored from position `base` on: one entry
/// for each record.
pub open spec fn index_of(base: int, records: Seq<MessageView>) -> Seq<IndexEntry> {
    Seq::new(
        records.len(),
        |k: int|
            IndexEntry {
                offset: records[k].offset,
                position: (base + position_in(records, k)) as u64,
            },
    )
}

/// Whether a batch can be stored: the offsets of its messages, and the
/// offset behind them, fit in eight bytes, and so do the positions of its
/// records and the position behind them.
pub open spec fn batch_has_room(first: u64, base: u64, payloads: Seq<Seq<u8>>) -> bool {
    &&& first + payloads.len() <= u64::MAX
    &&& base + list_encoding::<Message>(records_of(first as int, payloads)).len() <= u64::MAX
}

/// A batch as it is stored: its records, their index entries, and where each
/// record starts within the records.
pub struct Batch {
    pub log: Vec<u8>,
    pub index: Vec<u8>,
    pub starts: Vec<usize>,
}

/// Whether `batch` is the stored form of `payloads`, the first of which
/// takes the offset `first` and is stored at `base`.
pub open spec fn is_batch_of(batch: Batch, first: u64, base: u64, payloads: Seq<Seq<u8>>) -> bool {
    let records = records_of(first as int, payloads);
    &&& batch.log@ == list_encoding::<Message>(records)
    &&& batch.index@ == list_encoding::<IndexEntry>(index_of(base as int, records))
    &&& batch.starts@.len() == records.len()
    &&& forall|k: int|
        0 <= k < records.len() ==> #[trigger] batch.starts@[k] == position_in(records, k)
}

/// Gives the messages of a batch consecutive offsets from `first` on and
/// puts them in their stored form, for storing from position `base` on.
/// Gives nothing where the batch cannot be stored.
pub fn encode_batch(first: u64, base: u64, payloads: &Vec<Vec<u8>>) -> (r: Option<Batch>)
    requires
        all_fit::<Vec<u8>>(models(payloads@)),
    ensures
        r is Some <==> batch_has_room(first, base, models(payloads@)),
        r matches Some(batch) ==> is_batch_of(batch, first, base, models(payloads@)),
{
    let ghost records = records_of(first as int, models(payloads@));
    let mut log: Vec<u8> = Vec::new();
    let mut index: Vec<u8> = Vec::new();
    let mut starts: Vec<usize> = Vec::new();
    let n = payloads.len();
    let mut i: usize = 0;
    assert(records.take(0) =~= Seq::<MessageView>::empty());
    assert(index_of(base as int, records).take(0) =~= Seq::<IndexEntry>::empty());
    while i < n
        invariant
            i <= n,
            n == payloads@.len(),
            records == records_of(first as int, models(payloads@)),
            all_fit::<Vec<u8>>(models(payloads@)),
            first + i <= u64::MAX + 1,
            log@ == list_encoding::<Message>(records.take(i as int)),
            index@ == list_encoding::<IndexEntry>(index_of(base as int, records).take(i as int)),
            starts@.len() == i,
            forall|k: int| 0 <= k < i ==> #[trigger] starts@[k] == position_in(records, k),
            forall|k: int| 0 <= k < i ==> base + position_in(records, k) <= u64::MAX,
        decreases n - i,
    {
        proof {
            lemma_list_encoding_grows::<Message>(records, i as int, records.len() as int);
            assert(records.take(records.len() as int) =~= records);
        }
        if first > u64::MAX - (i as u64) {
            return None;
        }
        let offset: u64 = first + i as u64;
        if base > u64::MAX - (log.len() as u64) {
            return None;
        }
        let position: u64 = base + log.len() as u64;
        let entry = IndexEntry { offset, position };
        proof {
            let entries = index_of(base as int, records);
            assert(entries.take(i + 1) =~= entries.take(i as int).push(entries[i as int]));
            lemma_list_encoding_push::<IndexEntry>(entries.take(i as int), entries[i as int]);
            assert(entries[i as int] == entry);
            assert(records.take(i + 1) =~= records.take(i as int).push(records[i as int]));
            lemma_list_encoding_push::<Message>(records.take(i as int), records[i as int]);
            assert(models(payloads@)[i as int] == payloads@[i as int]@);
            assert(<Vec<u8> as Wire>::fits(models(payloads@)[i as int]));
        }
        entry.put(&mut index);
        starts.push(log.len());
        put_u64(&mut log, offset);
        payloads[i].put(&mut log);
        assert(log@ =~= list_encoding::<Message>(records.take(i as int)) + <Message as Wire>::encoding(
            records[i as int],
        ));
        i += 1;
    }
    proof {
        assert(records.take(i as int) =~= records);
        assert(index_of(base as int, records).take(i as int) =~= index_of(base as int, records));
    }
    if first > u64::MAX - (n as u64) || base > u64::MAX - (log.len() as u64) {
        return None;
    }
    Some(Batch { log, index, starts })
}

/// Whether a record with the offset `offset`, which is not the last offset
/// there is, stands in `b` at `pos`.
pub open spec fn record_follows(b: Seq<u8>, pos: int, offset: int) -> bool {
    &&& offset < u64::MAX
    &&& <Message as Wire>::parse_at(b, pos) is Some
    &&& <Message as Wire>::parse_at(b, pos).unwrap().0.offset == offset
}

/// The messages that a log file holds from `pos` on: the whole records that
/// stand there one behind the other with consecutive offsets from `offset`
/// on. What follows them is no part of the log.
pub open spec fn records_in(b: Seq<u8>, pos: int, offset: int) -> Seq<MessageView>
    decreases b.len() - pos,
{
    if record_follows(b, pos, offset) {
        seq![<Message as Wire>::parse_at(b, pos).unwrap().0] + records_in(
            b,
            <Message as Wire>::parse_at(b, pos).unwrap().1,
            offset + 1,
        )
    } else {
        Seq::empty()
    }
}

/// One physical slice of a partition's log: consecutive messages from a
/// start offset on, as the records of one file, with an index of where each
/// record starts. The index may be short of the log: it is then stale.
pub struct Segment {
    start_offset: u64,
    count: u64,
    log: Vec<u8>,
    positions: Vec<usize>,
    closed: bool,
    torn: bool,
    records: Ghost<Seq<MessageView>>,
}

impl Segment {
    /// The offset of the segment's first message.
    pub closed spec fn start(&self) -> u64 {
        self.start_offset
    }

    /// The messages of the segment, in their order.
    pub closed spec fn records(&self) -> Seq<MessageView> {
        self.records@
    }

    /// The number of messages, as the segment counts them.
    pub closed spec fn counted(&self) -> u64 {
        self.count
    }

    /// The bytes of the segment's log file.
    pub closed spec fn image(&self) -> Seq<u8> {
        self.log@
    }

    /// The positions that the index knows: that of the first records.
    pub closed spec fn index(&self) -> Seq<usize> {
        self.positions@
    }

    /// Whether the segment takes no more messages.
    pub closed spec fn closed(&self) -> bool {
        self.closed
    }

    /// Whether the segment's file holds bytes behind the log that are no
    /// whole record: they are cut off when the file is next written.
    pub closed spec fn torn(&self) -> bool {
        self.torn
    }

    /// The offset behind the segment's last message.
    pub open spec fn end(&self) -> int {
        self.start() + self.records().len()
    }

    /// The segment's invariant: the log is the encoding of the messages,
    /// whose offsets are consecutive from the start offset on, and each
    /// position that the index knows is where that record starts.
    pub open spec fn wf(&self) -> bool {
        &&& self.counted() == self.records().len()
        &&& self.end() <= u64::MAX
        &&& all_fit::<Message>(self.records())
        &&& self.image() == list_encoding::<Message>(self.records())
        &&& forall|k: int|
            0 <= k < self.records().len() ==> (#[trigger] self.records()[k]).offset
                == self.start() + k
        &&& self.index().len() <= self.records().len()
        &&& forall|k: int|
            0 <= k < self.index().len() ==> #[trigger] self.index()[k] == position_in(
                self.records(),
                k,
            )
    }

    /// Whether the index covers every record.
    pub open spec fn index_complete(&self) -> bool {
        self.index().len() == self.records().len()
    }

    /// An empty, open segment that starts at `start_offset`.
    pub fn new(start_offset: u64) -> (segment: Segment)
        ensures
            segment.wf(),
            segment.start() == start_offset,
            segment.records() == Seq::<MessageView>::empty(),
            segment.image() == Seq::<u8>::empty(),
            segment.index_complete(),
            !segment.closed(),
            !segment.torn(),
    {
        Segment {
            start_offset,
            count: 0,
            log: Vec::new(),
            positions: Vec::new(),
            closed: false,
            torn: false,
            records: Ghost(Seq::empty()),
        }
    }

    /// The offset of the segment's first message.
    pub fn start_offset(&self) -> (offset: u64)
        ensures
            offset == self.start(),
    {
        self.start_offset
    }

    /// The offset behind the segment's last message.
    pub fn end_offset(&self) -> (offset: u64)
        requires
            self.wf(),
        ensures
            offset == self.end(),
    {
        self.start_offset + self.count
    }

    /// The number of messages in the segment.
    pub fn len(&self) -> (count: u64)
        requires
            self.wf(),
        ensures
            count == self.records().len(),
    {
        self.count
    }

    /// The size of the segment's log in bytes.
    pub fn size(&self) -> (size: usize)
        ensures
            size == self.image().len(),
    {
        self.log.len()
    }

    /// The bytes of the segment's log file.
    pub fn log(&self) -> (bytes: &Vec<u8>)
        ensures
            bytes@ == self.image(),
    {
        &self.log
    }

    /// Whether the segment takes no more messages.
    pub fn is_closed(&self) -> (closed: bool)
        ensures
            closed == self.closed(),
    {
        self.closed
    }

    /// Whether the segment's file holds bytes behind the log that are no
    /// whole record.
    pub fn is_torn(&self) -> (torn: bool)
        ensures
            torn == self.torn(),
    {
        self.torn
    }

    /// Whether the index covers every record.
    pub fn is_index_complete(&self) -> (complete: bool)
        requires
            self.wf(),
        ensures
            complete == self.index_complete(),
    {
        self.positions.len() as u64 == self.count
    }

    /// Closes the segment: from now on it is only read.
    pub fn close(&mut self)
        ensures
            final(self).closed(),
            final(self).start() == old(self).start(),
            final(self).records() == old(self).records(),
            final(self).counted() == old(self).counted(),
            final(self).image() == old(self).image(),
            final(self).index() == old(self).index(),
            final(self).torn() == old(self).torn(),
            old(self).wf() ==> final(self).wf(),
    {
        self.closed = true;
    }

    /// Takes note that the segment's file was written anew from the log in
    /// memory: it is whole.
    pub fn mend(&mut self)
        ensures
            !final(self).torn(),
            final(self).closed() == old(self).closed(),
            final(self).start() == old(self).start(),
            final(self).records() == old(self).records(),
            final(self).counted() == old(self).counted(),
            final(self).image() == old(self).image(),
            final(self).index() == old(self).index(),
            old(self).wf() ==> final(self).wf(),
    {
        self.torn = false;
    }

    /// Appends a batch: its messages take the offsets behind the segment's
    /// last, its records go behind the log, and the index follows where it
    /// was complete. Gives the stored form of the batch, for the files: a
    /// file that was torn is to be written anew, and counts as whole from
    /// now on. Where the batch cannot be stored, gives nothing and changes
    /// nothing.
    pub fn append(&mut self, payloads: &Vec<Vec<u8>>) -> (r: Option<Batch>)
        requires
            old(self).wf(),
            !old(self).closed(),
            all_fit::<Vec<u8>>(models(payloads@)),
        ensures
            final(self).start() == old(self).start(),
            final(self).closed() == old(self).closed(),
            final(self).wf(),
            r is Some <==> batch_has_room(
                old(self).end() as u64,
                old(self).image().len() as u64,
                models(payloads@),
            ),
            r is None ==> *final(self) == *old(self),
            r matches Some(batch) ==> {
                &&& is_batch_of(
                    batch,
                    old(self).end() as u64,
                    old(self).image().len() as u64,
                    models(payloads@),
                )
                &&& final(self).records() == old(self).records() + records_of(
                    old(self).end(),
                    models(payloads@),
                )
                &&& final(self).image() == old(self).image() + batch.log@
                &&& !final(self).torn()
                &&& final(self).index_complete() == old(self).index_complete()
                &&& !old(self).index_complete() ==> final(self).index() == old(self).index()
            },
    {
        let first = self.start_offset + self.count;
        let base = self.log.len();
        let batch = match encode_batch(first, base as u64, payloads) {
            Some(batch) => batch,
            None => { return None; },
        };
        let ghost added = records_of(first as int, models(payloads@));
        let ghost before = self.records@;
        let ghost after = before + added;
        proof {
            lemma_list_encoding_concat::<Message>(before, added);
            assert forall|k: int| 0 <= k < after.len() implies (#[trigger] after[k]).offset
                == self.start_offset + k by {
                if k >= before.len() {
                    assert(after[k] == added[k - before.len()]);
                }
            }
            assert forall|k: int| 0 <= k <= before.len() implies position_in(after, k)
                == position_in(before, k) by {
                assert(after.take(k) =~= before.take(k));
            }
            assert forall|k: int| 0 <= k < added.len() implies position_in(
                after,
                before.len() + k,
            ) == base + position_in(added, k) by {
                assert(after.take(before.len() + k) =~= before + added.take(k));
                lemma_list_encoding_concat::<Message>(before, added.take(k));
            }
            assert(before.take(before.len() as int) =~= before);
            assert forall|i: int| 0 <= i < after.len() implies <Message as Wire>::fits(
                #[trigger] after[i],
            ) by {
                if i >= before.len() {
                    assert(after[i] == added[i - before.len()]);
                    assert(models(payloads@)[i - before.len()] == payloads@[i - before.len()]@);
                    assert(<Vec<u8> as Wire>::fits(models(payloads@)[i - before.len()]));
                } else {
                    assert(after[i] == before[i]);
                }
            }
        }
        let complete = self.positions.len() as u64 == self.count;
        put_bytes(&mut self.log, batch.log.as_slice());
        let size = self.log.len();
        if complete {
            let mut k: usize = 0;
            while k < batch.starts.len()
                invariant
                    k <= batch.starts@.len(),
                    batch.starts@.len() == added.len(),
                    after == before + added,
                    base + list_encoding::<Message>(added).len() == size,
                    forall|j: int|
                        0 <= j < added.len() ==> #[trigger] batch.starts@[j] == position_in(
                            added,
                            j,
                        ),
                    forall|j: int|
                        0 <= j < added.len() ==> position_in(after, before.len() + j) == base
                            + position_in(added, j),
                    self.positions@.len() == before.len() + k,
                    forall|j: int|
                        0 <= j < self.positions@.len() ==> #[trigger] self.positions@[j]
                            == position_in(after, j),
                    self.start_offset == old(self).start_offset,
                    self.count == old(self).count,
                    self.closed == old(self).closed,
                    self.torn == old(self).torn,
                    self.records == old(self).records,
                    self.log@ == old(self).log@ + batch.log@,
                decreases batch.starts@.len() - k,
            {
                proof {
                    lemma_list_encoding_grows::<Message>(added, k as int, added.len() as int);
                    assert(added.take(added.len() as int) =~= added);
                }
                self.positions.push(base + batch.starts[k]);
                k += 1;
            }
        }
        self.count = self.count + payloads.len() as u64;
        self.torn = false;
        self.records = Ghost(after);
        Some(batch)
    }

    /// Whether the first `n` entries of an index file are the index of the
    /// first `n` of the records.
    pub open spec fn index_agrees(index: Seq<u8>, records: Seq<MessageView>, n: nat) -> bool {
        &&& n <= records.len()
        &&& list_at::<IndexEntry>(index, 0, n) is Some
        &&& list_at::<IndexEntry>(index, 0, n).unwrap().0 == index_of(0, records).take(n as int)
    }

    /// Rebuilds a segment from the bytes of its two files. The log is read
    /// record by record for as long as whole records with consecutive
    /// offsets from `start_offset` on stand there; what follows them is
    /// left out, and the segment is then torn. Of the index, the leading
    /// entries that agree with the log are kept; where they are fewer than
    /// the records, the index is stale.
    pub fn recover(start_offset: u64, log: &[u8], index: &[u8]) -> (segment: Segment)
        ensures
            segment.wf(),
            segment.start() == start_offset,
            !segment.closed(),
            segment.records() == records_in(log@, 0, start_offset as int),
            segment.image().len() <= log@.len(),
            segment.image() == log@.take(segment.image().len() as int),
            !record_follows(log@, segment.image().len() as int, segment.end()),
            segment.torn() == (segment.image().len() < log@.len()),
            Self::index_agrees(index@, segment.records(), segment.index().len()),
            !segment.index_complete() ==> !Self::index_agrees(
                index@,
                segment.records(),
                segment.index().len() + 1,
            ),
    {
        let ghost file = log@;
        let mut count: u64 = 0;
        let mut at: usize = 0;
        let mut positions: Vec<usize> = Vec::new();
        let mut index_at: usize = 0;
        let mut agrees: bool = true;
        let ghost mut records: Seq<MessageView> = Seq::empty();
        assert(index_of(0, records).take(0) =~= Seq::<IndexEntry>::empty());
        assert(records + records_in(file, 0, start_offset as int) =~= records_in(
            file,
            0,
            start_offset as int,
        ));
        loop
            invariant
                log@ == file,
                at <= file.len(),
                0 <= index_at <= index@.len(),
                start_offset + count <= u64::MAX,
                records.len() == count,
                list_at::<Message>(file, 0, count as nat) == Some((records, at as int)),
                forall|k: int| 0 <= k < count ==> (#[trigger] records[k]).offset == start_offset + k,
                positions@.len() <= count,
                agrees ==> positions@.len() == count,
                forall|k: int|
                    0 <= k < positions@.len() ==> #[trigger] positions@[k] == position_in(records, k),
                list_at::<IndexEntry>(index@, 0, positions@.len() as nat) == Some(
                    (index_of(0, records).take(positions@.len() as int), index_at as int),
                ),
                records_in(file, 0, start_offset as int) == records + records_in(
                    file,
                    at as int,
                    start_offset + count,
                ),
                !agrees ==> positions@.len() < count,
                !agrees ==> !Self::index_agrees(index@, records, (positions@.len() + 1) as nat),
            ensures
                !record_follows(file, at as int, start_offset + count),
            decreases file.len() - at,
        {
            if start_offset >= u64::MAX - count {
                break ;
            }
            let offset = match get_u64(log, at) {
                Some(offset) => offset,
                None => { break ; },
            };
            if offset != start_offset + count {
                break ;
            }
            let end = match record_end(log, at) {
                Some(end) => end,
                None => { break ; },
            };
            let ghost record = <Message as Wire>::parse_at(file, at as int).unwrap().0;
            let ghost longer = records.push(record);
            proof {
                <Message as Wire>::lemma_encoding_parse(file, at as int);
                lemma_list_encoding_at::<Message>(file, 0, count as nat);
                assert(records + (seq![record] + records_in(file, end as int, start_offset + count + 1))
                    =~= longer + records_in(file, end as int, start_offset + count + 1));
                lemma_list_encoding_push::<Message>(records, record);
                assert forall|k: int| 0 <= k <= count implies position_in(longer, k)
                    == position_in(records, k) by {
                    assert(longer.take(k) =~= records.take(k));
                }
                assert(records.take(count as int) =~= records);
                assert(index_of(0, longer).take(positions@.len() as int) =~= index_of(
                    0,
                    records,
                ).take(positions@.len() as int));
                if !agrees {
                    assert(index_of(0, longer).take(positions@.len() as int + 1) =~= index_of(
                        0,
                        records,
                    ).take(positions@.len() as int + 1));
                }
            }
            if agrees {
                let entry = IndexEntry::get(index, index_at);
                let ghost known = positions@.len();
                match entry {
                    Some((entry, next)) => {
                        if entry.offset == offset && entry.position == at as u64 {
                            positions.push(at);
                            index_at = next;
                            proof {
                                assert(index_of(0, longer).take(known as int + 1) =~= index_of(
                                    0,
                                    longer,
                                ).take(known as int).push(entry));
                            }
                        } else {
                            agrees = false;
                            proof {
                                assert(index_of(0, longer).take(known as int + 1)[known as int]
                                    != entry);
                            }
                        }
                    },
                    None => {
                        agrees = false;
                    },
                }
            }
            count += 1;
            at = end;
            proof {
                records = longer;
            }
        }
        proof {
            lemma_list_encoding_at::<Message>(file, 0, count as nat);
            assert(file.take(at as int) =~= file.subrange(0, at as int));
            assert(records + Seq::<MessageView>::empty() =~= records);
        }
        let torn = at < log.len();
        Segment {
            start_offset,
            count,
            log: slice_to_vec(slice_subrange(log, 0, at)),
            positions,
            closed: false,
            torn,
            records: Ghost(records),
        }
    }

    /// How many messages a read takes that asks for `limit` messages from
    /// the offset `from` on: as many as the segment has from there, at most.
    pub open spec fn available(&self, from: u64, limit: u64) -> int {
        if from >= self.end() {
            0
        } else if self.end() - from < limit {
            self.end() - from
        } else {
            limit as int
        }
    }

    /// The messages that a read takes that asks for `limit` messages from
    /// the offset `from` on.
    pub open spec fn slice(&self, from: u64, limit: u64) -> Seq<MessageView> {
        if from >= self.end() {
            Seq::empty()
        } else {
            self.records().subrange(
                from - self.start(),
                from - self.start() + self.available(from, limit),
            )
        }
    }

    /// Appends to `out` up to `limit` messages of the segment, from the
    /// offset `from` on, in their order, and gives their number. The index
    /// gives the position of the first; where the index does not reach that
    /// far, the records are walked from the last position that it knows.
    pub fn read(&self, from: u64, limit: u64, out: &mut Vec<Message>) -> (taken: u64)
        requires
            self.wf(),
            self.start() <= from,
        ensures
            taken == self.available(from, limit),
            models(final(out)@) == models(old(out)@) + self.slice(from, limit),
    {
        let ghost records = self.records@;
        let first = from - self.start_offset;
        if first >= self.count || limit == 0 {
            assert(models(out@) =~= models(old(out)@) + self.slice(from, limit));
            return 0;
        }
        let last: u64 = if limit < self.count - first {
            first + limit
        } else {
            self.count
        };
        let known = self.positions.len();
        let mut i: u64 = 0;
        let mut at: usize = 0;
        if first < known as u64 {
            i = first;
            at = self.positions[first as usize];
        } else if known > 0 {
            i = (known - 1) as u64;
            at = self.positions[known - 1];
        } else {
            assert(records.take(0) =~= Seq::<MessageView>::empty());
        }
        while i < first
            invariant
                self.wf(),
                records == self.records(),
                i <= first < self.count,
                at == position_in(records, i as int),
            decreases first - i,
        {
            proof {
                lemma_list_item_at::<Message>(records, i as int);
            }
            match record_end(self.log.as_slice(), at) {
                Some(end) => {
                    at = end;
                },
                None => {},
            }
            i += 1;
        }
        assert(models(out@) =~= models(old(out)@) + records.subrange(first as int, i as int));
        while i < last
            invariant
                self.wf(),
                records == self.records(),
                first <= i <= last <= self.count,
                at == position_in(records, i as int),
                models(out@) == models(old(out)@) + records.subrange(first as int, i as int),
            decreases last - i,
        {
            proof {
                lemma_list_item_at::<Message>(records, i as int);
            }
            match Message::get(self.log.as_slice(), at) {
                Some((message, end)) => {
                    proof {
                        assert(models(out@.push(message)) =~= models(out@).push(message@));
                        assert(records.subrange(first as int, i + 1) =~= records.subrange(
                            first as int,
                            i as int,
                        ).push(records[i as int]));
                    }
                    out.push(message);
                    at = end;
                },
                None => {},
            }
            i += 1;
        }
        last - first
    }
}

/// The position behind the record at `pos`, if a whole record stands there.
pub fn record_end(buf: &[u8], pos: usize) -> (r: Option<usize>)
    ensures
        r is Some <==> <Message as Wire>::parse_at(buf@, pos as int) is Some,
        r matches Some(end) ==> <Message as Wire>::parse_at(buf@, pos as int).unwrap().1 == end,
{
    if buf.len() < 8 || pos > buf.len() - 8 {
        return None;
    }
    let n: usize = match get_u32(buf, pos + 8) {
        Some(n) => n as usize,
        None => { return None; },
    };
    if n > buf.len() - pos - 12 {
        return None;
    }
    Some(pos + 12 + n)
}

/// Replay gives back what was stored: from the encoding of messages with
/// consecutive offsets, the messages are read back as they were.
pub proof fn lemma_replay(records: Seq<MessageView>, start: int)
    requires
        0 <= start,
        start + records.len() <= u64::MAX,
        all_fit::<Message>(records),
        forall|k: int| 0 <= k < records.len() ==> (#[trigger] records[k]).offset == start + k,
    ensures
        records_in(list_encoding::<Message>(records), 0, start) == records,
{
    assert(records.take(0) =~= Seq::<MessageView>::empty());
    lemma_replay_from(records, start, 0);
    assert(records.skip(0) =~= records);
}

/// From where message `k` stands in the encoding of messages with
/// consecutive offsets, the messages from `k` on are read back.
pub proof fn lemma_replay_from(records: Seq<MessageView>, start: int, k: int)
    requires
        0 <= start,
        start + records.len() <= u64::MAX,
        all_fit::<Message>(records),
        forall|i: int| 0 <= i < records.len() ==> (#[trigger] records[i]).offset == start + i,
        0 <= k <= records.len(),
    ensures
        records_in(list_encoding::<Message>(records), position_in(records, k), start + k)
            == records.skip(k),
    decreases records.len() - k,
{
    let b = list_encoding::<Message>(records);
    if k == records.len() {
        assert(records.take(k) =~= records);
        assert(records.skip(k) =~= Seq::<MessageView>::empty());
    } else {
        lemma_list_item_at::<Message>(records, k);
        lemma_replay_from(records, start, k + 1);
        assert(seq![records[k]] + records.skip(k + 1) =~= records.skip(k));
    }
}

/// The number of bytes that payloads take as records: for each, twelve
/// bytes of offset and length, and the payload.
pub open spec fn stored_size(payloads: Seq<Seq<u8>>) -> nat
    decreases payloads.len(),
{
    if payloads.len() == 0 {
        0
    } else {
        stored_size(payloads.drop_last()) + 12 + payloads.last().len()
    }
}

/// The encoding of records is as long as their stored size.
pub proof fn lemma_encoding_size(records: Seq<MessageView>)
    ensures
        list_encoding::<Message>(records).len() == stored_size(payloads_of(records)),
    decreases records.len(),
{
    lemma_auto_spec_u32_to_from_le_bytes();
    lemma_auto_spec_u64_to_from_le_bytes();
    if records.len() > 0 {
        lemma_encoding_size(records.drop_last());
        assert(payloads_of(records).drop_last() =~= payloads_of(records.drop_last()));
    }
}

/// The stored size of payloads is the sum of the stored sizes of its parts.
pub proof fn lemma_stored_size_concat(first: Seq<Seq<u8>>, second: Seq<Seq<u8>>)
    ensures
        stored_size(first + second) == stored_size(first) + stored_size(second),
    decreases second.len(),
{
    if second.len() == 0 {
        assert(first + second =~= first);
    } else {
        lemma_stored_size_concat(first, second.drop_last());
        assert((first + second).drop_last() =~= first + second.drop_last());
    }
}

} // verus!
