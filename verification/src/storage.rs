use crate::persister::{Persister, Stage, Verb, WriteJob, WriteJobView};
use vstd::prelude::*;
use vstd::string::StringExecFns;

verus! {

/// A persisted byte range of the broker: the catalog file, or the log or the
/// index of the segment of a partition that starts at an offset.
#[derive(Clone, Copy, Debug, PartialEq, Eq, Structural)]
pub enum Location {
    Catalog,
    Log { stream_id: u32, topic_id: u32, partition_id: u32, start_offset: u64 },
    Index { stream_id: u32, topic_id: u32, partition_id: u32, start_offset: u64 },
}

/// What the host is to do to a persisted byte range: extend it, replace its
/// whole content, or remove it.
pub enum StorageOp {
    Append { location: Location, bytes: Vec<u8> },
    Overwrite { location: Location, bytes: Vec<u8> },
    Remove { location: Location },
}

/// What a `StorageOp` stands for.
pub enum StorageOpView {
    Append { location: Location, bytes: Seq<u8> },
    Overwrite { location: Location, bytes: Seq<u8> },
    Remove { location: Location },
}

impl View for StorageOp {
    type V = StorageOpView;

    open spec fn view(&self) -> StorageOpView {
        match self {
            StorageOp::Append { location, bytes } => StorageOpView::Append {
                location: *location,
                bytes: bytes@,
            },
            StorageOp::Overwrite { location, bytes } => StorageOpView::Overwrite {
                location: *location,
                bytes: bytes@,
            },
            StorageOp::Remove { location } => StorageOpView::Remove { location: *location },
        }
    }
}

/// What each operation of `ops` stands for, in their order.
pub open spec fn op_views(ops: Seq<StorageOp>) -> Seq<StorageOpView> {
    Seq::new(ops.len(), |i: int| ops[i]@)
}

impl StorageOp {
    /// Whether the operations behind this one are left undone where this
    /// one fails: a write that failed ends the change, a removal that failed
    /// leaves a file behind and the change goes on.
    pub fn ends_on_failure(&self) -> (ends: bool)
        ensures
            ends == !(self@ is Remove),
    {
        match self {
            StorageOp::Remove { .. } => false,
            _ => true,
        }
    }

    /// The byte range that the operation is about.
    pub fn location(&self) -> (location: Location)
        ensures
            location == match self@ {
                StorageOpView::Append { location, .. } => location,
                StorageOpView::Overwrite { location, .. } => location,
                StorageOpView::Remove { location } => location,
            },
    {
        match self {
            StorageOp::Append { location, .. } => *location,
            StorageOp::Overwrite { location, .. } => *location,
            StorageOp::Remove { location } => *location,
        }
    }
}

/// The character that stands for a digit.
pub open spec fn digit(d: nat) -> char {
    if d == 0 {
        '0'
    } else if d == 1 {
        '1'
    } else if d == 2 {
        '2'
    } else if d == 3 {
        '3'
    } else if d == 4 {
        '4'
    } else if d == 5 {
        '5'
    } else if d == 6 {
        '6'
    } else if d == 7 {
        '7'
    } else if d == 8 {
        '8'
    } else {
        '9'
    }
}

/// A number in decimal digits, without a sign or leading zeros.
pub open spec fn decimal(n: nat) -> Seq<char>
    decreases n,
{
    if n < 10 {
        seq![digit(n)]
    } else {
        decimal(n / 10).push(digit(n % 10))
    }
}

/// Calls `to_string` on an unsigned integer: the number in decimal digits,
/// without a sign or leading zeros.
#[verifier::external_body]
pub(crate) fn decimal_string(n: u64) -> (text: String)
    ensures
        text@ == decimal(n as nat),
{
    n.to_string()
}

/// The directory of a partition, below the root of the byte store.
pub open spec fn partition_path(stream_id: u32, topic_id: u32, partition_id: u32) -> Seq<char> {
    "streams/"@ + decimal(stream_id as nat) + "/topics/"@ + decimal(topic_id as nat)
        + "/partitions/"@ + decimal(partition_id as nat) + "/"@
}

/// The path of a byte range below the root of the byte store: `catalog`
/// for the catalog file, and for the files of a segment the partition's
/// directory, the start offset and `.log` or `.index`.
pub open spec fn path_of(location: Location) -> Seq<char> {
    match location {
        Location::Catalog => "catalog"@,
        Location::Log { stream_id, topic_id, partition_id, start_offset } => partition_path(
            stream_id,
            topic_id,
            partition_id,
        ) + decimal(start_offset as nat) + ".log"@,
        Location::Index { stream_id, topic_id, partition_id, start_offset } => partition_path(
            stream_id,
            topic_id,
            partition_id,
        ) + decimal(start_offset as nat) + ".index"@,
    }
}

/// The directory of a partition, below the root of the byte store.
fn partition_directory(stream_id: u32, topic_id: u32, partition_id: u32) -> (path: String)
    ensures
        path@ == partition_path(stream_id, topic_id, partition_id),
{
    let mut path = "streams/".to_owned();
    path.append(decimal_string(stream_id as u64).as_str());
    path.append("/topics/");
    path.append(decimal_string(topic_id as u64).as_str());
    path.append("/partitions/");
    path.append(decimal_string(partition_id as u64).as_str());
    path.append("/");
    path
}

impl Location {
    /// The path of the byte range below the root of the byte store.
    pub fn path(&self) -> (path: String)
        ensures
            path@ == path_of(*self),
    {
        match self {
            Location::Catalog => "catalog".to_owned(),
            Location::Log { stream_id, topic_id, partition_id, start_offset } => {
                let mut path = partition_directory(*stream_id, *topic_id, *partition_id);
                path.append(decimal_string(*start_offset).as_str());
                path.append(".log");
                path
            },
            Location::Index { stream_id, topic_id, partition_id, start_offset } => {
                let mut path = partition_directory(*stream_id, *topic_id, *partition_id);
                path.append(decimal_string(*start_offset).as_str());
                path.append(".index");
                path
            },
        }
    }
}

/// The path of a byte range of a byte store whose files lie under `root`.
pub open spec fn path_under(root: Seq<char>, location: Location) -> Seq<char> {
    root + "/"@ + path_of(location)
}

/// The path of a byte range of a byte store whose files lie under `root`.
pub fn rooted_path(root: &str, location: &Location) -> (path: String)
    ensures
        path@ == path_under(root@, *location),
{
    let mut path = root.to_owned();
    path.append("/");
    path.append(location.path().as_str());
    path
}

/// The write that an operation asks of a persister whose files lie under
/// `root`, as the job stands before its first step: none for a removal,
/// which is no write.
pub open spec fn job_of(op: StorageOpView, root: Seq<char>, synced: bool) -> Option<WriteJobView> {
    match op {
        StorageOpView::Append { location, bytes } => Some(
            WriteJobView {
                path: path_under(root, location),
                bytes,
                verb: Verb::Append,
                synced,
                stage: Stage::Open,
            },
        ),
        StorageOpView::Overwrite { location, bytes } => Some(
            WriteJobView {
                path: path_under(root, location),
                bytes,
                verb: Verb::Overwrite,
                synced,
                stage: Stage::Open,
            },
        ),
        StorageOpView::Remove { .. } => None,
    }
}

/// Hands a storage operation to the persister: an append or an overwrite
/// becomes a write at the path of its location under `root`; a removal is
/// no write.
pub fn start_write<P: Persister>(persister: &P, root: &str, op: &StorageOp) -> (r: Option<WriteJob>)
    ensures
        r is Some <==> job_of(op@, root@, persister.synced()) is Some,
        r matches Some(job) ==> Some(job@) == job_of(op@, root@, persister.synced()),
{
    match op {
        StorageOp::Append { location, bytes } => {
            let path = rooted_path(root, location);
            Some(persister.append(path.as_str(), bytes.as_slice()))
        },
        StorageOp::Overwrite { location, bytes } => {
            let path = rooted_path(root, location);
            Some(persister.overwrite(path.as_str(), bytes.as_slice()))
        },
        StorageOp::Remove { .. } => None,
    }
}

/// The byte range that an operation is about.
pub open spec fn location_of(op: StorageOpView) -> Location {
    match op {
        StorageOpView::Append { location, .. } => location,
        StorageOpView::Overwrite { location, .. } => location,
        StorageOpView::Remove { location } => location,
    }
}

/// What a byte store holds once it has taken an operation, given what it
/// held before: the content of each byte range that exists. An append to a
/// range that does not exist creates it.
pub open spec fn after_op(store: Map<Location, Seq<u8>>, op: StorageOpView) -> Map<
    Location,
    Seq<u8>,
> {
    match op {
        StorageOpView::Append { location, bytes } => store.insert(
            location,
            (if store.dom().contains(location) {
                store[location]
            } else {
                Seq::empty()
            }) + bytes,
        ),
        StorageOpView::Overwrite { location, bytes } => store.insert(location, bytes),
        StorageOpView::Remove { location } => store.remove(location),
    }
}

/// What a byte store holds once it has taken operations in their order.
pub open spec fn after_ops(store: Map<Location, Seq<u8>>, ops: Seq<StorageOpView>) -> Map<
    Location,
    Seq<u8>,
>
    decreases ops.len(),
{
    if ops.len() == 0 {
        store
    } else {
        after_op(after_ops(store, ops.drop_last()), ops.last())
    }
}

/// To take operations and then others is to take them all in their order.
pub proof fn lemma_after_ops_concat(
    store: Map<Location, Seq<u8>>,
    first: Seq<StorageOpView>,
    second: Seq<StorageOpView>,
)
    ensures
        after_ops(store, first + second) == after_ops(after_ops(store, first), second),
    decreases second.len(),
{
    if second.len() == 0 {
        assert(first + second =~= first);
    } else {
        lemma_after_ops_concat(store, first, second.drop_last());
        assert((first + second).drop_last() =~= first + second.drop_last());
    }
}

/// Operations leave alone every byte range that none of them is about.
pub proof fn lemma_untouched(
    store: Map<Location, Seq<u8>>,
    ops: Seq<StorageOpView>,
    location: Location,
)
    requires
        forall|k: int| 0 <= k < ops.len() ==> location_of(#[trigger] ops[k]) != location,
    ensures
        after_ops(store, ops).dom().contains(location) == store.dom().contains(location),
        store.dom().contains(location) ==> after_ops(store, ops)[location] == store[location],
    decreases ops.len(),
{
    if ops.len() > 0 {
        assert forall|k: int| 0 <= k < ops.drop_last().len() implies location_of(
            #[trigger] ops.drop_last()[k],
        ) != location by {
            assert(ops.drop_last()[k] == ops[k]);
        }
        lemma_untouched(store, ops.drop_last(), location);
        assert(location_of(ops[ops.len() - 1]) != location);
    }
}

/// A byte range holds what it was last overwritten with, where no later
/// operation is about it.
pub proof fn lemma_overwritten(
    store: Map<Location, Seq<u8>>,
    ops: Seq<StorageOpView>,
    k: int,
    location: Location,
    bytes: Seq<u8>,
)
    requires
        0 <= k < ops.len(),
        ops[k] == (StorageOpView::Overwrite { location, bytes }),
        forall|j: int| k < j < ops.len() ==> location_of(#[trigger] ops[j]) != location,
    ensures
        after_ops(store, ops).dom().contains(location),
        after_ops(store, ops)[location] == bytes,
{
    let front = ops.take(k + 1);
    let back = ops.skip(k + 1);
    assert(ops =~= front + back);
    lemma_after_ops_concat(store, front, back);
    assert(front.last() == ops[k]);
    assert forall|j: int| 0 <= j < back.len() implies location_of(#[trigger] back[j])
        != location by {
        assert(back[j] == ops[k + 1 + j]);
    }
    lemma_untouched(after_ops(store, front), back, location);
}

} // verus!
