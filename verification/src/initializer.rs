use crate::command::{Command, CommandView, CreateStream, CreateTopic};
use crate::storage::{decimal, decimal_string};
use crate::stream::{Stream, StreamView};
use crate::wire::models;
use vstd::prelude::*;
use vstd::string::StringExecFns;

verus! {

/// The topic that each test stream gets.
pub const TEST_TOPIC_ID: u32 = 1;

/// The number of partitions of that topic.
pub const TEST_PARTITIONS_COUNT: u32 = 1;

/// The name of the test stream with the identifier.
pub open spec fn stream_name(id: u32) -> Seq<char> {
    "stream "@ + decimal(id as nat)
}

/// The name of the test topic with the identifier.
pub open spec fn topic_name(id: u32) -> Seq<char> {
    "topic "@ + decimal(id as nat)
}

/// Whether a listing shows a stream with the identifier.
pub open spec fn listed(existing: Seq<StreamView>, id: u32) -> bool {
    exists|i: int| 0 <= i < existing.len() && (#[trigger] existing[i]).id == id
}

/// The commands that create one test stream and its topic.
pub open spec fn creation_of(stream_id: u32) -> Seq<CommandView> {
    seq![
        CommandView::CreateStream { stream_id, name: stream_name(stream_id) },
        CommandView::CreateTopic {
            stream_id,
            topic_id: TEST_TOPIC_ID,
            partitions_count: TEST_PARTITIONS_COUNT,
            name: topic_name(TEST_TOPIC_ID),
        },
    ]
}

/// The commands that make sure that the test streams `start + 1` to
/// `start + n` exist, with one topic each: for each of them that the
/// listing does not show, in rising order, the stream is created and then
/// its topic.
pub open spec fn init_plan(start: u32, n: nat, existing: Seq<StreamView>) -> Seq<CommandView>
    decreases n,
{
    if n == 0 {
        Seq::empty()
    } else if listed(existing, (start + n) as u32) {
        init_plan(start, (n - 1) as nat, existing)
    } else {
        init_plan(start, (n - 1) as nat, existing) + creation_of((start + n) as u32)
    }
}

/// What each command of `commands` stands for, in their order.
pub open spec fn command_views(commands: Seq<Command>) -> Seq<CommandView> {
    Seq::new(commands.len(), |i: int| commands[i]@)
}

/// Whether the listing shows a stream with the identifier.
pub fn is_listed(existing: &Vec<Stream>, id: u32) -> (found: bool)
    ensures
        found == listed(models(existing@), id),
{
    let mut i: usize = 0;
    while i < existing.len()
        invariant
            i <= existing@.len(),
            forall|k: int| 0 <= k < i ==> (#[trigger] models(existing@)[k]).id != id,
        decreases existing@.len() - i,
    {
        if existing[i].id == id {
            assert(models(existing@)[i as int].id == id);
            return true;
        }
        i += 1;
    }
    false
}

/// The commands that make sure that the test streams exist, given the
/// listing of the streams that exist already: `streams` streams, with the
/// identifiers that follow `start_stream_id`, each with one topic of one
/// partition. The caller sends them in their order and stops at the first
/// that fails.
pub fn init_streams(start_stream_id: u32, streams: u32, existing: &Vec<Stream>) -> (commands: Vec<
    Command,
>)
    requires
        start_stream_id + streams <= u32::MAX,
    ensures
        command_views(commands@) == init_plan(start_stream_id, streams as nat, models(existing@)),
{
    let mut commands: Vec<Command> = Vec::new();
    let mut i: u32 = 0;
    assert(command_views(commands@) =~= init_plan(start_stream_id, 0, models(existing@)));
    while i < streams
        invariant
            i <= streams,
            start_stream_id + streams <= u32::MAX,
            command_views(commands@) == init_plan(start_stream_id, i as nat, models(existing@)),
        decreases streams - i,
    {
        i += 1;
        let stream_id = start_stream_id + i;
        if !is_listed(existing, stream_id) {
            let mut name = "stream ".to_owned();
            name.append(decimal_string(stream_id as u64).as_str());
            let create_stream = Command::CreateStream(CreateStream { stream_id, name });
            let mut name = "topic ".to_owned();
            name.append(decimal_string(TEST_TOPIC_ID as u64).as_str());
            let create_topic = Command::CreateTopic(
                CreateTopic {
                    stream_id,
                    topic_id: TEST_TOPIC_ID,
                    partitions_count: TEST_PARTITIONS_COUNT,
                    name,
                },
            );
            proof {
                let before = command_views(commands@);
                assert(command_views(commands@.push(create_stream).push(create_topic)) =~= before
                    + creation_of(stream_id));
            }
            commands.push(create_stream);
            commands.push(create_topic);
        }
    }
    commands
}

} // verus!
