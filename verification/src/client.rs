use crate::command::{
    AppendMessages, Command, CommandView, CreateStream, CreateTopic, DeleteStream, GetStream,
    GetStreams,
    ReadMessages,
};
use crate::error::Error;
use crate::frame::{frame_fits, frame_of, from_frame, lemma_unframe_frame, unframe};
use crate::message::Message;
use crate::response::{
    failed, lemma_failure_travels, reply_of, result_of, Appended, Counted, Empty, Response,
    ResponseView,
};
use crate::stream::{Stream, StreamDetails};
use crate::wire::{models, Wire};
use vstd::prelude::*;

verus! {

/// What a frame that came back means to the client: the result or the error
/// that it carries, and `ProtocolError` where it is no response.
pub open spec fn reply_meaning<T: Wire>(frame: Seq<u8>) -> Result<T::V, Error> {
    match unframe::<Response<T>>(frame) {
        Some(response) => result_of(response),
        None => Err(Error::ProtocolError),
    }
}

/// What the server answers is what the client reads: a response that can
/// travel is read back as its result or its error, and one that cannot is
/// read as `ProtocolError`.
pub proof fn lemma_reply_is_read<T: Wire>(m: ResponseView<T::V>)
    ensures
        reply_meaning::<T>(reply_of::<T>(m)) == (if frame_fits::<Response<T>>(m) {
            result_of(m)
        } else {
            Err(Error::ProtocolError)
        }),
{
    if frame_fits::<Response<T>>(m) {
        lemma_unframe_frame::<Response<T>>(m);
    } else {
        lemma_failure_travels::<T>(Error::ProtocolError);
        lemma_unframe_frame::<Response<T>>(failed::<T::V>(Error::ProtocolError));
    }
}

/// Reads the frame that came back for a command: the result, the error that
/// the server reports, or `ProtocolError` where the frame is no response.
pub fn read_reply<T: Wire>(frame: &[u8]) -> (r: Result<T, Error>)
    ensures
        match reply_meaning::<T>(frame@) {
            Ok(value) => r matches Ok(x) && x@ == value,
            Err(error) => r matches Err(e) && e == error,
        },
{
    match from_frame::<Response<T>>(frame) {
        Ok(response) => response.into_result(),
        Err(error) => Err(error),
    }
}

/// The frame that asks for one stream.
pub fn get_stream_request(command: &GetStream) -> (bytes: Vec<u8>)
    ensures
        bytes@ == frame_of::<Command>(
            CommandView::GetStream { stream_id: command.stream_id },
        ),
{
    proof {
        lemma_fixed_commands_travel(command.stream_id);
    }
    Command::GetStream(GetStream { stream_id: command.stream_id }).encode()
}

/// The frame that asks for the list of streams.
pub fn get_streams_request(command: &GetStreams) -> (bytes: Vec<u8>)
    ensures
        bytes@ == frame_of::<Command>(CommandView::GetStreams),
{
    proof {
        lemma_fixed_commands_travel(0);
    }
    Command::GetStreams(GetStreams {  }).encode()
}

/// The frame that asks for a stream to be created; nothing where the name
/// is too long to travel.
pub fn create_stream_request(command: &CreateStream) -> (r: Option<Vec<u8>>)
    ensures
        r is Some <==> frame_fits::<Command>(
            CommandView::CreateStream { stream_id: command.stream_id, name: command.name@ },
        ),
        r matches Some(bytes) ==> bytes@ == frame_of::<Command>(
            CommandView::CreateStream { stream_id: command.stream_id, name: command.name@ },
        ),
{
    Command::CreateStream(
        CreateStream { stream_id: command.stream_id, name: command.name.clone() },
    ).try_encode()
}

/// The frame that asks for a stream to be deleted.
pub fn delete_stream_request(command: &DeleteStream) -> (bytes: Vec<u8>)
    ensures
        bytes@ == frame_of::<Command>(
            CommandView::DeleteStream { stream_id: command.stream_id },
        ),
{
    proof {
        lemma_fixed_commands_travel(command.stream_id);
    }
    Command::DeleteStream(DeleteStream { stream_id: command.stream_id }).encode()
}

/// The frame that asks for a topic to be created; nothing where the name is
/// too long to travel.
pub fn create_topic_request(command: &CreateTopic) -> (r: Option<Vec<u8>>)
    ensures
        r is Some <==> frame_fits::<Command>(
            CommandView::CreateTopic {
                stream_id: command.stream_id,
                topic_id: command.topic_id,
                partitions_count: command.partitions_count,
                name: command.name@,
            },
        ),
        r matches Some(bytes) ==> bytes@ == frame_of::<Command>(
            CommandView::CreateTopic {
                stream_id: command.stream_id,
                topic_id: command.topic_id,
                partitions_count: command.partitions_count,
                name: command.name@,
            },
        ),
{
    Command::CreateTopic(
        CreateTopic {
            stream_id: command.stream_id,
            topic_id: command.topic_id,
            partitions_count: command.partitions_count,
            name: command.name.clone(),
        },
    ).try_encode()
}

/// The commands of a fixed size can always travel.
pub proof fn lemma_fixed_commands_travel(stream_id: u32)
    ensures
        frame_fits::<Command>(CommandView::GetStreams),
        frame_fits::<Command>(CommandView::GetStream { stream_id }),
        frame_fits::<Command>(CommandView::DeleteStream { stream_id }),
{
    vstd::bytes::lemma_auto_spec_u32_to_from_le_bytes();
}

/// Reads the answer to a query for one stream.
pub fn get_stream_response(frame: &[u8]) -> (r: Result<StreamDetails, Error>)
    ensures
        match reply_meaning::<StreamDetails>(frame@) {
            Ok(value) => r matches Ok(x) && x@ == value,
            Err(error) => r matches Err(e) && e == error,
        },
{
    read_reply::<StreamDetails>(frame)
}

/// Reads the answer to a query for the list of streams.
pub fn get_streams_response(frame: &[u8]) -> (r: Result<Vec<Stream>, Error>)
    ensures
        match reply_meaning::<Counted<Stream>>(frame@) {
            Ok(value) => r matches Ok(x) && models(x@) == value,
            Err(error) => r matches Err(e) && e == error,
        },
{
    match read_reply::<Counted<Stream>>(frame) {
        Ok(list) => Ok(list.items),
        Err(error) => Err(error),
    }
}

/// Reads the answer to a command that gives nothing back: to create a
/// stream or a topic, or to delete a stream.
pub fn done_response(frame: &[u8]) -> (r: Result<(), Error>)
    ensures
        match reply_meaning::<Empty>(frame@) {
            Ok(_) => r is Ok,
            Err(error) => r matches Err(e) && e == error,
        },
{
    match read_reply::<Empty>(frame) {
        Ok(_) => Ok(()),
        Err(error) => Err(error),
    }
}

/// The frame that asks for messages to be appended; nothing where the
/// messages cannot travel in one frame.
pub fn append_messages_request(command: &AppendMessages) -> (r: Option<Vec<u8>>)
    ensures
        r is Some <==> frame_fits::<Command>(
            CommandView::AppendMessages {
                stream_id: command.stream_id,
                topic_id: command.topic_id,
                partition_id: command.partition_id,
                messages: models(command.messages@),
            },
        ),
        r matches Some(bytes) ==> bytes@ == frame_of::<Command>(
            CommandView::AppendMessages {
                stream_id: command.stream_id,
                topic_id: command.topic_id,
                partition_id: command.partition_id,
                messages: models(command.messages@),
            },
        ),
{
    let mut messages: Vec<Vec<u8>> = Vec::new();
    let mut i: usize = 0;
    while i < command.messages.len()
        invariant
            i <= command.messages@.len(),
            messages@.len() == i,
            forall|k: int| 0 <= k < i ==> (#[trigger] messages@[k])@ == command.messages@[k]@,
        decreases command.messages@.len() - i,
    {
        messages.push(vstd::slice::slice_to_vec(command.messages[i].as_slice()));
        i += 1;
    }
    assert(models(messages@) =~= models(command.messages@));
    Command::AppendMessages(
        AppendMessages {
            stream_id: command.stream_id,
            topic_id: command.topic_id,
            partition_id: command.partition_id,
            messages,
        },
    ).try_encode()
}

/// Reads the answer to an append: the offset of the first message and the
/// number of messages.
pub fn append_messages_response(frame: &[u8]) -> (r: Result<Appended, Error>)
    ensures
        match reply_meaning::<Appended>(frame@) {
            Ok(value) => r matches Ok(x) && x == value,
            Err(error) => r matches Err(e) && e == error,
        },
{
    read_reply::<Appended>(frame)
}

/// The frame that asks for messages of a partition.
pub fn read_messages_request(command: &ReadMessages) -> (bytes: Vec<u8>)
    ensures
        bytes@ == frame_of::<Command>(
            CommandView::ReadMessages {
                stream_id: command.stream_id,
                topic_id: command.topic_id,
                partition_id: command.partition_id,
                start_offset: command.start_offset,
                count: command.count,
            },
        ),
{
    proof {
        vstd::bytes::lemma_auto_spec_u32_to_from_le_bytes();
        vstd::bytes::lemma_auto_spec_u64_to_from_le_bytes();
    }
    Command::ReadMessages(
        ReadMessages {
            stream_id: command.stream_id,
            topic_id: command.topic_id,
            partition_id: command.partition_id,
            start_offset: command.start_offset,
            count: command.count,
        },
    ).encode()
}

/// Reads the answer to a read: the messages, in the order of their offsets.
pub fn read_messages_response(frame: &[u8]) -> (r: Result<Vec<Message>, Error>)
    ensures
        match reply_meaning::<Counted<Message>>(frame@) {
            Ok(value) => r matches Ok(x) && models(x@) == value,
            Err(error) => r matches Err(e) && e == error,
        },
{
    match read_reply::<Counted<Message>>(frame) {
        Ok(list) => Ok(list.items),
        Err(error) => Err(error),
    }
}

} // verus!
