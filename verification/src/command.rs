use crate::error::Error;
use crate::frame::{
    frame_fits, frame_of, frame_value, from_frame, lemma_unframe_frame, to_frame, unframe,
};
use crate::wire::{
    counted_at, counted_encoding, counted_fits, counted_is_fit, get_counted, get_name, get_u32,
    get_u64, lemma_counted_before, lemma_counted_end, lemma_counted_then,
    lemma_holds_at_empty, lemma_name_at, lemma_name_holds, lemma_u32_at, lemma_u32_before,
    lemma_u32_holds, lemma_u32_then, lemma_u64_before, lemma_u64_then, models, name_at,
    name_field, name_fits, name_is_fit, put_counted, put_name, put_u32, put_u64, u32_at, u64_at,
    Wire,
};
use vstd::bytes::*;
use vstd::prelude::*;

verus! {

/// The code of the command that reads messages.
pub const READ_MESSAGES_CODE: u32 = 100;

/// The code of the command that appends messages.
pub const APPEND_MESSAGES_CODE: u32 = 101;

/// The code of the query for one stream.
pub const GET_STREAM_CODE: u32 = 200;

/// The code of the query for the list of streams.
pub const GET_STREAMS_CODE: u32 = 201;

/// The code of the command that creates a stream.
pub const CREATE_STREAM_CODE: u32 = 202;

/// The code of the command that deletes a stream.
pub const DELETE_STREAM_CODE: u32 = 203;

/// The code of the command that creates a topic.
pub const CREATE_TOPIC_CODE: u32 = 302;

/// Asks for a new stream under the given identifier and name.
pub struct CreateStream {
    pub stream_id: u32,
    pub name: String,
}

/// Asks for a stream, its topics and all their data to be removed.
pub struct DeleteStream {
    pub stream_id: u32,
}

/// Asks for one stream with its topics.
pub struct GetStream {
    pub stream_id: u32,
}

/// Asks for the list of streams.
pub struct GetStreams {}

/// Asks for a new topic, with its partitions, in a stream.
pub struct CreateTopic {
    pub stream_id: u32,
    pub topic_id: u32,
    pub partitions_count: u32,
    pub name: String,
}

/// Asks for messages to be appended to a partition, in their order.
pub struct AppendMessages {
    pub stream_id: u32,
    pub topic_id: u32,
    pub partition_id: u32,
    pub messages: Vec<Vec<u8>>,
}

/// Asks for up to `count` messages of a partition, from `start_offset` on.
pub struct ReadMessages {
    pub stream_id: u32,
    pub topic_id: u32,
    pub partition_id: u32,
    pub start_offset: u64,
    pub count: u32,
}

/// What a client can ask of the broker.
pub enum Command {
    CreateStream(CreateStream),
    DeleteStream(DeleteStream),
    GetStream(GetStream),
    GetStreams(GetStreams),
    CreateTopic(CreateTopic),
    AppendMessages(AppendMessages),
    ReadMessages(ReadMessages),
}

/// What a `Command` stands for.
pub enum CommandView {
    CreateStream { stream_id: u32, name: Seq<char> },
    DeleteStream { stream_id: u32 },
    GetStream { stream_id: u32 },
    GetStreams,
    CreateTopic { stream_id: u32, topic_id: u32, partitions_count: u32, name: Seq<char> },
    AppendMessages { stream_id: u32, topic_id: u32, partition_id: u32, messages: Seq<Seq<u8>> },
    ReadMessages { stream_id: u32, topic_id: u32, partition_id: u32, start_offset: u64, count: u32 },
}

impl View for Command {
    type V = CommandView;

    open spec fn view(&self) -> CommandView {
        match self {
            Command::CreateStream(c) => CommandView::CreateStream {
                stream_id: c.stream_id,
                name: c.name@,
            },
            Command::DeleteStream(c) => CommandView::DeleteStream { stream_id: c.stream_id },
            Command::GetStream(c) => CommandView::GetStream { stream_id: c.stream_id },
            Command::GetStreams(_) => CommandView::GetStreams,
            Command::CreateTopic(c) => CommandView::CreateTopic {
                stream_id: c.stream_id,
                topic_id: c.topic_id,
                partitions_count: c.partitions_count,
                name: c.name@,
            },
            Command::AppendMessages(c) => CommandView::AppendMessages {
                stream_id: c.stream_id,
                topic_id: c.topic_id,
                partition_id: c.partition_id,
                messages: models(c.messages@),
            },
            Command::ReadMessages(c) => CommandView::ReadMessages {
                stream_id: c.stream_id,
                topic_id: c.topic_id,
                partition_id: c.partition_id,
                start_offset: c.start_offset,
                count: c.count,
            },
        }
    }
}

/// The code that tags a command on the wire.
pub open spec fn command_code(c: CommandView) -> u32 {
    match c {
        CommandView::CreateStream { .. } => CREATE_STREAM_CODE,
        CommandView::DeleteStream { .. } => DELETE_STREAM_CODE,
        CommandView::GetStream { .. } => GET_STREAM_CODE,
        CommandView::GetStreams => GET_STREAMS_CODE,
        CommandView::CreateTopic { .. } => CREATE_TOPIC_CODE,
        CommandView::AppendMessages { .. } => APPEND_MESSAGES_CODE,
        CommandView::ReadMessages { .. } => READ_MESSAGES_CODE,
    }
}

/// What follows the code: identifiers in four bytes each, then a name as a
/// field, a counted list of payloads, or an offset and a count.
pub open spec fn command_payload(c: CommandView) -> Seq<u8> {
    match c {
        CommandView::CreateStream { stream_id, name } => spec_u32_to_le_bytes(stream_id)
            + name_field(name),
        CommandView::DeleteStream { stream_id } => spec_u32_to_le_bytes(stream_id),
        CommandView::GetStream { stream_id } => spec_u32_to_le_bytes(stream_id),
        CommandView::GetStreams => Seq::empty(),
        CommandView::CreateTopic { stream_id, topic_id, partitions_count, name } =>
            spec_u32_to_le_bytes(stream_id) + (spec_u32_to_le_bytes(topic_id) + (
            spec_u32_to_le_bytes(partitions_count) + name_field(name))),
        CommandView::AppendMessages { stream_id, topic_id, partition_id, messages } =>
            spec_u32_to_le_bytes(stream_id) + (spec_u32_to_le_bytes(topic_id) + (
            spec_u32_to_le_bytes(partition_id) + counted_encoding::<Vec<u8>>(messages))),
        CommandView::ReadMessages { stream_id, topic_id, partition_id, start_offset, count } =>
            spec_u32_to_le_bytes(stream_id) + (spec_u32_to_le_bytes(topic_id) + (
            spec_u32_to_le_bytes(partition_id) + (spec_u64_to_le_bytes(start_offset)
                + spec_u32_to_le_bytes(count)))),
    }
}

/// The command with the given code whose payload stands in `b` at `at`, and
/// the position behind it.
pub open spec fn command_at(code: u32, b: Seq<u8>, at: int) -> Option<(CommandView, int)> {
    if code == CREATE_STREAM_CODE {
        if at + 4 <= b.len() {
            match name_at(b, at + 4) {
                Some((name, end)) => Some(
                    (CommandView::CreateStream { stream_id: u32_at(b, at), name }, end),
                ),
                None => None,
            }
        } else {
            None
        }
    } else if code == DELETE_STREAM_CODE {
        if at + 4 <= b.len() {
            Some((CommandView::DeleteStream { stream_id: u32_at(b, at) }, at + 4))
        } else {
            None
        }
    } else if code == GET_STREAM_CODE {
        if at + 4 <= b.len() {
            Some((CommandView::GetStream { stream_id: u32_at(b, at) }, at + 4))
        } else {
            None
        }
    } else if code == GET_STREAMS_CODE {
        Some((CommandView::GetStreams, at))
    } else if code == CREATE_TOPIC_CODE {
        if at + 12 <= b.len() {
            match name_at(b, at + 12) {
                Some((name, end)) => Some(
                    (
                        CommandView::CreateTopic {
                            stream_id: u32_at(b, at),
                            topic_id: u32_at(b, at + 4),
                            partitions_count: u32_at(b, at + 8),
                            name,
                        },
                        end,
                    ),
                ),
                None => None,
            }
        } else {
            None
        }
    } else if code == APPEND_MESSAGES_CODE {
        if at + 12 <= b.len() {
            match counted_at::<Vec<u8>>(b, at + 12) {
                Some((messages, end)) => Some(
                    (
                        CommandView::AppendMessages {
                            stream_id: u32_at(b, at),
                            topic_id: u32_at(b, at + 4),
                            partition_id: u32_at(b, at + 8),
                            messages,
                        },
                        end,
                    ),
                ),
                None => None,
            }
        } else {
            None
        }
    } else if code == READ_MESSAGES_CODE {
        if at + 24 <= b.len() {
            Some(
                (
                    CommandView::ReadMessages {
                        stream_id: u32_at(b, at),
                        topic_id: u32_at(b, at + 4),
                        partition_id: u32_at(b, at + 8),
                        start_offset: u64_at(b, at + 12),
                        count: u32_at(b, at + 20),
                    },
                    at + 24,
                ),
            )
        } else {
            None
        }
    } else {
        None
    }
}

impl Wire for Command {
    open spec fn fits(m: CommandView) -> bool {
        match m {
            CommandView::CreateStream { name, .. } => name_fits(name),
            CommandView::CreateTopic { name, .. } => name_fits(name),
            CommandView::AppendMessages { messages, .. } => counted_fits::<Vec<u8>>(messages),
            _ => true,
        }
    }

    /// The code in four bytes, then the payload.
    open spec fn encoding(m: CommandView) -> Seq<u8> {
        spec_u32_to_le_bytes(command_code(m)) + command_payload(m)
    }

    open spec fn parse_at(b: Seq<u8>, pos: int) -> Option<(CommandView, int)> {
        if 0 <= pos && pos + 4 <= b.len() {
            command_at(u32_at(b, pos), b, pos + 4)
        } else {
            None
        }
    }

    proof fn lemma_parse_encoding(b: Seq<u8>, pos: int, m: CommandView) {
        lemma_auto_spec_u32_to_from_le_bytes();
        lemma_auto_spec_u64_to_from_le_bytes();
        lemma_u32_then(b, pos, command_code(m), command_payload(m));
        let at = pos + 4;
        match m {
            CommandView::CreateStream { stream_id, name } => {
                lemma_u32_then(b, at, stream_id, name_field(name));
                lemma_name_at(b, at + 4, name);
            },
            CommandView::DeleteStream { stream_id } => {
                lemma_u32_at(b, at, stream_id);
            },
            CommandView::GetStream { stream_id } => {
                lemma_u32_at(b, at, stream_id);
            },
            CommandView::GetStreams => {},
            CommandView::CreateTopic { stream_id, topic_id, partitions_count, name } => {
                let last = spec_u32_to_le_bytes(partitions_count) + name_field(name);
                lemma_u32_then(b, at, stream_id, spec_u32_to_le_bytes(topic_id) + last);
                lemma_u32_then(b, at + 4, topic_id, last);
                lemma_u32_then(b, at + 8, partitions_count, name_field(name));
                lemma_name_at(b, at + 12, name);
            },
            CommandView::AppendMessages { stream_id, topic_id, partition_id, messages } => {
                let list = counted_encoding::<Vec<u8>>(messages);
                let last = spec_u32_to_le_bytes(partition_id) + list;
                lemma_u32_then(b, at, stream_id, spec_u32_to_le_bytes(topic_id) + last);
                lemma_u32_then(b, at + 4, topic_id, last);
                lemma_u32_then(b, at + 8, partition_id, list);
                assert(list + Seq::<u8>::empty() =~= list);
                lemma_counted_then::<Vec<u8>>(b, at + 12, messages, Seq::empty());
            },
            CommandView::ReadMessages { stream_id, topic_id, partition_id, start_offset, count } => {
                let tail = spec_u64_to_le_bytes(start_offset) + spec_u32_to_le_bytes(count);
                let last = spec_u32_to_le_bytes(partition_id) + tail;
                lemma_u32_then(b, at, stream_id, spec_u32_to_le_bytes(topic_id) + last);
                lemma_u32_then(b, at + 4, topic_id, last);
                lemma_u32_then(b, at + 8, partition_id, tail);
                lemma_u64_then(b, at + 12, start_offset, spec_u32_to_le_bytes(count));
                lemma_u32_at(b, at + 20, count);
            },
        }
    }

    proof fn lemma_encoding_parse(b: Seq<u8>, pos: int) {
        lemma_auto_spec_u32_to_from_le_bytes();
        lemma_auto_spec_u64_to_from_le_bytes();
        let (m, end) = Self::parse_at(b, pos).unwrap();
        let at = pos + 4;
        match m {
            CommandView::CreateStream { stream_id, name } => {
                lemma_name_holds(b, at + 4);
                lemma_u32_before(b, at, name_field(name));
            },
            CommandView::DeleteStream { stream_id } => {
                lemma_u32_holds(b, at);
            },
            CommandView::GetStream { stream_id } => {
                lemma_u32_holds(b, at);
            },
            CommandView::GetStreams => {
                lemma_holds_at_empty(b, at);
            },
            CommandView::CreateTopic { stream_id, topic_id, partitions_count, name } => {
                let last = spec_u32_to_le_bytes(partitions_count) + name_field(name);
                lemma_name_holds(b, at + 12);
                lemma_u32_before(b, at + 8, name_field(name));
                lemma_u32_before(b, at + 4, last);
                lemma_u32_before(b, at, spec_u32_to_le_bytes(topic_id) + last);
            },
            CommandView::AppendMessages { stream_id, topic_id, partition_id, messages } => {
                let list = counted_encoding::<Vec<u8>>(messages);
                let last = spec_u32_to_le_bytes(partition_id) + list;
                lemma_counted_end::<Vec<u8>>(b, at + 12);
                lemma_holds_at_empty(b, end);
                lemma_counted_before::<Vec<u8>>(b, at + 12, Seq::empty());
                assert(list + Seq::<u8>::empty() =~= list);
                lemma_u32_before(b, at + 8, list);
                lemma_u32_before(b, at + 4, last);
                lemma_u32_before(b, at, spec_u32_to_le_bytes(topic_id) + last);
            },
            CommandView::ReadMessages { stream_id, topic_id, partition_id, start_offset, count } => {
                let tail = spec_u64_to_le_bytes(start_offset) + spec_u32_to_le_bytes(count);
                let last = spec_u32_to_le_bytes(partition_id) + tail;
                lemma_u32_holds(b, at + 20);
                lemma_u64_before(b, at + 12, spec_u32_to_le_bytes(count));
                lemma_u32_before(b, at + 8, tail);
                lemma_u32_before(b, at + 4, last);
                lemma_u32_before(b, at, spec_u32_to_le_bytes(topic_id) + last);
            },
        }
        lemma_u32_before(b, pos, command_payload(m));
    }

    fn is_fit(&self) -> (ok: bool) {
        match self {
            Command::CreateStream(c) => name_is_fit(c.name.as_str()),
            Command::CreateTopic(c) => name_is_fit(c.name.as_str()),
            Command::AppendMessages(c) => counted_is_fit(&c.messages),
            _ => true,
        }
    }

    fn put(&self, out: &mut Vec<u8>) {
        match self {
            Command::CreateStream(c) => {
                put_u32(out, CREATE_STREAM_CODE);
                put_u32(out, c.stream_id);
                put_name(out, c.name.as_str());
            },
            Command::DeleteStream(c) => {
                put_u32(out, DELETE_STREAM_CODE);
                put_u32(out, c.stream_id);
            },
            Command::GetStream(c) => {
                put_u32(out, GET_STREAM_CODE);
                put_u32(out, c.stream_id);
            },
            Command::GetStreams(_) => {
                put_u32(out, GET_STREAMS_CODE);
            },
            Command::CreateTopic(c) => {
                put_u32(out, CREATE_TOPIC_CODE);
                put_u32(out, c.stream_id);
                put_u32(out, c.topic_id);
                put_u32(out, c.partitions_count);
                put_name(out, c.name.as_str());
            },
            Command::AppendMessages(c) => {
                put_u32(out, APPEND_MESSAGES_CODE);
                put_u32(out, c.stream_id);
                put_u32(out, c.topic_id);
                put_u32(out, c.partition_id);
                put_counted(out, &c.messages);
            },
            Command::ReadMessages(c) => {
                put_u32(out, READ_MESSAGES_CODE);
                put_u32(out, c.stream_id);
                put_u32(out, c.topic_id);
                put_u32(out, c.partition_id);
                put_u64(out, c.start_offset);
                put_u32(out, c.count);
            },
        }
        assert(out@ =~= old(out)@ + Self::encoding(self@));
    }

    fn get(buf: &[u8], pos: usize) -> (r: Option<(Self, usize)>) {
        let code = match get_u32(buf, pos) {
            Some(code) => code,
            None => { return None; },
        };
        let at = pos + 4;
        if code == CREATE_STREAM_CODE {
            let stream_id = match get_u32(buf, at) {
                Some(id) => id,
                None => { return None; },
            };
            match get_name(buf, at + 4) {
                Some((name, end)) => Some(
                    (Command::CreateStream(CreateStream { stream_id, name }), end),
                ),
                None => None,
            }
        } else if code == DELETE_STREAM_CODE {
            match get_u32(buf, at) {
                Some(stream_id) => Some(
                    (Command::DeleteStream(DeleteStream { stream_id }), at + 4),
                ),
                None => None,
            }
        } else if code == GET_STREAM_CODE {
            match get_u32(buf, at) {
                Some(stream_id) => Some((Command::GetStream(GetStream { stream_id }), at + 4)),
                None => None,
            }
        } else if code == GET_STREAMS_CODE {
            Some((Command::GetStreams(GetStreams {  }), at))
        } else if code == CREATE_TOPIC_CODE || code == APPEND_MESSAGES_CODE || code
            == READ_MESSAGES_CODE {
            let stream_id = match get_u32(buf, at) {
                Some(id) => id,
                None => { return None; },
            };
            let topic_id = match get_u32(buf, at + 4) {
                Some(id) => id,
                None => { return None; },
            };
            let third = match get_u32(buf, at + 8) {
                Some(n) => n,
                None => { return None; },
            };
            if code == CREATE_TOPIC_CODE {
                match get_name(buf, at + 12) {
                    Some((name, end)) => Some(
                        (
                            Command::CreateTopic(
                                CreateTopic { stream_id, topic_id, partitions_count: third, name },
                            ),
                            end,
                        ),
                    ),
                    None => None,
                }
            } else if code == APPEND_MESSAGES_CODE {
                match get_counted::<Vec<u8>>(buf, at + 12) {
                    Some((messages, end)) => Some(
                        (
                            Command::AppendMessages(
                                AppendMessages {
                                    stream_id,
                                    topic_id,
                                    partition_id: third,
                                    messages,
                                },
                            ),
                            end,
                        ),
                    ),
                    None => None,
                }
            } else {
                let start_offset = match get_u64(buf, at + 12) {
                    Some(offset) => offset,
                    None => { return None; },
                };
                match get_u32(buf, at + 20) {
                    Some(count) => Some(
                        (
                            Command::ReadMessages(
                                ReadMessages {
                                    stream_id,
                                    topic_id,
                                    partition_id: third,
                                    start_offset,
                                    count,
                                },
                            ),
                            at + 24,
                        ),
                    ),
                    None => None,
                }
            }
        } else {
            None
        }
    }
}

/// Round trip: every command that can travel is read back from its frame as
/// it was.
pub proof fn lemma_command_round_trip(c: CommandView)
    requires
        frame_fits::<Command>(c),
    ensures
        unframe::<Command>(frame_of::<Command>(c)) == Some(c),
{
    lemma_unframe_frame::<Command>(c);
}

impl Command {
    /// Whether the command can travel: its name or its messages fit, and so
    /// does the whole frame.
    pub open spec fn well_formed(self) -> bool {
        frame_fits::<Command>(self@)
    }

    /// The frame of the command, for a command that can travel.
    pub fn encode(&self) -> (bytes: Vec<u8>)
        requires
            self.well_formed(),
        ensures
            bytes@ == frame_of::<Command>(self@),
    {
        frame_value(self)
    }

    /// The frame of the command, or nothing where the command cannot travel.
    pub fn try_encode(&self) -> (r: Option<Vec<u8>>)
        ensures
            r is Some <==> self.well_formed(),
            r matches Some(bytes) ==> bytes@ == frame_of::<Command>(self@),
    {
        to_frame(self)
    }

    /// The command that a frame carries. Fails with `ProtocolError` where
    /// the bytes are not the frame of a command: a length that is not that
    /// of the bytes, an unknown code, a payload cut short or with bytes left
    /// over, a name that is not UTF-8.
    pub fn decode(frame: &[u8]) -> (r: Result<Command, Error>)
        ensures
            match unframe::<Command>(frame@) {
                Some(m) => r matches Ok(c) && c@ == m,
                None => r matches Err(e) && e == Error::ProtocolError,
            },
    {
        from_frame(frame)
    }
}

} // verus!
