use crate::catalog::{
    append_error, create_stream_error, create_topic_error, details_of, fresh_stream, fresh_topic,
    image_of, listing_of, partition_log, provision_of, removals_of, stream_id_taken,
    stream_index, topic_id_taken, topic_index, with_log, with_topic, without_topic, Catalog,
    StreamState,
};
use crate::command::{Command, CommandView};
use crate::error::Error;
use crate::frame::{lemma_frame_unframe, unframe};
use crate::message::{Message, MessageView};
use crate::partition::messages_from;
use crate::response::{
    answer, failed, reply, reply_of, reply_result, Appended, Counted, Empty, Response,
    ResponseView,
};
use crate::storage::{op_views, Location, StorageOp, StorageOpView};
use crate::stream::{Stream, StreamDetails, StreamDetailsView};
use crate::wire::{counted_fits, counted_is_fit, models, Wire};
use vstd::prelude::*;

verus! {

/// What the dispatcher needs to know of a command whose effects are with the
/// byte store, to finish it once the host says how that went.
pub enum Ticket {
    CreateStream { stream_id: u32 },
    CreateTopic { stream_id: u32, topic_id: u32 },
    DeleteStream,
    AppendMessages { stream_id: u32, topic_id: u32, partition_id: u32, messages: Vec<Vec<u8>> },
}

/// What a `Ticket` stands for.
pub enum TicketView {
    CreateStream { stream_id: u32 },
    CreateTopic { stream_id: u32, topic_id: u32 },
    DeleteStream,
    AppendMessages { stream_id: u32, topic_id: u32, partition_id: u32, messages: Seq<Seq<u8>> },
}

impl View for Ticket {
    type V = TicketView;

    open spec fn view(&self) -> TicketView {
        match self {
            Ticket::CreateStream { stream_id } => TicketView::CreateStream {
                stream_id: *stream_id,
            },
            Ticket::CreateTopic { stream_id, topic_id } => TicketView::CreateTopic {
                stream_id: *stream_id,
                topic_id: *topic_id,
            },
            Ticket::DeleteStream => TicketView::DeleteStream,
            Ticket::AppendMessages { stream_id, topic_id, partition_id, messages } =>
                TicketView::AppendMessages {
                stream_id: *stream_id,
                topic_id: *topic_id,
                partition_id: *partition_id,
                messages: models(messages@),
            },
        }
    }
}

/// What the host is to do with a frame that came in: send a reply, hand
/// operations to the byte store and come back with the ticket, or close the
/// connection.
pub enum Outcome {
    Reply(Vec<u8>),
    Persist { ops: Vec<StorageOp>, ticket: Ticket },
    Disconnect,
}

/// What an `Outcome` stands for.
pub enum OutcomeView {
    Reply(Seq<u8>),
    Persist { ops: Seq<StorageOpView>, ticket: TicketView },
    Disconnect,
}

impl View for Outcome {
    type V = OutcomeView;

    open spec fn view(&self) -> OutcomeView {
        match self {
            Outcome::Reply(bytes) => OutcomeView::Reply(bytes@),
            Outcome::Persist { ops, ticket } => OutcomeView::Persist {
                ops: op_views(ops@),
                ticket: ticket@,
            },
            Outcome::Disconnect => OutcomeView::Disconnect,
        }
    }
}

/// The operation that brings the catalog file up to date with `streams`.
pub open spec fn persist_of(streams: Seq<StreamState>) -> Seq<StorageOpView> {
    seq![StorageOpView::Overwrite { location: Location::Catalog, bytes: image_of(streams) }]
}

/// The stream that a query for one stream finds.
pub open spec fn found_stream(streams: Seq<StreamState>, id: u32) -> Result<
    StreamDetailsView,
    Error,
> {
    if stream_id_taken(streams, id) {
        Ok(details_of(streams[stream_index(streams, id)]))
    } else {
        Err(Error::NotFound)
    }
}

/// The messages that a read finds.
pub open spec fn found_messages(
    streams: Seq<StreamState>,
    sid: u32,
    tid: u32,
    pid: u32,
    start: u64,
    count: u32,
) -> Result<Seq<MessageView>, Error> {
    match partition_log(streams, sid, tid, pid) {
        Some(log) => Ok(messages_from(log, start, count)),
        None => Err(Error::NotFound),
    }
}

/// The catalog's streams once a stream is created.
pub open spec fn stream_created(streams: Seq<StreamState>, id: u32, name: Seq<char>, now: u64) -> Seq<
    StreamState,
> {
    streams.push(fresh_stream(id, name, now))
}

/// The catalog's streams once a topic is created.
pub open spec fn topic_created(
    streams: Seq<StreamState>,
    sid: u32,
    tid: u32,
    count: u32,
    name: Seq<char>,
) -> Seq<StreamState> {
    streams.update(
        stream_index(streams, sid),
        with_topic(streams[stream_index(streams, sid)], fresh_topic(tid, name, count)),
    )
}

/// What becomes of a command: a query is answered at once, and so is a
/// command that fails; a command that changes what is stored is answered
/// once the byte store has taken its operations. No command is a frame
/// that could not be read: the connection is closed.
pub open spec fn handled(catalog: Catalog, command: Option<CommandView>, now: u64) -> OutcomeView {
    match command {
        None => OutcomeView::Disconnect,
        Some(CommandView::GetStreams) => OutcomeView::Reply(
            reply_of::<Counted<Stream>>(ResponseView::Done(listing_of(catalog@))),
        ),
        Some(CommandView::GetStream { stream_id }) => OutcomeView::Reply(
            reply_of::<StreamDetails>(answer(found_stream(catalog@, stream_id))),
        ),
        Some(
            CommandView::ReadMessages { stream_id, topic_id, partition_id, start_offset, count },
        ) => OutcomeView::Reply(
            reply_of::<Counted<Message>>(
                answer(
                    found_messages(
                        catalog@,
                        stream_id,
                        topic_id,
                        partition_id,
                        start_offset,
                        count,
                    ),
                ),
            ),
        ),
        Some(CommandView::CreateStream { stream_id, name }) => match create_stream_error(
            catalog@,
            stream_id,
            name,
        ) {
            Some(error) => OutcomeView::Reply(reply_of::<Empty>(failed(error))),
            None => OutcomeView::Persist {
                ops: persist_of(stream_created(catalog@, stream_id, name, now)),
                ticket: TicketView::CreateStream { stream_id },
            },
        },
        Some(
            CommandView::CreateTopic { stream_id, topic_id, partitions_count, name },
        ) => match create_topic_error(catalog@, stream_id, topic_id, name) {
            Some(error) => OutcomeView::Reply(reply_of::<Empty>(failed(error))),
            None => OutcomeView::Persist {
                ops: persist_of(
                    topic_created(catalog@, stream_id, topic_id, partitions_count, name),
                ) + provision_of(stream_id, topic_id, partitions_count as nat),
                ticket: TicketView::CreateTopic { stream_id, topic_id },
            },
        },
        Some(CommandView::DeleteStream { stream_id }) => if stream_id_taken(catalog@, stream_id) {
            OutcomeView::Persist {
                ops: removals_of(catalog.stream_files(stream_id)) + persist_of(
                    catalog@.remove(stream_index(catalog@, stream_id)),
                ),
                ticket: TicketView::DeleteStream,
            }
        } else {
            OutcomeView::Reply(reply_of::<Empty>(failed(Error::NotFound)))
        },
        Some(
            CommandView::AppendMessages { stream_id, topic_id, partition_id, messages },
        ) => match append_error(
            partition_log(catalog@, stream_id, topic_id, partition_id),
            catalog.partition(stream_id, topic_id, partition_id).has_room(messages),
        ) {
            Some(error) => OutcomeView::Reply(reply_of::<Appended>(failed(error))),
            None => OutcomeView::Persist {
                ops: catalog.partition(stream_id, topic_id, partition_id).append_ops(messages),
                ticket: TicketView::AppendMessages { stream_id, topic_id, partition_id, messages },
            },
        },
    }
}

/// The catalog's streams once a command is handled: a stream or a topic
/// that is created, and a stream that is deleted, show at once; an append
/// shows when it is settled.
pub open spec fn applied(streams: Seq<StreamState>, command: Option<CommandView>, now: u64) -> Seq<
    StreamState,
> {
    match command {
        Some(CommandView::CreateStream { stream_id, name }) => if create_stream_error(
            streams,
            stream_id,
            name,
        ) is None {
            stream_created(streams, stream_id, name, now)
        } else {
            streams
        },
        Some(
            CommandView::CreateTopic { stream_id, topic_id, partitions_count, name },
        ) => if create_topic_error(streams, stream_id, topic_id, name) is None {
            topic_created(streams, stream_id, topic_id, partitions_count, name)
        } else {
            streams
        },
        Some(CommandView::DeleteStream { stream_id }) => if stream_id_taken(streams, stream_id) {
            streams.remove(stream_index(streams, stream_id))
        } else {
            streams
        },
        _ => streams,
    }
}

/// The result of an append that is settled: the messages must be able to
/// travel, the byte store must have taken them, and the partition must
/// still be there and have room.
pub open spec fn settled_append(
    catalog: Catalog,
    sid: u32,
    tid: u32,
    pid: u32,
    messages: Seq<Seq<u8>>,
    persisted: bool,
) -> Result<Appended, Error> {
    if !counted_fits::<Vec<u8>>(messages) {
        Err(Error::ProtocolError)
    } else if !persisted {
        Err(Error::IoError)
    } else {
        match append_error(
            partition_log(catalog@, sid, tid, pid),
            catalog.partition(sid, tid, pid).has_room(messages),
        ) {
            Some(error) => Err(error),
            None => Ok(
                Appended {
                    first_offset: partition_log(catalog@, sid, tid, pid).unwrap().len() as u64,
                    count: messages.len() as u32,
                },
            ),
        }
    }
}

/// The reply to a command whose operations the byte store took or did not
/// take: where it did not, the command fails with `IoError`.
pub open spec fn settled(catalog: Catalog, ticket: TicketView, persisted: bool) -> Seq<u8> {
    match ticket {
        TicketView::AppendMessages { stream_id, topic_id, partition_id, messages } => reply_of::<
            Appended,
        >(answer(settled_append(catalog, stream_id, topic_id, partition_id, messages, persisted))),
        _ => if persisted {
            reply_of::<Empty>(ResponseView::Done(()))
        } else {
            reply_of::<Empty>(failed(Error::IoError))
        },
    }
}

/// The catalog's streams once a command is settled. A stream or a topic
/// whose creation the byte store did not take is forgotten; a stream that
/// was deleted stays deleted; messages are appended once the byte store has
/// taken them.
pub open spec fn settled_streams(catalog: Catalog, ticket: TicketView, persisted: bool) -> Seq<
    StreamState,
> {
    let streams = catalog@;
    match ticket {
        TicketView::CreateStream { stream_id } => if !persisted && stream_id_taken(
            streams,
            stream_id,
        ) {
            streams.remove(stream_index(streams, stream_id))
        } else {
            streams
        },
        TicketView::CreateTopic { stream_id, topic_id } => if !persisted && stream_id_taken(
            streams,
            stream_id,
        ) && topic_id_taken(streams[stream_index(streams, stream_id)].topics, topic_id) {
            streams.update(
                stream_index(streams, stream_id),
                without_topic(
                    streams[stream_index(streams, stream_id)],
                    topic_index(streams[stream_index(streams, stream_id)].topics, topic_id),
                ),
            )
        } else {
            streams
        },
        TicketView::DeleteStream => streams,
        TicketView::AppendMessages {
            stream_id,
            topic_id,
            partition_id,
            messages,
        } => if settled_append(catalog, stream_id, topic_id, partition_id, messages, persisted) is Ok {
            with_log(
                streams,
                stream_id,
                topic_id,
                partition_id,
                partition_log(streams, stream_id, topic_id, partition_id).unwrap() + messages,
            )
        } else {
            streams
        },
    }
}

/// The server's side of the protocol: it takes a frame, carries the command
/// out on the catalog, and says what the host is to do.
pub struct Dispatcher {
    catalog: Catalog,
}

impl Dispatcher {
    /// The catalog that the dispatcher works on.
    pub closed spec fn state(&self) -> Catalog {
        self.catalog
    }

    /// The dispatcher's invariant: that of its catalog.
    pub open spec fn wf(&self) -> bool {
        self.state().wf()
    }

    /// A dispatcher on a catalog.
    pub fn new(catalog: Catalog) -> (dispatcher: Dispatcher)
        ensures
            dispatcher.state() == catalog,
    {
        Dispatcher { catalog }
    }

    /// The catalog that the dispatcher works on.
    pub fn catalog(&self) -> (catalog: &Catalog)
        ensures
            *catalog == self.state(),
    {
        &self.catalog
    }

    /// Carries out a command. The time `now` is the time of creation of a
    /// stream that the command creates.
    pub fn execute(&mut self, command: Command, now: u64) -> (outcome: Outcome)
        requires
            old(self).wf(),
            <Command as Wire>::fits(command@),
        ensures
            final(self).wf(),
            final(self).state().threshold() == old(self).state().threshold(),
            outcome@ == handled(old(self).state(), Some(command@), now),
            final(self).state()@ == applied(old(self).state()@, Some(command@), now),
    {
        match command {
            Command::GetStreams(_) => {
                let items = self.catalog.get_streams();
                Outcome::Reply(reply(&Response::Done(Counted { items })))
            },
            Command::GetStream(c) => Outcome::Reply(
                reply_result(self.catalog.get_stream(c.stream_id)),
            ),
            Command::ReadMessages(c) => {
                let found = match self.catalog.read_messages(
                    c.stream_id,
                    c.topic_id,
                    c.partition_id,
                    c.start_offset,
                    c.count,
                ) {
                    Ok(items) => Ok(Counted { items }),
                    Err(error) => Err(error),
                };
                Outcome::Reply(reply_result(found))
            },
            Command::CreateStream(c) => {
                let stream_id = c.stream_id;
                match self.catalog.create_stream(stream_id, c.name, now) {
                    Ok(ops) => Outcome::Persist { ops, ticket: Ticket::CreateStream { stream_id } },
                    Err(error) => Outcome::Reply(reply(&Response::<Empty>::failure(error))),
                }
            },
            Command::CreateTopic(c) => {
                let stream_id = c.stream_id;
                let topic_id = c.topic_id;
                match self.catalog.create_topic(stream_id, topic_id, c.partitions_count, c.name) {
                    Ok(ops) => Outcome::Persist {
                        ops,
                        ticket: Ticket::CreateTopic { stream_id, topic_id },
                    },
                    Err(error) => Outcome::Reply(reply(&Response::<Empty>::failure(error))),
                }
            },
            Command::DeleteStream(c) => {
                match self.catalog.delete_stream(c.stream_id) {
                    Ok(ops) => Outcome::Persist { ops, ticket: Ticket::DeleteStream },
                    Err(error) => Outcome::Reply(reply(&Response::<Empty>::failure(error))),
                }
            },
            Command::AppendMessages(c) => {
                match self.catalog.plan_append(
                    c.stream_id,
                    c.topic_id,
                    c.partition_id,
                    &c.messages,
                ) {
                    Ok(ops) => Outcome::Persist {
                        ops,
                        ticket: Ticket::AppendMessages {
                            stream_id: c.stream_id,
                            topic_id: c.topic_id,
                            partition_id: c.partition_id,
                            messages: c.messages,
                        },
                    },
                    Err(error) => Outcome::Reply(reply(&Response::<Appended>::failure(error))),
                }
            },
        }
    }

    /// Takes one frame as it came in. A frame that is no command closes
    /// the connection and changes nothing.
    pub fn handle(&mut self, frame: &[u8], now: u64) -> (outcome: Outcome)
        requires
            old(self).wf(),
        ensures
            final(self).wf(),
            final(self).state().threshold() == old(self).state().threshold(),
            outcome@ == handled(old(self).state(), unframe::<Command>(frame@), now),
            final(self).state()@ == applied(old(self).state()@, unframe::<Command>(frame@), now),
    {
        match Command::decode(frame) {
            Ok(command) => {
                proof {
                    lemma_frame_unframe::<Command>(frame@);
                }
                self.execute(command, now)
            },
            Err(_) => Outcome::Disconnect,
        }
    }

    /// Finishes a command once the host says whether the byte store took
    /// its operations, and gives the reply.
    pub fn settle(&mut self, ticket: Ticket, persisted: bool) -> (bytes: Vec<u8>)
        requires
            old(self).wf(),
        ensures
            final(self).wf(),
            final(self).state().threshold() == old(self).state().threshold(),
            bytes@ == settled(old(self).state(), ticket@, persisted),
            final(self).state()@ == settled_streams(old(self).state(), ticket@, persisted),
    {
        match ticket {
            Ticket::CreateStream { stream_id } => {
                if persisted {
                    reply(&Response::Done(Empty {  }))
                } else {
                    self.catalog.forget_stream(stream_id);
                    reply(&Response::<Empty>::failure(Error::IoError))
                }
            },
            Ticket::CreateTopic { stream_id, topic_id } => {
                if persisted {
                    reply(&Response::Done(Empty {  }))
                } else {
                    self.catalog.forget_topic(stream_id, topic_id);
                    reply(&Response::<Empty>::failure(Error::IoError))
                }
            },
            Ticket::DeleteStream => {
                if persisted {
                    reply(&Response::Done(Empty {  }))
                } else {
                    reply(&Response::<Empty>::failure(Error::IoError))
                }
            },
            Ticket::AppendMessages { stream_id, topic_id, partition_id, messages } => {
                let result = if !counted_is_fit(&messages) {
                    Err(Error::ProtocolError)
                } else if !persisted {
                    Err(Error::IoError)
                } else {
                    self.catalog.append_messages(stream_id, topic_id, partition_id, &messages)
                };
                reply_result(result)
            },
        }
    }
}

/// The ticket of a command that creates a stream or a topic.
pub open spec fn creation_ticket(command: CommandView) -> TicketView {
    match command {
        CommandView::CreateTopic { stream_id, topic_id, .. } => TicketView::CreateTopic {
            stream_id,
            topic_id,
        },
        CommandView::CreateStream { stream_id, .. } => TicketView::CreateStream { stream_id },
        _ => TicketView::DeleteStream,
    }
}

/// No change without the byte store: where a stream or a topic is created
/// and the byte store does not take it, the catalog is afterwards as it was
/// before the command.
pub proof fn lemma_failure_changes_nothing(
    before: Seq<StreamState>,
    after: Catalog,
    command: CommandView,
    now: u64,
)
    requires
        crate::catalog::streams_valid(before),
        match command {
            CommandView::CreateStream { stream_id, name } => create_stream_error(
                before,
                stream_id,
                name,
            ) is None,
            CommandView::CreateTopic { stream_id, topic_id, name, .. } => create_topic_error(
                before,
                stream_id,
                topic_id,
                name,
            ) is None,
            _ => false,
        },
        after@ == applied(before, Some(command), now),
    ensures
        settled_streams(after, creation_ticket(command), false) == before,
{
    match command {
        CommandView::CreateStream { stream_id, name } => {
            let grown = before.push(fresh_stream(stream_id, name, now));
            assert(grown[before.len() as int].id == stream_id);
            let found = stream_index(grown, stream_id);
            if found < before.len() {
                assert(before[found].id == stream_id);
            }
            assert(grown.remove(found) =~= before);
        },
        CommandView::CreateTopic { stream_id, topic_id, partitions_count, name } => {
            let i = stream_index(before, stream_id);
            let stream = before[i];
            let fresh = fresh_topic(topic_id, name, partitions_count);
            let grown = before.update(i, with_topic(stream, fresh));
            assert(grown[i].id == stream_id);
            let found = stream_index(grown, stream_id);
            if found != i {
                assert(before[found].id == stream_id);
                if found < i {
                    assert(before[found].id != before[i].id);
                } else {
                    assert(before[i].id != before[found].id);
                }
            }
            let topics = grown[i].topics;
            assert(topics[stream.topics.len() as int].id == topic_id);
            let place = topic_index(topics, topic_id);
            if place < stream.topics.len() {
                assert(stream.topics[place].id == topic_id);
            }
            assert(topics.remove(place) =~= stream.topics);
            assert(grown.update(i, without_topic(grown[i], place)) =~= before);
        },
        _ => {},
    }
}

} // verus!
