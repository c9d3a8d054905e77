use streaming::catalog::Catalog;
use streaming::client::{
    append_messages_request, append_messages_response, create_stream_request,
    create_topic_request, delete_stream_request, done_response, get_stream_request,
    get_stream_response, get_streams_request, get_streams_response, read_messages_request,
    read_messages_response,
};
use streaming::command::{
    AppendMessages, CreateStream, CreateTopic, DeleteStream, GetStream, GetStreams, ReadMessages,
};
use streaming::dispatcher::{Dispatcher, Outcome};
use streaming::error::Error;
use streaming::initializer::init_streams;
use streaming::command::Command;
use streaming::stream::Stream;

/// Sends a frame and plays the host: the byte store takes everything, or
/// nothing where `persisted` is false.
fn exchange(dispatcher: &mut Dispatcher, frame: Vec<u8>, persisted: bool) -> Vec<u8> {
    match dispatcher.handle(&frame, 77) {
        Outcome::Reply(bytes) => bytes,
        Outcome::Persist { ops, ticket } => {
            assert!(!ops.is_empty());
            dispatcher.settle(ticket, persisted)
        }
        Outcome::Disconnect => panic!("the connection was closed"),
    }
}

fn create_stream(dispatcher: &mut Dispatcher, id: u32, name: &str, persisted: bool) -> Result<(), Error> {
    let frame =
        create_stream_request(&CreateStream { stream_id: id, name: name.to_string() }).unwrap();
    done_response(&exchange(dispatcher, frame, persisted))
}

fn create_topic(dispatcher: &mut Dispatcher, sid: u32, tid: u32, persisted: bool) -> Result<(), Error> {
    let frame = create_topic_request(&CreateTopic {
        stream_id: sid,
        topic_id: tid,
        partitions_count: 1,
        name: "t".to_string(),
    })
    .unwrap();
    done_response(&exchange(dispatcher, frame, persisted))
}

fn listing(dispatcher: &mut Dispatcher) -> Vec<Stream> {
    let frame = get_streams_request(&GetStreams {});
    get_streams_response(&exchange(dispatcher, frame, true)).unwrap()
}

#[test]
fn commands_travel_to_the_catalog_and_back() {
    let mut dispatcher = Dispatcher::new(Catalog::new(1024));
    assert_eq!(create_stream(&mut dispatcher, 1, "s", true), Ok(()));
    assert_eq!(create_stream(&mut dispatcher, 1, "s2", true), Err(Error::AlreadyExists));
    assert_eq!(create_topic(&mut dispatcher, 99, 1, true), Err(Error::NotFound));
    assert_eq!(create_topic(&mut dispatcher, 1, 1, true), Ok(()));
    let streams = listing(&mut dispatcher);
    assert_eq!(streams.len(), 1);
    assert_eq!((streams[0].id, streams[0].created_at, streams[0].topics_count), (1, 77, 1));
    assert_eq!(streams[0].name, "s");
    let frame = get_stream_request(&GetStream { stream_id: 1 });
    let details = get_stream_response(&exchange(&mut dispatcher, frame, true)).unwrap();
    assert_eq!(details.topics.len(), 1);
    assert_eq!(details.topics[0].name, "t");
    let frame = get_stream_request(&GetStream { stream_id: 2 });
    assert!(matches!(
        get_stream_response(&exchange(&mut dispatcher, frame, true)),
        Err(Error::NotFound)
    ));
}

#[test]
fn messages_travel_to_the_log_and_back() {
    let mut dispatcher = Dispatcher::new(Catalog::new(1024));
    create_stream(&mut dispatcher, 1, "s", true).unwrap();
    create_topic(&mut dispatcher, 1, 1, true).unwrap();
    let append = AppendMessages {
        stream_id: 1,
        topic_id: 1,
        partition_id: 1,
        messages: vec![vec![1], vec![2], vec![3]],
    };
    let frame = append_messages_request(&append).unwrap();
    let appended = append_messages_response(&exchange(&mut dispatcher, frame, true)).unwrap();
    assert_eq!((appended.first_offset, appended.count), (0, 3));
    let read = ReadMessages { stream_id: 1, topic_id: 1, partition_id: 1, start_offset: 1, count: 10 };
    let frame = read_messages_request(&read);
    let messages = read_messages_response(&exchange(&mut dispatcher, frame, true)).unwrap();
    assert_eq!(messages.len(), 2);
    assert_eq!((messages[0].offset, messages[1].offset), (1, 2));
    assert_eq!(messages[1].payload, vec![3]);
    let frame = append_messages_request(&append).unwrap();
    let appended = append_messages_response(&exchange(&mut dispatcher, frame, true)).unwrap();
    assert_eq!((appended.first_offset, appended.count), (3, 3));
    let missing = AppendMessages { partition_id: 2, ..append };
    let frame = append_messages_request(&missing).unwrap();
    assert_eq!(
        append_messages_response(&exchange(&mut dispatcher, frame, true)),
        Err(Error::NotFound)
    );
}

#[test]
fn nothing_changes_where_the_byte_store_fails() {
    let mut dispatcher = Dispatcher::new(Catalog::new(1024));
    assert_eq!(create_stream(&mut dispatcher, 1, "s", false), Err(Error::IoError));
    assert!(listing(&mut dispatcher).is_empty());
    assert_eq!(create_stream(&mut dispatcher, 1, "s", true), Ok(()));
    assert_eq!(create_topic(&mut dispatcher, 1, 1, false), Err(Error::IoError));
    assert_eq!(listing(&mut dispatcher)[0].topics_count, 0);
    assert_eq!(create_topic(&mut dispatcher, 1, 1, true), Ok(()));
    let append =
        AppendMessages { stream_id: 1, topic_id: 1, partition_id: 1, messages: vec![vec![1]] };
    let frame = append_messages_request(&append).unwrap();
    assert_eq!(
        append_messages_response(&exchange(&mut dispatcher, frame, false)),
        Err(Error::IoError)
    );
    assert_eq!(dispatcher.catalog().get_partition(1, 1, 1).unwrap().next_offset(), 0);
    let frame = append_messages_request(&append).unwrap();
    let appended = append_messages_response(&exchange(&mut dispatcher, frame, true)).unwrap();
    assert_eq!(appended.first_offset, 0);
}

#[test]
fn deleted_stream_stays_deleted_where_the_byte_store_fails() {
    let mut dispatcher = Dispatcher::new(Catalog::new(1024));
    create_stream(&mut dispatcher, 1, "s", true).unwrap();
    create_topic(&mut dispatcher, 1, 1, true).unwrap();
    let frame = delete_stream_request(&DeleteStream { stream_id: 1 });
    assert_eq!(done_response(&exchange(&mut dispatcher, frame, false)), Err(Error::IoError));
    assert!(listing(&mut dispatcher).is_empty());
    let frame = delete_stream_request(&DeleteStream { stream_id: 1 });
    assert_eq!(done_response(&exchange(&mut dispatcher, frame, true)), Err(Error::NotFound));
    create_stream(&mut dispatcher, 1, "s", true).unwrap();
    let frame = delete_stream_request(&DeleteStream { stream_id: 1 });
    assert_eq!(done_response(&exchange(&mut dispatcher, frame, true)), Ok(()));
}

#[test]
fn frame_that_is_no_command_closes_the_connection() {
    let mut dispatcher = Dispatcher::new(Catalog::new(1024));
    assert!(matches!(dispatcher.handle(&[1, 2, 3], 0), Outcome::Disconnect));
    assert!(matches!(dispatcher.handle(&[4, 0, 0, 0, 9, 9, 9, 9], 0), Outcome::Disconnect));
    assert!(listing(&mut dispatcher).is_empty());
}

#[test]
fn reply_that_is_no_response_is_a_protocol_error() {
    assert_eq!(done_response(&[]), Err(Error::ProtocolError));
    assert_eq!(done_response(&[4, 0, 0, 0, 0, 0, 0, 0]), Ok(()));
    assert_eq!(done_response(&[5, 0, 0, 0, 0, 0, 0, 0, 1]), Err(Error::ProtocolError));
    assert!(matches!(get_streams_response(&[4, 0, 0, 0, 0, 0, 0, 0]), Err(Error::ProtocolError)));
}

#[test]
fn initializer_creates_what_is_missing() {
    let existing = vec![Stream { id: 12, created_at: 0, topics_count: 1, name: "x".to_string() }];
    let commands = init_streams(10, 3, &existing);
    assert_eq!(commands.len(), 4);
    match (&commands[0], &commands[1], &commands[2], &commands[3]) {
        (
            Command::CreateStream(s1),
            Command::CreateTopic(t1),
            Command::CreateStream(s2),
            Command::CreateTopic(t2),
        ) => {
            assert_eq!((s1.stream_id, s1.name.as_str()), (11, "stream 11"));
            assert_eq!((t1.stream_id, t1.topic_id, t1.partitions_count), (11, 1, 1));
            assert_eq!(t1.name, "topic 1");
            assert_eq!((s2.stream_id, s2.name.as_str()), (13, "stream 13"));
            assert_eq!(t2.stream_id, 13);
        }
        _ => panic!("streams and topics were expected in turn"),
    }
    assert!(init_streams(10, 0, &existing).is_empty());
    assert!(init_streams(11, 1, &existing).is_empty());
    assert_eq!(init_streams(u32::MAX - 1, 1, &existing).len(), 2);
}

#[test]
fn initializer_runs_twice_without_harm() {
    let mut dispatcher = Dispatcher::new(Catalog::new(1024));
    for round in 0..2 {
        let existing = listing(&mut dispatcher);
        let commands = init_streams(0, 2, &existing);
        assert_eq!(commands.len(), if round == 0 { 4 } else { 0 });
        for command in commands {
            let frame = command.try_encode().unwrap();
            assert_eq!(done_response(&exchange(&mut dispatcher, frame, true)), Ok(()));
        }
    }
    assert_eq!(listing(&mut dispatcher).len(), 2);
}
