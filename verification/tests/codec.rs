use streaming::command::{
    AppendMessages, Command, CreateStream, CreateTopic, DeleteStream, GetStream, GetStreams,
    ReadMessages,
};
use streaming::error::Error;
use streaming::frame::{body_length, from_frame, to_frame};
use streaming::message::Message;
use streaming::response::{Appended, Counted, Empty, Response};
use streaming::stream::{Stream, StreamDetails};
use streaming::topic::Topic;

fn round_trip(command: &Command) -> Command {
    let frame = command.try_encode().expect("the command fits");
    Command::decode(&frame).expect("a frame that was encoded is decoded")
}

#[test]
fn create_stream_round_trip() {
    let command = Command::CreateStream(CreateStream { stream_id: 1, name: "s".to_string() });
    let frame = command.try_encode().expect("the command fits");
    assert_eq!(frame, vec![10, 0, 0, 0, 202, 0, 0, 0, 1, 0, 0, 0, 1, b's']);
    match Command::decode(&frame) {
        Ok(Command::CreateStream(c)) => {
            assert_eq!(c.stream_id, 1);
            assert_eq!(c.name, "s");
        }
        _ => panic!("a create-stream command was expected"),
    }
}

#[test]
fn get_streams_round_trip() {
    let frame = Command::GetStreams(GetStreams {}).try_encode().expect("the command fits");
    assert_eq!(frame, vec![4, 0, 0, 0, 201, 0, 0, 0]);
    assert!(matches!(Command::decode(&frame), Ok(Command::GetStreams(_))));
}

#[test]
fn get_stream_round_trip() {
    let frame = Command::GetStream(GetStream { stream_id: 0x0102_0304 })
        .try_encode()
        .expect("the command fits");
    assert_eq!(frame, vec![8, 0, 0, 0, 200, 0, 0, 0, 4, 3, 2, 1]);
    match Command::decode(&frame) {
        Ok(Command::GetStream(c)) => assert_eq!(c.stream_id, 0x0102_0304),
        _ => panic!("a get-stream command was expected"),
    }
}

#[test]
fn delete_stream_round_trip() {
    let frame = Command::DeleteStream(DeleteStream { stream_id: 7 })
        .try_encode()
        .expect("the command fits");
    assert_eq!(frame, vec![8, 0, 0, 0, 203, 0, 0, 0, 7, 0, 0, 0]);
    match Command::decode(&frame) {
        Ok(Command::DeleteStream(c)) => assert_eq!(c.stream_id, 7),
        _ => panic!("a delete-stream command was expected"),
    }
}

#[test]
fn create_topic_round_trip() {
    let command = Command::CreateTopic(CreateTopic {
        stream_id: 99,
        topic_id: 1,
        partitions_count: 3,
        name: "t\u{e9}".to_string(),
    });
    let frame = command.try_encode().expect("the command fits");
    assert_eq!(
        frame,
        vec![20, 0, 0, 0, 46, 1, 0, 0, 99, 0, 0, 0, 1, 0, 0, 0, 3, 0, 0, 0, 3, b't', 0xc3, 0xa9]
    );
    match round_trip(&command) {
        Command::CreateTopic(c) => {
            assert_eq!(c.stream_id, 99);
            assert_eq!(c.topic_id, 1);
            assert_eq!(c.partitions_count, 3);
            assert_eq!(c.name, "t\u{e9}");
        }
        _ => panic!("a create-topic command was expected"),
    }
}

#[test]
fn append_messages_round_trip() {
    let command = Command::AppendMessages(AppendMessages {
        stream_id: 1,
        topic_id: 2,
        partition_id: 3,
        messages: vec![vec![1, 2, 3], vec![], vec![9]],
    });
    let frame = command.try_encode().expect("the command fits");
    assert_eq!(
        frame,
        vec![
            36, 0, 0, 0, 101, 0, 0, 0, 1, 0, 0, 0, 2, 0, 0, 0, 3, 0, 0, 0, 3, 0, 0, 0, 3, 0, 0,
            0, 1, 2, 3, 0, 0, 0, 0, 1, 0, 0, 0, 9
        ]
    );
    match round_trip(&command) {
        Command::AppendMessages(c) => {
            assert_eq!((c.stream_id, c.topic_id, c.partition_id), (1, 2, 3));
            assert_eq!(c.messages, vec![vec![1, 2, 3], vec![], vec![9]]);
        }
        _ => panic!("an append command was expected"),
    }
}

#[test]
fn read_messages_round_trip() {
    let command = Command::ReadMessages(ReadMessages {
        stream_id: 1,
        topic_id: 1,
        partition_id: 1,
        start_offset: 0x0102_0304_0506_0708,
        count: 10,
    });
    let frame = command.try_encode().expect("the command fits");
    assert_eq!(
        frame,
        vec![
            28, 0, 0, 0, 100, 0, 0, 0, 1, 0, 0, 0, 1, 0, 0, 0, 1, 0, 0, 0, 8, 7, 6, 5, 4, 3, 2,
            1, 10, 0, 0, 0
        ]
    );
    match round_trip(&command) {
        Command::ReadMessages(c) => {
            assert_eq!(c.start_offset, 0x0102_0304_0506_0708);
            assert_eq!(c.count, 10);
        }
        _ => panic!("a read command was expected"),
    }
}

#[test]
fn longest_name_travels_and_longer_does_not() {
    let fits = Command::CreateStream(CreateStream { stream_id: 1, name: "n".repeat(255) });
    let frame = fits.try_encode().expect("255 bytes fit");
    assert_eq!(frame.len(), 4 + 4 + 4 + 1 + 255);
    assert_eq!(frame[12], 255);
    assert!(matches!(round_trip(&fits), Command::CreateStream(c) if c.name.len() == 255));
    let too_long = Command::CreateStream(CreateStream { stream_id: 1, name: "n".repeat(256) });
    assert!(too_long.try_encode().is_none());
}

#[test]
fn empty_name_travels() {
    let command = Command::CreateStream(CreateStream { stream_id: 5, name: String::new() });
    let frame = command.try_encode().expect("the command fits");
    assert_eq!(frame, vec![9, 0, 0, 0, 202, 0, 0, 0, 5, 0, 0, 0, 0]);
    assert!(matches!(round_trip(&command), Command::CreateStream(c) if c.name.is_empty()));
}

#[test]
fn truncated_frame_is_rejected() {
    let frame = vec![10, 0, 0, 0, 202, 0, 0, 0, 1, 0, 0, 0, 1];
    assert!(matches!(Command::decode(&frame), Err(Error::ProtocolError)));
}

#[test]
fn short_and_empty_input_is_rejected() {
    assert!(matches!(Command::decode(&[]), Err(Error::ProtocolError)));
    assert!(matches!(Command::decode(&[4, 0, 0]), Err(Error::ProtocolError)));
    assert!(matches!(Command::decode(&[0, 0, 0, 0]), Err(Error::ProtocolError)));
}

#[test]
fn wrong_length_is_rejected() {
    let frame = vec![11, 0, 0, 0, 202, 0, 0, 0, 1, 0, 0, 0, 1, b's'];
    assert!(matches!(Command::decode(&frame), Err(Error::ProtocolError)));
    let frame = vec![9, 0, 0, 0, 202, 0, 0, 0, 1, 0, 0, 0, 1, b's'];
    assert!(matches!(Command::decode(&frame), Err(Error::ProtocolError)));
}

#[test]
fn unknown_code_is_rejected() {
    let frame = vec![4, 0, 0, 0, 255, 255, 0, 0];
    assert!(matches!(Command::decode(&frame), Err(Error::ProtocolError)));
}

#[test]
fn invalid_utf8_is_rejected() {
    let frame = vec![10, 0, 0, 0, 202, 0, 0, 0, 1, 0, 0, 0, 1, 0xff];
    assert!(matches!(Command::decode(&frame), Err(Error::ProtocolError)));
}

#[test]
fn bytes_left_over_are_rejected() {
    let frame = vec![9, 0, 0, 0, 203, 0, 0, 0, 7, 0, 0, 0, 0];
    assert!(matches!(Command::decode(&frame), Err(Error::ProtocolError)));
    let frame = vec![11, 0, 0, 0, 202, 0, 0, 0, 1, 0, 0, 0, 1, b's', b'x'];
    assert!(matches!(Command::decode(&frame), Err(Error::ProtocolError)));
}

#[test]
fn count_that_does_not_match_is_rejected() {
    // Two payloads are announced, one stands there.
    let frame = vec![
        24, 0, 0, 0, 101, 0, 0, 0, 1, 0, 0, 0, 2, 0, 0, 0, 3, 0, 0, 0, 2, 0, 0, 0, 0, 0, 0, 0,
    ];
    assert!(matches!(Command::decode(&frame), Err(Error::ProtocolError)));
    // A payload announces more bytes than the frame holds.
    let frame = vec![
        24, 0, 0, 0, 101, 0, 0, 0, 1, 0, 0, 0, 2, 0, 0, 0, 3, 0, 0, 0, 1, 0, 0, 0, 255, 255,
        255, 255,
    ];
    assert!(matches!(Command::decode(&frame), Err(Error::ProtocolError)));
}

#[test]
fn body_length_reads_the_prefix() {
    assert_eq!(body_length(&[10, 0, 0, 0]), Some(10));
    assert_eq!(body_length(&[0, 1, 0, 0, 99]), Some(256));
    assert_eq!(body_length(&[10, 0, 0]), None);
}

#[test]
fn response_with_stream_details_round_trip() {
    let details = StreamDetails {
        id: 1,
        created_at: 1000,
        name: "s".to_string(),
        topics: vec![Topic { id: 2, partitions_count: 3, name: "t".to_string() }],
    };
    let frame = to_frame(&Response::Done(details)).expect("the response fits");
    assert_eq!(
        frame,
        vec![
            32, 0, 0, 0, 0, 0, 0, 0, 1, 0, 0, 0, 232, 3, 0, 0, 0, 0, 0, 0, 1, b's', 1, 0, 0, 0,
            2, 0, 0, 0, 3, 0, 0, 0, 1, b't'
        ]
    );
    match from_frame::<Response<StreamDetails>>(&frame) {
        Ok(Response::Done(d)) => {
            assert_eq!((d.id, d.created_at), (1, 1000));
            assert_eq!(d.name, "s");
            assert_eq!(d.topics.len(), 1);
            assert_eq!((d.topics[0].id, d.topics[0].partitions_count), (2, 3));
            assert_eq!(d.topics[0].name, "t");
        }
        _ => panic!("a stream was expected"),
    }
}

#[test]
fn response_with_listing_round_trip() {
    let items = vec![
        Stream { id: 1, created_at: 5, topics_count: 0, name: "a".to_string() },
        Stream { id: 2, created_at: 6, topics_count: 4, name: "bc".to_string() },
    ];
    let frame = to_frame(&Response::Done(Counted { items })).expect("the response fits");
    match from_frame::<Response<Counted<Stream>>>(&frame) {
        Ok(Response::Done(list)) => {
            assert_eq!(list.items.len(), 2);
            assert_eq!(list.items[1].id, 2);
            assert_eq!(list.items[1].created_at, 6);
            assert_eq!(list.items[1].topics_count, 4);
            assert_eq!(list.items[1].name, "bc");
        }
        _ => panic!("a listing was expected"),
    }
}

#[test]
fn response_with_messages_round_trip() {
    let items =
        vec![Message { offset: 1, payload: vec![7] }, Message { offset: 2, payload: vec![] }];
    let frame = to_frame(&Response::Done(Counted { items })).expect("the response fits");
    assert_eq!(
        frame,
        vec![
            33, 0, 0, 0, 0, 0, 0, 0, 2, 0, 0, 0, 1, 0, 0, 0, 0, 0, 0, 0, 1, 0, 0, 0, 7, 2, 0, 0,
            0, 0, 0, 0, 0, 0, 0, 0, 0
        ]
    );
    match from_frame::<Response<Counted<Message>>>(&frame) {
        Ok(Response::Done(list)) => {
            assert_eq!(list.items.len(), 2);
            assert_eq!(list.items[0].offset, 1);
            assert_eq!(list.items[0].payload, vec![7]);
            assert_eq!(list.items[1].offset, 2);
        }
        _ => panic!("messages were expected"),
    }
}

#[test]
fn response_with_error_round_trip() {
    let errors = [
        (Error::IoError, 1u8),
        (Error::ProtocolError, 2),
        (Error::NotFound, 3),
        (Error::AlreadyExists, 4),
        (Error::Corruption, 5),
    ];
    for (error, status) in errors {
        let response: Response<Empty> = Response::failure(error);
        let frame = to_frame(&response).expect("an error fits");
        assert_eq!(frame[4..8], [status, 0, 0, 0]);
        assert_eq!(frame[8] as usize, error.message().len());
        assert_eq!(&frame[9..], error.message().as_bytes());
        match from_frame::<Response<Empty>>(&frame) {
            Ok(Response::Failed(e, text)) => {
                assert_eq!(e, error);
                assert_eq!(text, error.message());
            }
            _ => panic!("an error was expected"),
        }
        assert_eq!(error.to_status(), status as u32);
        assert_eq!(Error::from_status(status as u32), Some(error));
    }
    assert_eq!(Error::from_status(0), None);
    assert_eq!(Error::from_status(6), None);
}

#[test]
fn response_with_unknown_status_is_rejected() {
    let frame = vec![5, 0, 0, 0, 9, 0, 0, 0, 0];
    assert!(matches!(from_frame::<Response<Empty>>(&frame), Err(Error::ProtocolError)));
}

#[test]
fn appended_round_trip() {
    let frame = to_frame(&Response::Done(Appended { first_offset: 3, count: 2 }))
        .expect("the response fits");
    assert_eq!(frame, vec![16, 0, 0, 0, 0, 0, 0, 0, 3, 0, 0, 0, 0, 0, 0, 0, 2, 0, 0, 0]);
    match from_frame::<Response<Appended>>(&frame) {
        Ok(Response::Done(a)) => assert_eq!(a, Appended { first_offset: 3, count: 2 }),
        _ => panic!("an append result was expected"),
    }
}
