//! The life of a connection.

use vectis_crdt::connection::{step, Action, Phase, SocketEvent};
use vectis_crdt::protocol::{encode_message, ProtocolMessage};

fn hello(room: &str) -> Vec<u8> {
    encode_message(&ProtocolMessage::ClientHello {
        room: room.to_string(),
        resume_token: "t".to_string(),
        state_vector: vec![0],
    })
}

#[test]
fn a_hello_joins() {
    let (phase, action) = step(Phase::Greeting, SocketEvent::Binary(hello("studio")), None);
    assert_eq!(phase, Phase::Joined);
    let Action::Join(greeting) = action else {
        panic!("expected to join");
    };
    assert_eq!((greeting.room.as_str(), greeting.resume_token.as_str()), ("studio", "t"));
    let (_, action) = step(Phase::Greeting, SocketEvent::Binary(hello("")), Some("hinted".to_string()));
    assert!(matches!(action, Action::Join(greeting) if greeting.room == "hinted"));
}

#[test]
fn other_beginnings_end_the_connection() {
    for event in [SocketEvent::Close, SocketEvent::Other] {
        let (phase, action) = step(Phase::Greeting, event, None);
        assert_eq!(phase, Phase::Ended);
        assert!(matches!(action, Action::Refuse(message) if message == "invalid hello: UnknownTag(0)"));
    }
    let (phase, action) = step(Phase::Greeting, SocketEvent::Binary(vec![1, 4, 0]), None);
    assert_eq!(phase, Phase::Ended);
    assert!(matches!(action, Action::Refuse(message) if message == "first frame must be ClientHello"));
    let (phase, action) = step(Phase::Greeting, SocketEvent::Lost, None);
    assert_eq!(phase, Phase::Ended);
    assert!(matches!(action, Action::End));
}

#[test]
fn members_talk_until_they_leave() {
    let (phase, action) = step(Phase::Joined, SocketEvent::Binary(vec![5]), None);
    assert_eq!(phase, Phase::Joined);
    assert!(matches!(action, Action::Process(frame) if frame == vec![5]));
    let (phase, action) = step(Phase::Joined, SocketEvent::Other, None);
    assert_eq!(phase, Phase::Joined);
    assert!(matches!(action, Action::Ignore));
    for event in [SocketEvent::Close, SocketEvent::Lost] {
        let (phase, action) = step(Phase::Joined, event, None);
        assert_eq!(phase, Phase::Ended);
        assert!(matches!(action, Action::Leave));
    }
    let (phase, action) = step(Phase::Ended, SocketEvent::Binary(hello("studio")), None);
    assert_eq!(phase, Phase::Ended);
    assert!(matches!(action, Action::Ignore));
}

#[test]
fn whoever_joins_leaves_once() {
    let mut phase = Phase::Greeting;
    let (mut joins, mut leaves, mut frames) = (0, 0, 0);
    let events = vec![
        SocketEvent::Binary(hello("a")),
        SocketEvent::Other,
        SocketEvent::Binary(hello("b")),
        SocketEvent::Close,
        SocketEvent::Binary(hello("c")),
        SocketEvent::Lost,
    ];
    for event in events {
        let (next, action) = step(phase, event, None);
        phase = next;
        match action {
            Action::Join(_) => joins += 1,
            Action::Leave => leaves += 1,
            Action::Process(_) => frames += 1,
            _ => {},
        }
    }
    assert_eq!((phase, joins, leaves, frames), (Phase::Ended, 1, 1, 1));
}
