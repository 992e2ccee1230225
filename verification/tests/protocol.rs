//! The frames between client and server.

use vectis_crdt::protocol::{decode_message, encode_message, ProtocolError, ProtocolMessage};
use vectis_crdt::types::ActorId;

#[test]
fn client_hello_roundtrip() {
    let message = ProtocolMessage::ClientHello {
        room: "demo".to_string(),
        resume_token: "token-1".to_string(),
        state_vector: vec![1, 2, 3],
    };
    let encoded = encode_message(&message);
    assert_eq!(decode_message(&encoded), Ok(message));
}

#[test]
fn welcome_roundtrip() {
    let message = ProtocolMessage::ServerWelcome {
        actor: ActorId(42),
        color: 0xa78bfaff,
        resume_token: "token-1".to_string(),
    };
    let encoded = encode_message(&message);
    assert_eq!(decode_message(&encoded), Ok(message));
}

#[test]
fn mvv_and_awareness_roundtrip() {
    for message in [
        ProtocolMessage::Mvv { bytes: vec![1, 2, 3] },
        ProtocolMessage::Awareness { bytes: vec![4, 5, 6] },
    ] {
        let encoded = encode_message(&message);
        assert_eq!(decode_message(&encoded), Ok(message));
    }
}

#[test]
fn rejects_trailing_bytes() {
    let mut encoded = encode_message(&ProtocolMessage::Update { bytes: vec![1] });
    encoded.push(9);
    assert_eq!(decode_message(&encoded), Err(ProtocolError::TrailingBytes));
}

#[test]
fn remaining_messages_roundtrip() {
    for message in [
        ProtocolMessage::Snapshot { bytes: vec![] },
        ProtocolMessage::Update { bytes: vec![0; 300] },
        ProtocolMessage::StateVector { bytes: vec![7] },
        ProtocolMessage::Error { message: "schön".to_string() },
    ] {
        let encoded = encode_message(&message);
        assert_eq!(decode_message(&encoded), Ok(message));
    }
}

#[test]
fn frame_layout() {
    assert_eq!(encode_message(&ProtocolMessage::Update { bytes: vec![8, 9] }), vec![1, 4, 2, 8, 9]);
    assert_eq!(
        encode_message(&ProtocolMessage::ServerWelcome {
            actor: ActorId(300),
            color: 0x01020304,
            resume_token: "r".to_string(),
        }),
        vec![1, 2, 0xac, 0x02, 4, 3, 2, 1, 1, b'r']
    );
}

#[test]
fn unreadable_frames_are_told_apart() {
    assert_eq!(decode_message(&[]), Err(ProtocolError::Empty));
    assert_eq!(decode_message(&[2, 4]), Err(ProtocolError::VersionMismatch { expected: 1, got: 2 }));
    assert_eq!(decode_message(&[1]), Err(ProtocolError::Truncated));
    assert_eq!(decode_message(&[1, 99]), Err(ProtocolError::UnknownTag(99)));
    assert_eq!(decode_message(&[1, 4, 5, 1]), Err(ProtocolError::Truncated));
    assert_eq!(decode_message(&[1, 6, 1, 0xff]), Err(ProtocolError::InvalidUtf8));
}

#[test]
fn error_labels() {
    for e in [
        ProtocolError::Empty,
        ProtocolError::VersionMismatch { expected: 1, got: 20 },
        ProtocolError::UnknownTag(99),
        ProtocolError::Truncated,
        ProtocolError::InvalidUtf8,
        ProtocolError::TrailingBytes,
    ] {
        assert_eq!(e.label_text(), format!("{:?}", e));
    }
}

#[test]
fn a_frame_that_breaks_off_or_goes_on_is_refused() {
    for message in [
        ProtocolMessage::ClientHello {
            room: "schön".to_string(),
            resume_token: "t".to_string(),
            state_vector: vec![200; 130],
        },
        ProtocolMessage::ServerWelcome { actor: ActorId(300), color: 7, resume_token: "t".to_string() },
        ProtocolMessage::Snapshot { bytes: vec![] },
        ProtocolMessage::Update { bytes: vec![0; 300] },
        ProtocolMessage::StateVector { bytes: vec![7] },
        ProtocolMessage::Mvv { bytes: vec![1, 2] },
        ProtocolMessage::Awareness { bytes: vec![4, 5, 6] },
        ProtocolMessage::Error { message: "nö".to_string() },
    ] {
        let mut frame = encode_message(&message);
        assert_eq!(decode_message(&frame[..0]), Err(ProtocolError::Empty));
        for n in 1..frame.len() {
            assert_eq!(decode_message(&frame[..n]), Err(ProtocolError::Truncated));
        }
        for extra in [0, 0xff, 1] {
            frame.push(extra);
            assert_eq!(decode_message(&frame), Err(ProtocolError::TrailingBytes));
        }
    }
}
