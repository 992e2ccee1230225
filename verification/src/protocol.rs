//! The protocol between client and relay server.
//!
//! A frame is a version byte, a tag and the fields of the message. Byte
//! strings and texts are length-prefixed; nothing may follow the last field.

use crate::text;
use crate::types::ActorId;
use crate::wire;
use vstd::prelude::*;

verus! {

/// The version of the protocol.
pub const PROTOCOL_VERSION: u8 = 1;

pub const TAG_CLIENT_HELLO: u8 = 1;

pub const TAG_SERVER_WELCOME: u8 = 2;

pub const TAG_SNAPSHOT: u8 = 3;

pub const TAG_UPDATE: u8 = 4;

pub const TAG_STATE_VECTOR: u8 = 5;

pub const TAG_ERROR: u8 = 6;

pub const TAG_MVV: u8 = 7;

pub const TAG_AWARENESS: u8 = 8;

/// Why a frame cannot be read.
#[derive(Debug, Clone, Copy, PartialEq, Eq, Structural)]
pub enum ProtocolError {
    Empty,
    VersionMismatch { expected: u8, got: u8 },
    UnknownTag(u8),
    Truncated,
    InvalidUtf8,
    TrailingBytes,
}

impl ProtocolError {
    /// The text by which a server names the error.
    pub open spec fn label(self) -> Seq<char> {
        match self {
            ProtocolError::Empty => "Empty"@,
            ProtocolError::VersionMismatch { expected, got } => "VersionMismatch { expected: "@ + text::decimal(
                expected as nat,
            ) + ", got: "@ + text::decimal(got as nat) + " }"@,
            ProtocolError::UnknownTag(tag) => "UnknownTag("@ + text::decimal(tag as nat) + ")"@,
            ProtocolError::Truncated => "Truncated"@,
            ProtocolError::InvalidUtf8 => "InvalidUtf8"@,
            ProtocolError::TrailingBytes => "TrailingBytes"@,
        }
    }

    /// The text by which a server names the error.
    pub fn label_text(&self) -> (text: String)
        ensures
            text@ == self.label(),
    {
        let mut out = String::new();
        match self {
            ProtocolError::Empty => out.append("Empty"),
            ProtocolError::VersionMismatch { expected, got } => {
                out.append("VersionMismatch { expected: ");
                text::push_decimal(&mut out, *expected as u64);
                out.append(", got: ");
                text::push_decimal(&mut out, *got as u64);
                out.append(" }");
            },
            ProtocolError::UnknownTag(tag) => {
                out.append("UnknownTag(");
                text::push_decimal(&mut out, *tag as u64);
                out.append(")");
            },
            ProtocolError::Truncated => out.append("Truncated"),
            ProtocolError::InvalidUtf8 => out.append("InvalidUtf8"),
            ProtocolError::TrailingBytes => out.append("TrailingBytes"),
        }
        proof {
            assert(out@ =~= self.label());
        }
        out
    }
}

pub type ProtocolResult<T> = Result<T, ProtocolError>;

/// A message.
#[derive(Debug, PartialEq, Eq)]
pub enum ProtocolMessage {
    ClientHello { room: String, resume_token: String, state_vector: Vec<u8> },
    ServerWelcome { actor: ActorId, color: u32, resume_token: String },
    Snapshot { bytes: Vec<u8> },
    Update { bytes: Vec<u8> },
    StateVector { bytes: Vec<u8> },
    Mvv { bytes: Vec<u8> },
    Awareness { bytes: Vec<u8> },
    Error { message: String },
}

/// The contents of a [`ProtocolMessage`].
#[verifier::ext_equal]
pub enum MessageView {
    ClientHello { room: Seq<char>, resume_token: Seq<char>, state_vector: Seq<u8> },
    ServerWelcome { actor: ActorId, color: u32, resume_token: Seq<char> },
    Snapshot { bytes: Seq<u8> },
    Update { bytes: Seq<u8> },
    StateVector { bytes: Seq<u8> },
    Mvv { bytes: Seq<u8> },
    Awareness { bytes: Seq<u8> },
    Error { message: Seq<char> },
}

impl View for ProtocolMessage {
    type V = MessageView;

    open spec fn view(&self) -> MessageView {
        match self {
            ProtocolMessage::ClientHello { room, resume_token, state_vector } => MessageView::ClientHello {
                room: room@,
                resume_token: resume_token@,
                state_vector: state_vector@,
            },
            ProtocolMessage::ServerWelcome { actor, color, resume_token } => MessageView::ServerWelcome {
                actor: *actor,
                color: *color,
                resume_token: resume_token@,
            },
            ProtocolMessage::Snapshot { bytes } => MessageView::Snapshot { bytes: bytes@ },
            ProtocolMessage::Update { bytes } => MessageView::Update { bytes: bytes@ },
            ProtocolMessage::StateVector { bytes } => MessageView::StateVector { bytes: bytes@ },
            ProtocolMessage::Mvv { bytes } => MessageView::Mvv { bytes: bytes@ },
            ProtocolMessage::Awareness { bytes } => MessageView::Awareness { bytes: bytes@ },
            ProtocolMessage::Error { message } => MessageView::Error { message: message@ },
        }
    }
}

fn clone_bytes(bytes: &Vec<u8>) -> (copy: Vec<u8>)
    ensures
        copy@ == bytes@,
{
    wire::copy_range(bytes.as_slice(), 0, bytes.len())
}

impl Clone for ProtocolMessage {
    fn clone(&self) -> (copy: Self)
        ensures
            copy@ == self@,
    {
        match self {
            ProtocolMessage::ClientHello { room, resume_token, state_vector } => ProtocolMessage::ClientHello {
                room: room.clone(),
                resume_token: resume_token.clone(),
                state_vector: clone_bytes(state_vector),
            },
            ProtocolMessage::ServerWelcome { actor, color, resume_token } => ProtocolMessage::ServerWelcome {
                actor: *actor,
                color: *color,
                resume_token: resume_token.clone(),
            },
            ProtocolMessage::Snapshot { bytes } => ProtocolMessage::Snapshot { bytes: clone_bytes(bytes) },
            ProtocolMessage::Update { bytes } => ProtocolMessage::Update { bytes: clone_bytes(bytes) },
            ProtocolMessage::StateVector { bytes } => ProtocolMessage::StateVector { bytes: clone_bytes(bytes) },
            ProtocolMessage::Mvv { bytes } => ProtocolMessage::Mvv { bytes: clone_bytes(bytes) },
            ProtocolMessage::Awareness { bytes } => ProtocolMessage::Awareness { bytes: clone_bytes(bytes) },
            ProtocolMessage::Error { message } => ProtocolMessage::Error { message: message.clone() },
        }
    }
}

/// A length-prefixed text.
pub open spec fn text_bytes(t: Seq<char>) -> Seq<u8> {
    wire::prefixed(vstd::utf8::encode_utf8(t))
}

/// The tag and the fields of a message.
pub open spec fn body_bytes(m: MessageView) -> Seq<u8> {
    match m {
        MessageView::ClientHello { room, resume_token, state_vector } => seq![TAG_CLIENT_HELLO] + text_bytes(room)
            + text_bytes(resume_token) + wire::prefixed(state_vector),
        MessageView::ServerWelcome { actor, color, resume_token } => seq![TAG_SERVER_WELCOME] + wire::varint(
            actor.0 as nat,
        ) + wire::le(color as nat, 4) + text_bytes(resume_token),
        MessageView::Snapshot { bytes } => seq![TAG_SNAPSHOT] + wire::prefixed(bytes),
        MessageView::Update { bytes } => seq![TAG_UPDATE] + wire::prefixed(bytes),
        MessageView::StateVector { bytes } => seq![TAG_STATE_VECTOR] + wire::prefixed(bytes),
        MessageView::Mvv { bytes } => seq![TAG_MVV] + wire::prefixed(bytes),
        MessageView::Awareness { bytes } => seq![TAG_AWARENESS] + wire::prefixed(bytes),
        MessageView::Error { message } => seq![TAG_ERROR] + text_bytes(message),
    }
}

/// The frame of a message.
pub open spec fn frame_bytes(m: MessageView) -> Seq<u8> {
    seq![PROTOCOL_VERSION] + body_bytes(m)
}

/// A length-prefixed byte string at the head of `s`.
pub open spec fn read_blob(s: Seq<u8>) -> Result<(Seq<u8>, Seq<u8>), ProtocolError> {
    match wire::read_prefixed(s) {
        Some((bytes, rest)) => Ok((bytes, rest)),
        None => Err(ProtocolError::Truncated),
    }
}

/// A length-prefixed text at the head of `s`.
pub open spec fn read_string(s: Seq<u8>) -> Result<(Seq<char>, Seq<u8>), ProtocolError> {
    match read_blob(s) {
        Ok((bytes, rest)) => match text::utf8_text(bytes) {
            Some(t) => Ok((t, rest)),
            None => Err(ProtocolError::InvalidUtf8),
        },
        Err(e) => Err(e),
    }
}

pub open spec fn read_hello(s: Seq<u8>) -> Result<(MessageView, Seq<u8>), ProtocolError> {
    match read_string(s) {
        Ok((room, s)) => match read_string(s) {
            Ok((resume_token, s)) => match read_blob(s) {
                Ok((state_vector, s)) => Ok((MessageView::ClientHello { room, resume_token, state_vector }, s)),
                Err(e) => Err(e),
            },
            Err(e) => Err(e),
        },
        Err(e) => Err(e),
    }
}

pub open spec fn read_welcome(s: Seq<u8>) -> Result<(MessageView, Seq<u8>), ProtocolError> {
    match wire::read_varint(s) {
        Some((actor, s)) => match wire::read_le(s, 4) {
            Some((color, s)) => match read_string(s) {
                Ok((resume_token, s)) => Ok(
                    (MessageView::ServerWelcome { actor: ActorId(actor), color: color as u32, resume_token }, s),
                ),
                Err(e) => Err(e),
            },
            None => Err(ProtocolError::Truncated),
        },
        None => Err(ProtocolError::Truncated),
    }
}

/// The fields of a message with the given tag, at the head of `s`.
pub open spec fn read_fields(tag: u8, s: Seq<u8>) -> Result<(MessageView, Seq<u8>), ProtocolError> {
    if tag == TAG_CLIENT_HELLO {
        read_hello(s)
    } else if tag == TAG_SERVER_WELCOME {
        read_welcome(s)
    } else if tag == TAG_ERROR {
        match read_string(s) {
            Ok((message, s)) => Ok((MessageView::Error { message }, s)),
            Err(e) => Err(e),
        }
    } else if 3 <= tag <= 8 {
        match read_blob(s) {
            Ok((bytes, s)) => Ok(
                (
                    if tag == TAG_SNAPSHOT {
                        MessageView::Snapshot { bytes }
                    } else if tag == TAG_UPDATE {
                        MessageView::Update { bytes }
                    } else if tag == TAG_STATE_VECTOR {
                        MessageView::StateVector { bytes }
                    } else if tag == TAG_MVV {
                        MessageView::Mvv { bytes }
                    } else {
                        MessageView::Awareness { bytes }
                    },
                    s,
                ),
            ),
            Err(e) => Err(e),
        }
    } else {
        Err(ProtocolError::UnknownTag(tag))
    }
}

/// What a frame says, or why it cannot be read.
pub open spec fn parse_message(s: Seq<u8>) -> Result<MessageView, ProtocolError> {
    if s.len() == 0 {
        Err(ProtocolError::Empty)
    } else if s[0] != PROTOCOL_VERSION {
        Err(ProtocolError::VersionMismatch { expected: PROTOCOL_VERSION, got: s[0] })
    } else if s.len() < 2 {
        Err(ProtocolError::Truncated)
    } else {
        match read_fields(s[1], s.skip(2)) {
            Ok((m, rest)) => if rest.len() == 0 {
                Ok(m)
            } else {
                Err(ProtocolError::TrailingBytes)
            },
            Err(e) => Err(e),
        }
    }
}

/// Encodes a message as a frame.
pub fn encode_message(message: &ProtocolMessage) -> (out: Vec<u8>)
    ensures
        out@ == frame_bytes(message@),
{
    let mut out: Vec<u8> = Vec::new();
    out.push(PROTOCOL_VERSION);
    match message {
        ProtocolMessage::ClientHello { room, resume_token, state_vector } => {
            out.push(TAG_CLIENT_HELLO);
            wire::encode_string(room.as_str(), &mut out);
            wire::encode_string(resume_token.as_str(), &mut out);
            wire::encode_prefixed(state_vector.as_slice(), &mut out);
        },
        ProtocolMessage::ServerWelcome { actor, color, resume_token } => {
            out.push(TAG_SERVER_WELCOME);
            wire::encode_varint(actor.0, &mut out);
            wire::encode_u32(*color, &mut out);
            wire::encode_string(resume_token.as_str(), &mut out);
        },
        ProtocolMessage::Snapshot { bytes } => {
            out.push(TAG_SNAPSHOT);
            wire::encode_prefixed(bytes.as_slice(), &mut out);
        },
        ProtocolMessage::Update { bytes } => {
            out.push(TAG_UPDATE);
            wire::encode_prefixed(bytes.as_slice(), &mut out);
        },
        ProtocolMessage::StateVector { bytes } => {
            out.push(TAG_STATE_VECTOR);
            wire::encode_prefixed(bytes.as_slice(), &mut out);
        },
        ProtocolMessage::Mvv { bytes } => {
            out.push(TAG_MVV);
            wire::encode_prefixed(bytes.as_slice(), &mut out);
        },
        ProtocolMessage::Awareness { bytes } => {
            out.push(TAG_AWARENESS);
            wire::encode_prefixed(bytes.as_slice(), &mut out);
        },
        ProtocolMessage::Error { message } => {
            out.push(TAG_ERROR);
            wire::encode_string(message.as_str(), &mut out);
        },
    }
    proof {
        assert(out@ =~= frame_bytes(message@));
    }
    out
}

/// A reader at `cursor` found, or failed as it should on, the bytes from there.
pub open spec fn finds<T: View>(
    found: Result<(T, usize), ProtocolError>,
    expected: Result<(T::V, Seq<u8>), ProtocolError>,
    bytes: Seq<u8>,
) -> bool {
    match expected {
        Ok((v, rest)) => {
            &&& found matches Ok((value, next))
            &&& value@ == v
            &&& next <= bytes.len()
            &&& bytes.skip(next as int) == rest
        },
        Err(e) => found matches Err(x) && x == e,
    }
}

fn decode_bytes_at(bytes: &[u8], cursor: usize) -> (found: Result<(Vec<u8>, usize), ProtocolError>)
    requires
        cursor <= bytes@.len(),
    ensures
        finds(found, read_blob(bytes@.skip(cursor as int)), bytes@),
{
    match wire::decode_prefixed_at(bytes, cursor) {
        Some(found) => Ok(found),
        None => Err(ProtocolError::Truncated),
    }
}

fn decode_string_at(bytes: &[u8], cursor: usize) -> (found: Result<(String, usize), ProtocolError>)
    requires
        cursor <= bytes@.len(),
    ensures
        finds(found, read_string(bytes@.skip(cursor as int)), bytes@),
{
    match decode_bytes_at(bytes, cursor) {
        Ok((raw, next)) => match text::text_of_utf8(raw.as_slice()) {
            Some(t) => Ok((t, next)),
            None => Err(ProtocolError::InvalidUtf8),
        },
        Err(e) => Err(e),
    }
}

fn decode_hello_at(bytes: &[u8], cursor: usize) -> (found: Result<(ProtocolMessage, usize), ProtocolError>)
    requires
        cursor <= bytes@.len(),
    ensures
        finds(found, read_hello(bytes@.skip(cursor as int)), bytes@),
{
    let (room, c): (String, usize) = match decode_string_at(bytes, cursor) {
        Ok(found) => found,
        Err(e) => {
            return Err(e);
        },
    };
    let (resume_token, c): (String, usize) = match decode_string_at(bytes, c) {
        Ok(found) => found,
        Err(e) => {
            return Err(e);
        },
    };
    let (state_vector, c): (Vec<u8>, usize) = match decode_bytes_at(bytes, c) {
        Ok(found) => found,
        Err(e) => {
            return Err(e);
        },
    };
    Ok((ProtocolMessage::ClientHello { room, resume_token, state_vector }, c))
}

fn decode_welcome_at(bytes: &[u8], cursor: usize) -> (found: Result<(ProtocolMessage, usize), ProtocolError>)
    requires
        cursor <= bytes@.len(),
    ensures
        finds(found, read_welcome(bytes@.skip(cursor as int)), bytes@),
{
    let (actor, c): (u64, usize) = match wire::decode_varint_at(bytes, cursor) {
        Some(found) => found,
        None => {
            return Err(ProtocolError::Truncated);
        },
    };
    let (color, c): (u32, usize) = match wire::decode_u32_at(bytes, c) {
        Some(found) => found,
        None => {
            return Err(ProtocolError::Truncated);
        },
    };
    match decode_string_at(bytes, c) {
        Ok((resume_token, c)) => Ok((ProtocolMessage::ServerWelcome { actor: ActorId(actor), color, resume_token }, c)),
        Err(e) => Err(e),
    }
}

fn decode_fields_at(tag: u8, bytes: &[u8], cursor: usize) -> (found: Result<(ProtocolMessage, usize), ProtocolError>)
    requires
        cursor <= bytes@.len(),
    ensures
        finds(found, read_fields(tag, bytes@.skip(cursor as int)), bytes@),
{
    if tag == TAG_CLIENT_HELLO {
        return decode_hello_at(bytes, cursor);
    }
    if tag == TAG_SERVER_WELCOME {
        return decode_welcome_at(bytes, cursor);
    }
    if tag == TAG_ERROR {
        return match decode_string_at(bytes, cursor) {
            Ok((message, c)) => Ok((ProtocolMessage::Error { message }, c)),
            Err(e) => Err(e),
        };
    }
    if tag < 3 || tag > 8 {
        return Err(ProtocolError::UnknownTag(tag));
    }
    match decode_bytes_at(bytes, cursor) {
        Ok((raw, c)) => {
            let message = if tag == TAG_SNAPSHOT {
                ProtocolMessage::Snapshot { bytes: raw }
            } else if tag == TAG_UPDATE {
                ProtocolMessage::Update { bytes: raw }
            } else if tag == TAG_STATE_VECTOR {
                ProtocolMessage::StateVector { bytes: raw }
            } else if tag == TAG_MVV {
                ProtocolMessage::Mvv { bytes: raw }
            } else {
                ProtocolMessage::Awareness { bytes: raw }
            };
            Ok((message, c))
        },
        Err(e) => Err(e),
    }
}

/// Decodes a frame.
pub fn decode_message(bytes: &[u8]) -> (result: ProtocolResult<ProtocolMessage>)
    ensures
        match parse_message(bytes@) {
            Ok(m) => result matches Ok(message) && message@ == m,
            Err(e) => result matches Err(x) && x == e,
        },
{
    if bytes.len() == 0 {
        return Err(ProtocolError::Empty);
    }
    let version: u8 = bytes[0];
    if version != PROTOCOL_VERSION {
        return Err(ProtocolError::VersionMismatch { expected: PROTOCOL_VERSION, got: version });
    }
    if bytes.len() < 2 {
        return Err(ProtocolError::Truncated);
    }
    match decode_fields_at(bytes[1], bytes, 2) {
        Ok((message, next)) => {
            if next != bytes.len() {
                return Err(ProtocolError::TrailingBytes);
            }
            Ok(message)
        },
        Err(e) => Err(e),
    }
}

/// Whether the lengths of the fields fit their prefixes.
pub open spec fn fits(m: MessageView) -> bool {
    match m {
        MessageView::ClientHello { room, resume_token, state_vector } => {
            &&& vstd::utf8::encode_utf8(room).len() <= u64::MAX
            &&& vstd::utf8::encode_utf8(resume_token).len() <= u64::MAX
            &&& state_vector.len() <= u64::MAX
        },
        MessageView::ServerWelcome { resume_token, .. } => vstd::utf8::encode_utf8(resume_token).len() <= u64::MAX,
        MessageView::Snapshot { bytes } => bytes.len() <= u64::MAX,
        MessageView::Update { bytes } => bytes.len() <= u64::MAX,
        MessageView::StateVector { bytes } => bytes.len() <= u64::MAX,
        MessageView::Mvv { bytes } => bytes.len() <= u64::MAX,
        MessageView::Awareness { bytes } => bytes.len() <= u64::MAX,
        MessageView::Error { message } => vstd::utf8::encode_utf8(message).len() <= u64::MAX,
    }
}

proof fn lemma_blob(bytes: Seq<u8>, rest: Seq<u8>)
    requires
        bytes.len() <= u64::MAX,
    ensures
        read_blob(wire::prefixed(bytes) + rest) == Ok::<(Seq<u8>, Seq<u8>), ProtocolError>((bytes, rest)),
{
    wire::lemma_prefixed_round_trip(bytes, rest);
}

proof fn lemma_string(t: Seq<char>, rest: Seq<u8>)
    requires
        vstd::utf8::encode_utf8(t).len() <= u64::MAX,
    ensures
        read_string(text_bytes(t) + rest) == Ok::<(Seq<char>, Seq<u8>), ProtocolError>((t, rest)),
{
    lemma_blob(vstd::utf8::encode_utf8(t), rest);
    text::lemma_utf8_round_trip(t);
}

proof fn lemma_fields(m: MessageView, rest: Seq<u8>)
    requires
        fits(m),
    ensures
        read_fields(body_bytes(m)[0], body_bytes(m).skip(1) + rest) == Ok::<(MessageView, Seq<u8>), ProtocolError>(
            (m, rest),
        ),
{
    let s = body_bytes(m).skip(1) + rest;
    match m {
        MessageView::ClientHello { room, resume_token, state_vector } => {
            let b = text_bytes(resume_token);
            let c = wire::prefixed(state_vector);
            assert(s =~= text_bytes(room) + (b + (c + rest)));
            lemma_string(room, b + (c + rest));
            lemma_string(resume_token, c + rest);
            lemma_blob(state_vector, rest);
        },
        MessageView::ServerWelcome { actor, color, resume_token } => {
            let b = wire::le(color as nat, 4);
            let c = text_bytes(resume_token);
            assert(s =~= wire::varint(actor.0 as nat) + (b + (c + rest)));
            wire::lemma_varint_round_trip(actor.0, b + (c + rest));
            wire::lemma_spans();
            wire::lemma_le_round_trip(color as nat, 4, c + rest);
            lemma_string(resume_token, rest);
        },
        MessageView::Snapshot { bytes } => {
            assert(s =~= wire::prefixed(bytes) + rest);
            lemma_blob(bytes, rest);
        },
        MessageView::Update { bytes } => {
            assert(s =~= wire::prefixed(bytes) + rest);
            lemma_blob(bytes, rest);
        },
        MessageView::StateVector { bytes } => {
            assert(s =~= wire::prefixed(bytes) + rest);
            lemma_blob(bytes, rest);
        },
        MessageView::Mvv { bytes } => {
            assert(s =~= wire::prefixed(bytes) + rest);
            lemma_blob(bytes, rest);
        },
        MessageView::Awareness { bytes } => {
            assert(s =~= wire::prefixed(bytes) + rest);
            lemma_blob(bytes, rest);
        },
        MessageView::Error { message } => {
            assert(s =~= text_bytes(message) + rest);
            lemma_string(message, rest);
        },
    }
}

/// A frame is decoded to the message that was encoded.
pub proof fn law_message_round_trip(m: MessageView)
    requires
        fits(m),
    ensures
        parse_message(frame_bytes(m)) == Ok::<MessageView, ProtocolError>(m),
{
    let s = frame_bytes(m);
    lemma_fields(m, seq![]);
    assert(body_bytes(m).len() > 0);
    assert(s[1] == body_bytes(m)[0]);
    assert(s.skip(2) =~= body_bytes(m).skip(1) + Seq::<u8>::empty());
}

/// A frame is the version, a byte for what it is, and its fields in order, each
/// behind its length where it has no fixed one.
pub proof fn law_frame_layout(m: MessageView)
    ensures
        frame_bytes(m) == seq![1u8] + match m {
            MessageView::ClientHello { room, resume_token, state_vector } => seq![1u8] + wire::prefixed(
                vstd::utf8::encode_utf8(room),
            ) + wire::prefixed(vstd::utf8::encode_utf8(resume_token)) + wire::prefixed(state_vector),
            MessageView::ServerWelcome { actor, color, resume_token } => seq![2u8] + wire::varint(actor.0 as nat)
                + wire::le(color as nat, 4) + wire::prefixed(vstd::utf8::encode_utf8(resume_token)),
            MessageView::Snapshot { bytes } => seq![3u8] + wire::prefixed(bytes),
            MessageView::Update { bytes } => seq![4u8] + wire::prefixed(bytes),
            MessageView::StateVector { bytes } => seq![5u8] + wire::prefixed(bytes),
            MessageView::Error { message } => seq![6u8] + wire::prefixed(vstd::utf8::encode_utf8(message)),
            MessageView::Mvv { bytes } => seq![7u8] + wire::prefixed(bytes),
            MessageView::Awareness { bytes } => seq![8u8] + wire::prefixed(bytes),
        },
{
}

/// What is no frame is refused for what is wrong with it: nothing at all,
/// another version, no kind or one that is not in use, or bytes left over.
pub proof fn law_unreadable_frames_are_refused(s: Seq<u8>, m: MessageView, more: Seq<u8>)
    requires
        fits(m),
    ensures
        s.len() == 0 ==> parse_message(s) == Err::<MessageView, ProtocolError>(ProtocolError::Empty),
        s.len() > 0 && s[0] != 1 ==> parse_message(s) == Err::<MessageView, ProtocolError>(
            ProtocolError::VersionMismatch { expected: 1, got: s[0] },
        ),
        s.len() == 1 && s[0] == 1 ==> parse_message(s) == Err::<MessageView, ProtocolError>(ProtocolError::Truncated),
        s.len() > 1 && s[0] == 1 && (s[1] == 0 || s[1] > 8) ==> parse_message(s) == Err::<MessageView, ProtocolError>(
            ProtocolError::UnknownTag(s[1]),
        ),
        more.len() > 0 ==> parse_message(frame_bytes(m) + more) == Err::<MessageView, ProtocolError>(
            ProtocolError::TrailingBytes,
        ),
{
    lemma_fields(m, more);
    let f = frame_bytes(m) + more;
    assert(f[1] == body_bytes(m)[0]);
    assert(f.skip(2) =~= body_bytes(m).skip(1) + more);
}

} // verus!
