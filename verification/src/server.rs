//! The relay server: the rooms, and what it does with each frame of a client.

use crate::awareness;
use crate::document;
use crate::encoding;
use crate::float::F64;
use crate::gc;
use crate::metadata::{MetadataKeyView, MetadataValueView};
use crate::names;
use crate::names::NameMap;
use crate::operation;
use crate::operation::{Operation, OperationView};
use crate::protocol;
use crate::protocol::{MessageView, ProtocolError, ProtocolMessage};
use crate::room;
use crate::room::{Addressed, RoomState, RoomView};
use crate::snapshot;
use crate::stroke::LwwRegister;
use crate::text;
use crate::types::{ActorId, VectorClock};
use crate::wire;
use vstd::prelude::*;

verus! {

/// The colours that actors are given in turn.
pub open spec fn palette() -> Seq<u32> {
    seq![
        0xa78b_faffu32,
        0x60a5_fbffu32,
        0x34d3_99ffu32,
        0xfbbf_24ffu32,
        0xf871_71ffu32,
        0x22d3_eeffu32,
        0xfb71_85ffu32,
        0xc084_fcffu32,
    ]
}

/// The colour of an actor. Actor 0 is reserved and has none.
pub open spec fn color_of(actor: ActorId) -> u32 {
    palette()[(actor.0 - 1) % 8]
}

/// The colour of an actor.
pub fn actor_color(actor: ActorId) -> (color: u32)
    requires
        actor.0 >= 1,
    ensures
        color == color_of(actor),
{
    match (actor.0 - 1) % 8 {
        0 => 0xa78b_faff,
        1 => 0x60a5_fbff,
        2 => 0x34d3_99ff,
        3 => 0xfbbf_24ff,
        4 => 0xf871_71ff,
        5 => 0x22d3_eeff,
        6 => 0xfb71_85ff,
        _ => 0xc084_fcff,
    }
}

/// What the server sends after a frame: an error to the client that sent it,
/// and frames to clients of the room.
pub struct Reaction {
    pub error: Option<String>,
    pub frames: Vec<Addressed>,
}

/// How a client introduces itself.
pub struct Hello {
    pub room: String,
    pub resume_token: String,
    pub version: VectorClock,
}

/// The rooms by name.
pub struct ServerState {
    pub rooms: NameMap<RoomState>,
}

/// The first actor other than `actor` that an operation is from.
pub open spec fn foreign(ops: Seq<OperationView>, actor: ActorId) -> Option<ActorId>
    decreases ops.len(),
{
    if ops.len() == 0 {
        None
    } else if foreign(ops.drop_last(), actor) is Some {
        foreign(ops.drop_last(), actor)
    } else if ops.last().id().actor != actor {
        Some(ops.last().id().actor)
    } else {
        None
    }
}

/// The same frame to each of the actors.
pub open spec fn to_each(actors: Seq<ActorId>, frame: Seq<u8>) -> Seq<(ActorId, Seq<u8>)> {
    actors.map_values(|a: ActorId| (a, frame))
}

/// A room, the error that its client gets, and the frames that go out.
pub struct Outcome {
    pub room: Option<RoomView>,
    pub error: Option<Seq<char>>,
    pub frames: Seq<(ActorId, Seq<u8>)>,
}

/// Nothing happens but for an error.
pub open spec fn refused(room: Option<RoomView>, error: Seq<char>) -> Outcome {
    Outcome { room, error: Some(error), frames: seq![] }
}

/// What an update does. Only operations of the client itself are taken.
pub open spec fn on_update(
    room: Option<RoomView>,
    actor: ActorId,
    frame: Seq<u8>,
    bytes: Seq<u8>,
    q: spec_fn(usize, usize) -> F64,
) -> Outcome {
    match encoding::parse_update(bytes) {
        Err(e) => refused(room, "update decode failed: "@ + e.message()),
        Ok(ops) => match foreign(ops, actor) {
            Some(other) => refused(
                room,
                "rejected update from actor "@ + text::decimal(actor.0 as nat) + " containing op from actor "@
                    + text::decimal(other.0 as nat),
            ),
            None => on_operations(room, actor, frame, ops, q),
        },
    }
}

/// What operations of the client itself do.
pub open spec fn on_operations(
    room: Option<RoomView>,
    actor: ActorId,
    frame: Seq<u8>,
    ops: Seq<OperationView>,
    q: spec_fn(usize, usize) -> F64,
) -> Outcome {
    match room {
        None => refused(room, "room no longer exists"@),
        Some(r) => {
            let next = room::logged(r, actor, ops);
            if room::takes(r, ops) {
                Outcome {
                    room: Some(room::surveyed(next, q)),
                    error: None,
                    frames: to_each(room::others(next.clients, actor), frame) + room::announced(next.clients),
                }
            } else {
                refused(Some(next), room::refusal(r.capacity))
            }
        },
    }
}

/// What a report of what a client has seen does.
pub open spec fn on_state_vector(
    room: Option<RoomView>,
    actor: ActorId,
    bytes: Seq<u8>,
    q: spec_fn(usize, usize) -> F64,
) -> Outcome {
    match room {
        None => refused(room, "room no longer exists"@),
        Some(r) => {
            let next = RoomView {
                clients: room::reported(r.clients, actor, encoding::parse_state_vector(bytes)),
                ..r
            };
            Outcome { room: Some(room::surveyed(next, q)), error: None, frames: room::announced(next.clients) }
        },
    }
}

/// What a cursor does. Only the cursor of the client itself is passed on.
pub open spec fn on_awareness(room: Option<RoomView>, actor: ActorId, frame: Seq<u8>, bytes: Seq<u8>) -> Outcome {
    match awareness::parse_cursor(bytes) {
        None => refused(room, "malformed awareness frame"@),
        Some(cursor) => if cursor.actor != actor {
            refused(room, "awareness actor does not match session actor"@)
        } else {
            match room {
                None => refused(room, "room no longer exists"@),
                Some(r) => Outcome { room, error: None, frames: to_each(room::others(r.clients, actor), frame) },
            }
        },
    }
}

/// What a frame of a client does.
pub open spec fn on_frame(
    room: Option<RoomView>,
    actor: ActorId,
    frame: Seq<u8>,
    q: spec_fn(usize, usize) -> F64,
) -> Outcome {
    match protocol::parse_message(frame) {
        Err(e) => refused(room, "protocol decode failed: "@ + e.label()),
        Ok(MessageView::Update { bytes }) => on_update(room, actor, frame, bytes, q),
        Ok(MessageView::StateVector { bytes }) => on_state_vector(room, actor, bytes, q),
        Ok(MessageView::Awareness { bytes }) => on_awareness(room, actor, frame, bytes),
        Ok(_) => refused(room, "unexpected client frame"@),
    }
}

/// The room of a name, if there is one.
pub open spec fn room_of(rooms: Map<Seq<char>, RoomState>, name: Seq<char>) -> Option<RoomView> {
    if rooms.contains_key(name) {
        Some(rooms[name]@)
    } else {
        None
    }
}

/// Whether the outcome of a frame is what the server holds and sends.
pub open spec fn carried_out(
    before: Map<Seq<char>, RoomState>,
    after: Map<Seq<char>, RoomState>,
    name: Seq<char>,
    reaction: Reaction,
    outcome: Outcome,
) -> bool {
    &&& room_of(after, name) == outcome.room
    &&& after.remove(name) == before.remove(name)
    &&& match outcome.error {
        Some(e) => reaction.error matches Some(t) && t@ == e,
        None => reaction.error is None,
    }
    &&& room::frame_views(reaction.frames@) == outcome.frames
}

/// What the first frame of a connection asks for, or why it is refused. `None`
/// stands for a message that is not a binary frame. Where no room is named, the
/// hint decides.
pub open spec fn introduced(first: Option<Seq<u8>>, hint: Option<Seq<char>>) -> Result<
    (Seq<char>, Seq<char>, Map<u64, u64>),
    Seq<char>,
> {
    let hello = match first {
        Some(frame) => protocol::parse_message(frame),
        None => Err(ProtocolError::UnknownTag(0)),
    };
    match hello {
        Ok(MessageView::ClientHello { room, resume_token, state_vector }) => Ok(
            (
                if room.len() > 0 {
                    room
                } else {
                    match hint {
                        Some(name) => name,
                        None => "demo"@,
                    }
                },
                resume_token,
                encoding::parse_state_vector(state_vector),
            ),
        ),
        Ok(_) => Err("first frame must be ClientHello"@),
        Err(e) => Err("invalid hello: "@ + e.label()),
    }
}

/// Reads the first frame of a connection.
pub fn read_hello(first: Option<&[u8]>, room_hint: Option<String>) -> (hello: Result<Hello, String>)
    ensures
        match introduced(
            match first {
                Some(frame) => Some(frame@),
                None => None,
            },
            match room_hint {
                Some(name) => Some(name@),
                None => None,
            },
        ) {
            Ok((room, token, version)) => hello matches Ok(h) && h.room@ == room && h.resume_token@ == token
                && h.version@ == version,
            Err(e) => hello matches Err(message) && message@ == e,
        },
{
    let message = match first {
        Some(frame) => protocol::decode_message(frame),
        None => Err(ProtocolError::UnknownTag(0)),
    };
    match message {
        Ok(ProtocolMessage::ClientHello { room, resume_token, state_vector }) => {
            let name = if room.as_str().unicode_len() > 0 {
                room
            } else {
                match room_hint {
                    Some(hint) => hint,
                    None => "demo".to_string(),
                }
            };
            Ok(
                Hello {
                    room: name,
                    resume_token,
                    version: encoding::decode_vector_clock(state_vector.as_slice()),
                },
            )
        },
        Ok(_) => Err("first frame must be ClientHello".to_string()),
        Err(e) => {
            let mut text = String::new();
            text.append("invalid hello: ");
            text.append(e.label_text().as_str());
            proof {
                assert(text@ =~= "invalid hello: "@ + e.label());
            }
            Err(text)
        },
    }
}

/// The frame of an error.
pub fn error_frame(message: String) -> (frame: Vec<u8>)
    ensures
        frame@ == protocol::frame_bytes(MessageView::Error { message: message@ }),
{
    protocol::encode_message(&ProtocolMessage::Error { message })
}

/// The frames that answer a client that has joined: the welcome, and what
/// brings it up to date.
pub fn welcome_frames(actor: ActorId, color: u32, resume_token: String, sync: &ProtocolMessage) -> (frames: (
    Vec<u8>,
    Vec<u8>,
))
    ensures
        frames.0@ == protocol::frame_bytes(MessageView::ServerWelcome { actor, color, resume_token: resume_token@ }),
        frames.1@ == protocol::frame_bytes(sync@),
{
    (
        protocol::encode_message(&ProtocolMessage::ServerWelcome { actor, color, resume_token }),
        protocol::encode_message(sync),
    )
}

/// Collecting and reporting change no actor's number.
proof fn lemma_still_assigned(
    r: RoomView,
    actor: ActorId,
    version: Map<u64, u64>,
    ops: Seq<OperationView>,
    q: spec_fn(usize, usize) -> F64,
)
    requires
        room::assigned(r),
    ensures
        room::assigned(room::logged(r, actor, ops)),
        room::assigned(room::surveyed(room::logged(r, actor, ops), q)),
        ({
            let next = RoomView { clients: room::reported(r.clients, actor, version), ..r };
            room::assigned(room::surveyed(next, q))
        }),
{
    let a = room::reported(r.clients, actor, version);
    assert forall|i: int| 0 <= i < a.len() implies 1 <= (#[trigger] a[i]).0.0 < r.next_actor by {
        assert(r.clients[i].0 == a[i].0);
    }
    let b = room::logged(r, actor, ops).clients;
    assert forall|i: int| 0 <= i < b.len() implies 1 <= (#[trigger] b[i]).0.0 < r.next_actor by {
        assert(r.clients[i].0 == b[i].0);
    }
}

/// A list of frames, one to each actor, each a copy of the same.
fn address(actors: &Vec<ActorId>, frame: &Vec<u8>) -> (frames: Vec<Addressed>)
    ensures
        room::frame_views(frames@) == to_each(actors@, frame@),
{
    let mut frames: Vec<Addressed> = Vec::new();
    let mut i: usize = 0;
    while i < actors.len()
        invariant
            i <= actors@.len(),
            frames@.len() == i,
            forall|j: int| 0 <= j < i ==> (#[trigger] frames@[j])@ == (actors@[j], frame@),
        decreases actors@.len() - i,
    {
        let copy = wire::copy_range(frame.as_slice(), 0, frame.len());
        frames.push(Addressed { to: actors[i], frame: copy });
        i += 1;
    }
    proof {
        assert(room::frame_views(frames@) =~= to_each(actors@, frame@));
    }
    frames
}

/// The first actor other than `actor` that an operation is from.
fn find_foreign(ops: &Vec<Operation>, actor: ActorId) -> (other: Option<ActorId>)
    ensures
        other == foreign(operation::views(ops@), actor),
{
    let ghost all = operation::views(ops@);
    let mut other: Option<ActorId> = None;
    let mut i: usize = 0;
    proof {
        assert(all.take(0) =~= seq![]);
    }
    while i < ops.len()
        invariant
            i <= ops@.len(),
            all == operation::views(ops@),
            other == foreign(all.take(i as int), actor),
        decreases ops@.len() - i,
    {
        let id = ops[i].id();
        proof {
            assert(all.take(i + 1).drop_last() =~= all.take(i as int));
            assert(all.take(i + 1).last() == ops@[i as int]@);
        }
        if other.is_none() && id.actor != actor {
            other = Some(id.actor);
        }
        i += 1;
    }
    proof {
        assert(all.take(i as int) =~= all);
    }
    other
}

/// An error and nothing else.
fn refuse(error: String) -> (reaction: Reaction)
    ensures
        reaction.error matches Some(e) && e@ == error@,
        room::frame_views(reaction.frames@) == Seq::<(ActorId, Seq<u8>)>::empty(),
{
    let reaction = Reaction { error: Some(error), frames: Vec::new() };
    proof {
        assert(room::frame_views(reaction.frames@) =~= Seq::<(ActorId, Seq<u8>)>::empty());
    }
    reaction
}

/// One text after another.
fn text_with(head: &str, tail: String) -> (text: String)
    ensures
        text@ == head@ + tail@,
{
    let mut text = String::new();
    text.append(head);
    text.append(tail.as_str());
    proof {
        assert(text@ =~= head@ + tail@);
    }
    text
}

impl ServerState {
    /// Each room is valid, and has numbered its actors itself.
    pub open spec fn wf(&self) -> bool {
        &&& self.rooms.wf()
        &&& forall|name: Seq<char>| #[trigger]
            self.rooms@.contains_key(name) ==> self.rooms@[name].wf() && room::assigned(self.rooms@[name]@)
    }

    pub fn new() -> (server: Self)
        ensures
            server.wf(),
            server.rooms@ == Map::<Seq<char>, RoomState>::empty(),
    {
        ServerState { rooms: NameMap::new() }
    }

    /// Finds a room, and opens it where there is none of that name.
    fn open_room(&mut self, name: &String) -> (at: usize)
        requires
            old(self).wf(),
        ensures
            final(self).wf(),
            at < final(self).rooms.entries@.len(),
            final(self).rooms.entries@[at as int].0@ == name@,
            final(self).rooms@.contains_key(name@),
            final(self).rooms@[name@] == final(self).rooms.entries@[at as int].1,
            final(self).rooms@.remove(name@) == old(self).rooms@.remove(name@),
            old(self).rooms@.contains_key(name@) ==> final(self).rooms@[name@] == old(self).rooms@[name@],
            !old(self).rooms@.contains_key(name@) ==> {
                &&& final(self).rooms@[name@]@ == room::vacant()
                &&& snapshot::registers(final(self).rooms@[name@].doc.metadata.entries@) == Seq::<
                    (MetadataKeyView, LwwRegister<Option<MetadataValueView>>),
                >::empty()
            },
    {
        let ghost was = self.rooms@;
        match self.rooms.find(name) {
            Some(at) => at,
            None => {
                let at: usize = self.rooms.entries.len();
                let room = RoomState::new();
                proof {
                    assert(snapshot::registers(room.doc.metadata.entries@) =~= Seq::<
                        (MetadataKeyView, LwwRegister<Option<MetadataValueView>>),
                    >::empty());
                    assert(room::assigned(room@));
                }
                self.rooms.insert(name.clone(), room);
                proof {
                    assert(self.rooms@.remove(name@) =~= was.remove(name@));
                }
                at
            },
        }
    }

    /// Lets a client into a room, which is opened where there is none of that
    /// name. Gives the client's actor, its colour, its resume token, and what
    /// brings it up to date.
    pub fn join_room(&mut self, room_name: &String, resume_token: String, version: VectorClock) -> (joined: (
        ActorId,
        u32,
        String,
        ProtocolMessage,
    ))
        requires
            old(self).wf(),
            old(self).rooms@.contains_key(room_name@) ==> old(self).rooms@[room_name@].next_actor < u64::MAX
                && old(self).rooms@[room_name@].next_token < u64::MAX,
        ensures
            final(self).wf(),
            final(self).rooms@.remove(room_name@) == old(self).rooms@.remove(room_name@),
            ({
                let (before, image) = if old(self).rooms@.contains_key(room_name@) {
                    let r = old(self).rooms@[room_name@];
                    (r@, snapshot::snapshot_bytes(r.doc@, snapshot::registers(r.doc.metadata.entries@)))
                } else {
                    (room::vacant(), snapshot::snapshot_bytes(document::blank(ActorId(0)), seq![]))
                };
                let (next, actor, token) = room::resolved(before, resume_token@);
                &&& joined.0 == actor
                &&& joined.1 == color_of(actor)
                &&& joined.2@ == token
                &&& joined.3@ == room::catch_up(next, image, version@)
                &&& room_of(final(self).rooms@, room_name@) == Some(
                    RoomView { clients: room::with_client(next.clients, actor, version@), ..next },
                )
            }),
    {
        let ghost name = room_name@;
        let ghost first = self.rooms@;
        let at: usize = self.open_room(room_name);
        let ghost was = self.rooms;
        proof {
            room::law_sessions_do_not_collide(was@[name]@, resume_token@, version@);
        }
        let (actor, token): (ActorId, String) = self.rooms.entries[at].1.resolve_session(resume_token);
        let color: u32 = actor_color(actor);
        let sync = self.rooms.entries[at].1.sync_message(&version);
        self.rooms.entries[at].1.insert_client(actor, version);
        proof {
            lemma_only_this_room(was, self.rooms, at as int);
            assert(self.rooms@.remove(name) =~= first.remove(name));
        }
        (actor, color, token, sync)
    }

    /// Lets a client out of a room.
    pub fn leave_room(&mut self, room_name: &String, actor: ActorId)
        requires
            old(self).wf(),
        ensures
            final(self).wf(),
            final(self).rooms@.remove(room_name@) == old(self).rooms@.remove(room_name@),
            room_of(final(self).rooms@, room_name@) == (match room_of(old(self).rooms@, room_name@) {
                Some(r) => Some(RoomView { clients: room::without_client(r.clients, actor), ..r }),
                None => None,
            }),
    {
        let ghost was = self.rooms;
        match self.rooms.find(room_name) {
            Some(i) => {
                proof {
                    room::law_leaving_keeps_numbers(was@[room_name@]@, actor);
                }
                self.rooms.entries[i].1.remove_client(actor);
                proof {
                    lemma_only_this_room(was, self.rooms, i as int);
                }
            },
            None => {},
        }
    }
}

impl ServerState {
    /// Does what a frame of a client asks for, and says what is to be sent.
    pub fn process_client_frame<R: Fn(usize, usize) -> F64>(
        &mut self,
        room_name: &String,
        actor: ActorId,
        frame: &Vec<u8>,
        divide: &R,
    ) -> (reaction: Reaction)
        requires
            old(self).wf(),
            old(self).rooms@.contains_key(room_name@) ==> old(self).rooms@[room_name@].doc@.gc_generation < u64::MAX,
            gc::well_defined(*divide),
        ensures
            final(self).wf(),
            carried_out(
                old(self).rooms@,
                final(self).rooms@,
                room_name@,
                reaction,
                on_frame(room_of(old(self).rooms@, room_name@), actor, frame@, gc::quotient(*divide)),
            ),
    {
        match protocol::decode_message(frame.as_slice()) {
            Err(e) => refuse(text_with("protocol decode failed: ", e.label_text())),
            Ok(ProtocolMessage::Update { bytes }) => self.take_update(room_name, actor, frame, &bytes, divide),
            Ok(ProtocolMessage::StateVector { bytes }) => self.take_state_vector(room_name, actor, &bytes, divide),
            Ok(ProtocolMessage::Awareness { bytes }) => self.pass_cursor(room_name, actor, frame, &bytes),
            Ok(_) => refuse("unexpected client frame".to_string()),
        }
    }

    /// Takes in an update of a client.
    fn take_update<R: Fn(usize, usize) -> F64>(
        &mut self,
        room_name: &String,
        actor: ActorId,
        frame: &Vec<u8>,
        bytes: &Vec<u8>,
        divide: &R,
    ) -> (reaction: Reaction)
        requires
            old(self).wf(),
            old(self).rooms@.contains_key(room_name@) ==> old(self).rooms@[room_name@].doc@.gc_generation < u64::MAX,
            gc::well_defined(*divide),
        ensures
            final(self).wf(),
            carried_out(
                old(self).rooms@,
                final(self).rooms@,
                room_name@,
                reaction,
                on_update(room_of(old(self).rooms@, room_name@), actor, frame@, bytes@, gc::quotient(*divide)),
            ),
    {
        let ops = match encoding::decode_update(bytes.as_slice()) {
            Ok(ops) => ops,
            Err(e) => {
                return refuse(text_with("update decode failed: ", e.to_string()));
            },
        };
        match find_foreign(&ops, actor) {
            Some(other) => {
                let mut text = String::new();
                text.append("rejected update from actor ");
                text::push_decimal(&mut text, actor.0);
                text.append(" containing op from actor ");
                text::push_decimal(&mut text, other.0);
                proof {
                    assert(text@ =~= "rejected update from actor "@ + text::decimal(actor.0 as nat)
                        + " containing op from actor "@ + text::decimal(other.0 as nat));
                }
                refuse(text)
            },
            None => self.take_operations(room_name, actor, frame, ops, divide),
        }
    }

    /// Takes in operations of a client.
    fn take_operations<R: Fn(usize, usize) -> F64>(
        &mut self,
        room_name: &String,
        actor: ActorId,
        frame: &Vec<u8>,
        ops: Vec<Operation>,
        divide: &R,
    ) -> (reaction: Reaction)
        requires
            old(self).wf(),
            old(self).rooms@.contains_key(room_name@) ==> old(self).rooms@[room_name@].doc@.gc_generation < u64::MAX,
            gc::well_defined(*divide),
        ensures
            final(self).wf(),
            carried_out(
                old(self).rooms@,
                final(self).rooms@,
                room_name@,
                reaction,
                on_operations(
                    room_of(old(self).rooms@, room_name@),
                    actor,
                    frame@,
                    operation::views(ops@),
                    gc::quotient(*divide),
                ),
            ),
    {
        let ghost list = operation::views(ops@);
        let at: usize = match self.rooms.find(room_name) {
            Some(at) => at,
            None => {
                return refuse("room no longer exists".to_string());
            },
        };
        let ghost was = self.rooms;
        proof {
            lemma_still_assigned(was@[room_name@]@, actor, Map::empty(), list, gc::quotient(*divide));
        }
        let result = self.rooms.entries[at].1.apply_update(actor, ops, divide);
        proof {
            lemma_only_this_room(was, self.rooms, at as int);
        }
        match result {
            Ok(told) => {
                let mut frames = address(&told.update, frame);
                let ghost head = frames@;
                let mut rest = told.mvv;
                let ghost tail = rest@;
                frames.append(&mut rest);
                proof {
                    assert(room::frame_views(frames@) =~= room::frame_views(head) + room::frame_views(tail));
                }
                Reaction { error: None, frames }
            },
            Err(message) => refuse(message),
        }
    }

    /// Takes over what a client says it has seen.
    fn take_state_vector<R: Fn(usize, usize) -> F64>(
        &mut self,
        room_name: &String,
        actor: ActorId,
        bytes: &Vec<u8>,
        divide: &R,
    ) -> (reaction: Reaction)
        requires
            old(self).wf(),
            old(self).rooms@.contains_key(room_name@) ==> old(self).rooms@[room_name@].doc@.gc_generation < u64::MAX,
            gc::well_defined(*divide),
        ensures
            final(self).wf(),
            carried_out(
                old(self).rooms@,
                final(self).rooms@,
                room_name@,
                reaction,
                on_state_vector(room_of(old(self).rooms@, room_name@), actor, bytes@, gc::quotient(*divide)),
            ),
    {
        let version = encoding::decode_vector_clock(bytes.as_slice());
        let at: usize = match self.rooms.find(room_name) {
            Some(at) => at,
            None => {
                return refuse("room no longer exists".to_string());
            },
        };
        let ghost was = self.rooms;
        proof {
            lemma_still_assigned(was@[room_name@]@, actor, version@, seq![], gc::quotient(*divide));
        }
        let frames = self.rooms.entries[at].1.update_client_version(actor, version, divide);
        proof {
            lemma_only_this_room(was, self.rooms, at as int);
        }
        Reaction { error: None, frames }
    }

    /// Passes the cursor of a client on to the others.
    fn pass_cursor(&self, room_name: &String, actor: ActorId, frame: &Vec<u8>, bytes: &Vec<u8>) -> (reaction:
        Reaction)
        requires
            self.wf(),
        ensures
            carried_out(
                self.rooms@,
                self.rooms@,
                room_name@,
                reaction,
                on_awareness(room_of(self.rooms@, room_name@), actor, frame@, bytes@),
            ),
    {
        let cursor = match awareness::decode_cursor(bytes.as_slice()) {
            Some(cursor) => cursor,
            None => {
                return refuse("malformed awareness frame".to_string());
            },
        };
        if cursor.actor != actor {
            return refuse("awareness actor does not match session actor".to_string());
        }
        match self.rooms.get(room_name) {
            Some(room) => {
                let actors = room.recipients_except(actor);
                Reaction { error: None, frames: address(&actors, frame) }
            },
            None => refuse("room no longer exists".to_string()),
        }
    }
}

/// A frame that is answered by an error reaches nobody else.
pub proof fn law_refused_frames_reach_nobody(
    room: Option<RoomView>,
    actor: ActorId,
    frame: Seq<u8>,
    q: spec_fn(usize, usize) -> F64,
)
    ensures
        on_frame(room, actor, frame, q).error is Some ==> on_frame(room, actor, frame, q).frames.len() == 0,
{
}

/// A client cannot speak for another: an update that holds an operation of
/// another actor is answered by an error, changes nothing and reaches nobody.
pub proof fn law_foreign_operations_are_refused(
    room: Option<RoomView>,
    actor: ActorId,
    frame: Seq<u8>,
    bytes: Seq<u8>,
    ops: Seq<OperationView>,
    i: int,
    q: spec_fn(usize, usize) -> F64,
)
    requires
        protocol::parse_message(frame) == Ok::<MessageView, ProtocolError>(MessageView::Update { bytes }),
        encoding::parse_update(bytes) == Ok::<Seq<OperationView>, crate::error::VectisErrorView>(ops),
        0 <= i < ops.len(),
        ops[i].id().actor != actor,
    ensures
        on_frame(room, actor, frame, q).error is Some,
        on_frame(room, actor, frame, q).room == room,
        on_frame(room, actor, frame, q).frames.len() == 0,
{
    lemma_foreign(ops, actor, i);
}

proof fn lemma_foreign(ops: Seq<OperationView>, actor: ActorId, i: int)
    requires
        0 <= i < ops.len(),
        ops[i].id().actor != actor,
    ensures
        foreign(ops, actor) is Some,
    decreases ops.len(),
{
    if i < ops.len() - 1 {
        assert(ops.drop_last()[i] == ops[i]);
        lemma_foreign(ops.drop_last(), actor, i);
    }
}

/// A client is not sent its own update or cursor: what is passed on goes to
/// every other client of the room, once.
pub proof fn law_passed_on_to_the_others(clients: Seq<(ActorId, Map<u64, u64>)>, actor: ActorId, to: ActorId)
    requires
        room::one_each(clients),
    ensures
        room::others(clients, actor).contains(to) <==> to != actor && room::connected(clients, to),
        room::others(clients, actor).no_duplicates(),
    decreases clients.len(),
{
    if clients.len() > 0 {
        let less = clients.drop_last();
        let last = clients.last().0;
        assert forall|i: int, j: int|
            0 <= i < less.len() && 0 <= j < less.len() && (#[trigger] less[i]).0 == (#[trigger] less[j]).0 implies i
            == j by {
            assert(clients[i].0 == clients[j].0);
        }
        law_passed_on_to_the_others(less, actor, to);
        law_passed_on_to_the_others(less, actor, last);
        assert(room::connected(clients, to) <==> room::connected(less, to) || to == last) by {
            if room::connected(less, to) {
                let i = room::place(less, to);
                assert(clients[i].0 == to);
            }
            if to == last {
                assert(clients[clients.len() - 1].0 == to);
            }
            if room::connected(clients, to) && to != last {
                let i = room::place(clients, to);
                assert(less[i].0 == to);
            }
        }
        assert(!room::connected(less, last)) by {
            if room::connected(less, last) {
                let i = room::place(less, last);
                assert(clients[i].0 == clients[clients.len() - 1].0);
            }
        }
        let rest = room::others(less, actor);
        if last != actor {
            let now = rest.push(last);
            assert(now.contains(to) <==> rest.contains(to) || to == last) by {
                if rest.contains(to) {
                    let i = choose|i: int| 0 <= i < rest.len() && rest[i] == to;
                    assert(now[i] == to);
                }
                if to == last {
                    assert(now[now.len() - 1] == to);
                }
            }
            assert(now.no_duplicates()) by {
                assert forall|i: int, j: int| 0 <= i < now.len() && 0 <= j < now.len() && i != j implies now[i]
                    != now[j] by {
                    if i < rest.len() && j < rest.len() {
                        assert(rest[i] != rest[j]);
                    } else if i < rest.len() {
                        assert(rest.contains(rest[i]));
                    } else {
                        assert(rest.contains(rest[j]));
                    }
                }
            }
        }
    }
}

/// Changing the room at `i` leaves the others alone.
proof fn lemma_only_this_room(was: NameMap<RoomState>, now: NameMap<RoomState>, i: int)
    requires
        was.wf(),
        forall|name: Seq<char>| #[trigger]
            was@.contains_key(name) ==> was@[name].wf() && room::assigned(was@[name]@),
        0 <= i < was.entries@.len(),
        now.entries@.len() == was.entries@.len(),
        now.entries@[i].0@ == was.entries@[i].0@,
        forall|j: int| 0 <= j < was.entries@.len() && j != i ==> #[trigger] now.entries@[j] == was.entries@[j],
        now.entries@[i].1.wf(),
        room::assigned(now.entries@[i].1@),
    ensures
        (ServerState { rooms: now }).wf(),
        now@ == was@.insert(was.entries@[i].0@, now.entries@[i].1),
        now@.remove(was.entries@[i].0@) == was@.remove(was.entries@[i].0@),
{
    names::lemma_replaced(was, now, i);
    let name = was.entries@[i].0@;
    assert(now@.remove(name) =~= was@.remove(name));
    assert forall|n: Seq<char>| #[trigger] now@.contains_key(n) implies now@[n].wf() && room::assigned(now@[n]@) by {
        if n != name {
            assert(was@.contains_key(n));
        }
    }
}

/// Actors get the eight colours in turn, in the order in which they are
/// numbered, so that two actors share one exactly where their numbers differ by
/// a multiple of eight. Every colour is opaque.
pub proof fn law_colours_go_round(a: ActorId, b: ActorId)
    requires
        a.0 >= 1,
        b.0 >= 1,
    ensures
        color_of(a) == color_of(b) <==> (a.0 - b.0) % 8 == 0,
        color_of(a) % 256 == 255,
        color_of(ActorId(1)) == 0xa78b_faff && color_of(ActorId(2)) == 0x60a5_fbff,
        color_of(ActorId(3)) == 0x34d3_99ff && color_of(ActorId(4)) == 0xfbbf_24ff,
        color_of(ActorId(5)) == 0xf871_71ff && color_of(ActorId(6)) == 0x22d3_eeff,
        color_of(ActorId(7)) == 0xfb71_85ff && color_of(ActorId(8)) == 0xc084_fcff,
{
}

/// The actor that an update is refused for is the one of the first operation
/// that is not of the sender.
pub proof fn law_first_foreign_actor_is_named(ops: Seq<OperationView>, actor: ActorId)
    ensures
        foreign(ops, actor) is None <==> forall|i: int| 0 <= i < ops.len() ==> (#[trigger] ops[i]).id().actor == actor,
        foreign(ops, actor) is Some ==> exists|i: int|
            {
                &&& 0 <= i < ops.len()
                &&& (#[trigger] ops[i]).id().actor == foreign(ops, actor)->0
                &&& ops[i].id().actor != actor
                &&& forall|j: int| 0 <= j < i ==> (#[trigger] ops[j]).id().actor == actor
            },
    decreases ops.len(),
{
    if ops.len() > 0 {
        let less = ops.drop_last();
        law_first_foreign_actor_is_named(less, actor);
        assert forall|i: int| 0 <= i < less.len() implies #[trigger] less[i] == ops[i] by {}
        if foreign(less, actor) is Some {
            let i = choose|i: int|
                {
                    &&& 0 <= i < less.len()
                    &&& (#[trigger] less[i]).id().actor == foreign(less, actor)->0
                    &&& less[i].id().actor != actor
                    &&& forall|j: int| 0 <= j < i ==> (#[trigger] less[j]).id().actor == actor
                };
            assert(ops[i].id().actor == foreign(ops, actor)->0);
            assert forall|j: int| 0 <= j < i implies (#[trigger] ops[j]).id().actor == actor by {
                assert(less[j].id().actor == actor);
            }
        } else {
            assert forall|i: int| 0 <= i < less.len() implies (#[trigger] ops[i]).id().actor == actor by {
                assert(less[i].id().actor == actor);
            }
            assert(ops[ops.len() - 1] == ops.last());
        }
    }
}

/// An update of the sender's own operations that all find room is taken in by
/// the room, is passed on as it came to every other client, and is followed by
/// an announcement to all.
pub proof fn law_own_updates_are_passed_on(
    r: RoomView,
    actor: ActorId,
    frame: Seq<u8>,
    bytes: Seq<u8>,
    ops: Seq<OperationView>,
    q: spec_fn(usize, usize) -> F64,
)
    requires
        protocol::parse_message(frame) == Ok::<MessageView, ProtocolError>(MessageView::Update { bytes }),
        encoding::parse_update(bytes) == Ok::<Seq<OperationView>, crate::error::VectisErrorView>(ops),
        forall|i: int| 0 <= i < ops.len() ==> (#[trigger] ops[i]).id().actor == actor,
        crate::causal_buffer::absorbed(r.doc, r.held, r.capacity, ops).2,
    ensures
        ({
            let outcome = on_frame(Some(r), actor, frame, q);
            let next = room::logged(r, actor, ops);
            let others = room::others(next.clients, actor);
            &&& outcome.error is None
            &&& outcome.room == Some(room::surveyed(next, q))
            &&& outcome.frames.len() == others.len() + next.clients.len()
            &&& forall|i: int| 0 <= i < others.len() ==> #[trigger] outcome.frames[i] == (others[i], frame)
            &&& outcome.frames.skip(others.len() as int) == room::announced(next.clients)
        }),
{
    law_first_foreign_actor_is_named(ops, actor);
    let next = room::logged(r, actor, ops);
    let others = room::others(next.clients, actor);
    let frames = on_frame(Some(r), actor, frame, q).frames;
    assert(frames.skip(others.len() as int) =~= room::announced(next.clients));
}

/// A cursor of the sender's own is passed on as it came to every other client,
/// and the room stays as it is. One that cannot be read, or is of another actor,
/// is refused.
pub proof fn law_own_cursors_are_passed_on(
    r: RoomView,
    actor: ActorId,
    frame: Seq<u8>,
    bytes: Seq<u8>,
    q: spec_fn(usize, usize) -> F64,
)
    requires
        protocol::parse_message(frame) == Ok::<MessageView, ProtocolError>(MessageView::Awareness { bytes }),
    ensures
        ({
            let outcome = on_frame(Some(r), actor, frame, q);
            let cursor = awareness::parse_cursor(bytes);
            let others = room::others(r.clients, actor);
            &&& outcome.room == Some(r)
            &&& cursor is None || (cursor->0).actor != actor ==> outcome.error is Some && outcome.frames.len() == 0
            &&& cursor is Some && (cursor->0).actor == actor ==> {
                &&& outcome.error is None
                &&& outcome.frames.len() == others.len()
                &&& forall|i: int| 0 <= i < others.len() ==> #[trigger] outcome.frames[i] == (others[i], frame)
            }
        }),
{
}

/// A client that reports what it has seen is taken at its word, and all are told
/// what everyone has seen then.
pub proof fn law_reports_are_announced(
    r: RoomView,
    actor: ActorId,
    frame: Seq<u8>,
    bytes: Seq<u8>,
    q: spec_fn(usize, usize) -> F64,
)
    requires
        protocol::parse_message(frame) == Ok::<MessageView, ProtocolError>(MessageView::StateVector { bytes }),
    ensures
        ({
            let outcome = on_frame(Some(r), actor, frame, q);
            let clients = room::reported(r.clients, actor, encoding::parse_state_vector(bytes));
            &&& outcome.error is None
            &&& outcome.room == Some(room::surveyed(RoomView { clients, ..r }, q))
            &&& outcome.frames == room::announced(clients)
        }),
{
}

/// Frames that only a server sends, a second introduction, and what is no frame
/// at all are refused, and the room stays as it is. So is every frame where the
/// room is gone.
pub proof fn law_other_frames_are_refused(
    room: Option<RoomView>,
    actor: ActorId,
    frame: Seq<u8>,
    q: spec_fn(usize, usize) -> F64,
)
    ensures
        ({
            let outcome = on_frame(room, actor, frame, q);
            let m = protocol::parse_message(frame);
            &&& m is Err || m->Ok_0 is ClientHello || m->Ok_0 is ServerWelcome || m->Ok_0 is Snapshot || m->Ok_0 is Mvv
                || m->Ok_0 is Error ==> outcome.error is Some && outcome.room == room && outcome.frames.len() == 0
            &&& room is None ==> outcome.error is Some && outcome.room is None && outcome.frames.len() == 0
        }),
{
}

/// A connection is for the room that it names, or else for the one it was opened
/// for, or else for the room `demo`. The token and what has been seen are as the
/// first frame has them.
pub proof fn law_introductions_name_the_room(
    room: Seq<char>,
    token: Seq<char>,
    seen: Seq<u8>,
    hint: Option<Seq<char>>,
)
    requires
        vstd::utf8::encode_utf8(room).len() <= u64::MAX,
        vstd::utf8::encode_utf8(token).len() <= u64::MAX,
        seen.len() <= u64::MAX,
    ensures
        ({
            let m = MessageView::ClientHello { room, resume_token: token, state_vector: seen };
            let found = introduced(Some(protocol::frame_bytes(m)), hint);
            &&& found is Ok
            &&& room.len() > 0 ==> (found->Ok_0).0 == room
            &&& room.len() == 0 && hint is Some ==> (found->Ok_0).0 == hint->0
            &&& room.len() == 0 && hint is None ==> (found->Ok_0).0 == "demo"@
            &&& (found->Ok_0).1 == token
            &&& (found->Ok_0).2 == encoding::parse_state_vector(seen)
        }),
        introduced(None, hint) is Err,
{
    let m = MessageView::ClientHello { room, resume_token: token, state_vector: seen };
    protocol::law_message_round_trip(m);
}

/// A connection that begins with anything but an introduction is turned away.
pub proof fn law_introduction_comes_first(frame: Seq<u8>, hint: Option<Seq<char>>)
    ensures
        introduced(Some(frame), hint) is Ok <==> {
            let m = protocol::parse_message(frame);
            m is Ok && m->Ok_0 is ClientHello
        },
{
}

} // verus!
