//! The life of a connection: greeting, talking, leaving.
//!
//! A connection begins with a hello. Then each binary frame is handed to the
//! server, until the client closes the connection or it is lost.

use crate::server;
use crate::server::Hello;
use vstd::prelude::*;

verus! {

/// Where a connection stands.
#[derive(Debug, Clone, Copy, PartialEq, Eq, Structural)]
pub enum Phase {
    /// No hello has come yet.
    Greeting,
    /// The client is in a room.
    Joined,
    /// The connection is over.
    Ended,
}

/// What comes from a socket.
pub enum SocketEvent {
    /// A binary message.
    Binary(Vec<u8>),
    /// The client closes the connection.
    Close,
    /// A message of another kind.
    Other,
    /// The socket fails, or has nothing more.
    Lost,
}

/// The contents of a [`SocketEvent`].
pub enum EventView {
    Binary(Seq<u8>),
    Close,
    Other,
    Lost,
}

impl View for SocketEvent {
    type V = EventView;

    open spec fn view(&self) -> EventView {
        match self {
            SocketEvent::Binary(frame) => EventView::Binary(frame@),
            SocketEvent::Close => EventView::Close,
            SocketEvent::Other => EventView::Other,
            SocketEvent::Lost => EventView::Lost,
        }
    }
}

/// What is to be done.
pub enum Action {
    /// Let the client into the room, and welcome it.
    Join(Hello),
    /// Send an error, and end the connection.
    Refuse(String),
    /// Hand a frame to the server.
    Process(Vec<u8>),
    /// Nothing.
    Ignore,
    /// Let the client out of the room, and end the connection.
    Leave,
    /// End the connection, which has joined no room.
    End,
}

/// The contents of an [`Action`].
pub enum ActionView {
    Join(Seq<char>, Seq<char>, Map<u64, u64>),
    Refuse(Seq<char>),
    Process(Seq<u8>),
    Ignore,
    Leave,
    End,
}

impl View for Action {
    type V = ActionView;

    open spec fn view(&self) -> ActionView {
        match self {
            Action::Join(hello) => ActionView::Join(hello.room@, hello.resume_token@, hello.version@),
            Action::Refuse(message) => ActionView::Refuse(message@),
            Action::Process(frame) => ActionView::Process(frame@),
            Action::Ignore => ActionView::Ignore,
            Action::Leave => ActionView::Leave,
            Action::End => ActionView::End,
        }
    }
}

/// What the first message of a connection leads to.
pub open spec fn greeted(first: Option<Seq<u8>>, hint: Option<Seq<char>>) -> (Phase, ActionView) {
    match server::introduced(first, hint) {
        Ok((room, token, version)) => (Phase::Joined, ActionView::Join(room, token, version)),
        Err(message) => (Phase::Ended, ActionView::Refuse(message)),
    }
}

/// What an event leads to. Only a binary message can be a hello; any other
/// first message is refused. Once the client is in a room, messages of other
/// kinds are passed over.
pub open spec fn stepped(phase: Phase, event: EventView, hint: Option<Seq<char>>) -> (Phase, ActionView) {
    match phase {
        Phase::Greeting => match event {
            EventView::Binary(frame) => greeted(Some(frame), hint),
            EventView::Close => greeted(None, hint),
            EventView::Other => greeted(None, hint),
            EventView::Lost => (Phase::Ended, ActionView::End),
        },
        Phase::Joined => match event {
            EventView::Binary(frame) => (Phase::Joined, ActionView::Process(frame)),
            EventView::Other => (Phase::Joined, ActionView::Ignore),
            EventView::Close => (Phase::Ended, ActionView::Leave),
            EventView::Lost => (Phase::Ended, ActionView::Leave),
        },
        Phase::Ended => (Phase::Ended, ActionView::Ignore),
    }
}

fn greet(first: Option<&[u8]>, hint: Option<String>) -> (next: (Phase, Action))
    ensures
        (next.0, next.1@) == greeted(
            match first {
                Some(frame) => Some(frame@),
                None => None,
            },
            match hint {
                Some(name) => Some(name@),
                None => None,
            },
        ),
{
    match server::read_hello(first, hint) {
        Ok(hello) => (Phase::Joined, Action::Join(hello)),
        Err(message) => (Phase::Ended, Action::Refuse(message)),
    }
}

/// Goes on from an event. `hint` is the room that the address of the connection
/// names.
pub fn step(phase: Phase, event: SocketEvent, hint: Option<String>) -> (next: (Phase, Action))
    ensures
        (next.0, next.1@) == stepped(
            phase,
            event@,
            match hint {
                Some(name) => Some(name@),
                None => None,
            },
        ),
{
    match phase {
        Phase::Greeting => match event {
            SocketEvent::Binary(frame) => greet(Some(frame.as_slice()), hint),
            SocketEvent::Close => greet(None, hint),
            SocketEvent::Other => greet(None, hint),
            SocketEvent::Lost => (Phase::Ended, Action::End),
        },
        Phase::Joined => match event {
            SocketEvent::Binary(frame) => (Phase::Joined, Action::Process(frame)),
            SocketEvent::Other => (Phase::Joined, Action::Ignore),
            SocketEvent::Close => (Phase::Ended, Action::Leave),
            SocketEvent::Lost => (Phase::Ended, Action::Leave),
        },
        Phase::Ended => (Phase::Ended, Action::Ignore),
    }
}

/// A connection after some events, and what was done.
pub open spec fn lived(events: Seq<EventView>, hint: Option<Seq<char>>) -> (Phase, Seq<ActionView>)
    decreases events.len(),
{
    if events.len() == 0 {
        (Phase::Greeting, seq![])
    } else {
        let (phase, actions) = lived(events.drop_last(), hint);
        let (next, action) = stepped(phase, events.last(), hint);
        (next, actions.push(action))
    }
}

/// How often the client was let into a room.
pub open spec fn joins(actions: Seq<ActionView>) -> nat {
    actions.filter(|a: ActionView| a is Join).len()
}

/// How often the client was let out of the room.
pub open spec fn leaves(actions: Seq<ActionView>) -> nat {
    actions.filter(|a: ActionView| a is Leave).len()
}

/// Whoever has joined leaves, once: while the client is in the room it has
/// joined once and not left, and when the connection is over it has left as
/// often as it has joined, once at most. Before the hello it has done neither.
pub proof fn law_who_joins_leaves(events: Seq<EventView>, hint: Option<Seq<char>>)
    ensures
        ({
            let (phase, actions) = lived(events, hint);
            match phase {
                Phase::Greeting => joins(actions) == 0 && leaves(actions) == 0,
                Phase::Joined => joins(actions) == 1 && leaves(actions) == 0,
                Phase::Ended => joins(actions) == leaves(actions) && joins(actions) <= 1,
            }
        }),
    decreases events.len(),
{
    if events.len() == 0 {
        let none = Seq::<ActionView>::empty();
        assert(none.filter(|a: ActionView| a is Join) =~= none) by {
            reveal(Seq::filter);
        }
        assert(none.filter(|a: ActionView| a is Leave) =~= none) by {
            reveal(Seq::filter);
        }
    } else {
        let (phase, actions) = lived(events.drop_last(), hint);
        law_who_joins_leaves(events.drop_last(), hint);
        let (next, action) = stepped(phase, events.last(), hint);
        let longer = actions.push(action);
        assert(longer.drop_last() =~= actions);
        reveal(Seq::filter);
        assert(longer.last() == action);
    }
}

/// Frames reach the server only from a client in a room: what is done for the
/// frame at `i` is to hand it over if and only if the client had joined before
/// and not left.
pub proof fn law_frames_come_from_members(events: Seq<EventView>, hint: Option<Seq<char>>, i: int)
    requires
        0 <= i < events.len(),
    ensures
        ({
            let before = lived(events.take(i), hint).0;
            let action = lived(events, hint).1[i];
            &&& lived(events, hint).1.len() == events.len()
            &&& action is Process <==> before == Phase::Joined && events[i] is Binary
            &&& action matches ActionView::Process(frame) ==> events[i] == EventView::Binary(frame)
        }),
    decreases events.len(),
{
    lemma_lived_length(events, hint);
    if i < events.len() - 1 {
        law_frames_come_from_members(events.drop_last(), hint, i);
        lemma_lived_length(events.drop_last(), hint);
        assert(events.drop_last().take(i) =~= events.take(i));
    } else {
        lemma_lived_length(events.drop_last(), hint);
        assert(events.take(i) =~= events.drop_last());
    }
}

proof fn lemma_lived_length(events: Seq<EventView>, hint: Option<Seq<char>>)
    ensures
        lived(events, hint).1.len() == events.len(),
    decreases events.len(),
{
    if events.len() > 0 {
        lemma_lived_length(events.drop_last(), hint);
    }
}

/// A lost connection is over.
pub proof fn law_lost_is_over(events: Seq<EventView>, hint: Option<Seq<char>>)
    requires
        exists|i: int| 0 <= i < events.len() && events[i] is Lost,
    ensures
        lived(events, hint).0 == Phase::Ended,
    decreases events.len(),
{
    let i = choose|i: int| 0 <= i < events.len() && events[i] is Lost;
    if i < events.len() - 1 {
        assert(events.drop_last()[i] is Lost);
        law_lost_is_over(events.drop_last(), hint);
    }
}

/// What each event of a connection brings. The first frame has to be an
/// introduction; whoever has not sent one is turned away, or gone. From then on
/// frames are processed, whatever is no frame is passed over, and the end of the
/// connection is taken for leaving. What comes after that is passed over.
pub proof fn law_events_are_answered(frame: Seq<u8>, event: EventView, hint: Option<Seq<char>>)
    ensures
        ({
            let m = server::introduced(Some(frame), hint);
            let (phase, action) = stepped(Phase::Greeting, EventView::Binary(frame), hint);
            &&& m is Ok ==> phase == Phase::Joined && action == ActionView::Join(
                (m->Ok_0).0,
                (m->Ok_0).1,
                (m->Ok_0).2,
            )
            &&& m is Err ==> phase == Phase::Ended && action == ActionView::Refuse(m->Err_0)
        }),
        event is Close || event is Other ==> stepped(Phase::Greeting, event, hint).0 == Phase::Ended && stepped(
            Phase::Greeting,
            event,
            hint,
        ).1 is Refuse,
        stepped(Phase::Greeting, EventView::Lost, hint) == (Phase::Ended, ActionView::End),
        stepped(Phase::Joined, EventView::Binary(frame), hint) == (Phase::Joined, ActionView::Process(frame)),
        stepped(Phase::Joined, EventView::Other, hint) == (Phase::Joined, ActionView::Ignore),
        event is Close || event is Lost ==> stepped(Phase::Joined, event, hint) == (Phase::Ended, ActionView::Leave),
        stepped(Phase::Ended, event, hint) == (Phase::Ended, ActionView::Ignore),
{
}

} // verus!
