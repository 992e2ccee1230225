//! A room of the relay server: one document and the clients that share it.

use crate::causal_buffer;
use crate::causal_buffer::CausalBuffer;
use crate::delivery;
use crate::document;
use crate::document::{Document, DocumentView};
use crate::encoding;
use crate::error::VectisErrorView;
use crate::float::F64;
use crate::gc;
use crate::gc::GcConfig;
use crate::names::NameMap;
use crate::operation;
use crate::operation::{Operation, OperationView};
use crate::protocol;
use crate::protocol::{MessageView, ProtocolMessage};
use crate::rga;
use crate::rga::ItemState;
use crate::round_trip;
use crate::snapshot;
use crate::text;
use crate::types;
use crate::types::{ActorId, OpId, VectorClock};
use crate::wire;
use vstd::prelude::*;

verus! {

/// A connected client and what it is known to have seen.
pub struct ClientState {
    pub actor: ActorId,
    pub version: VectorClock,
}

/// A frame and the client that it goes to.
pub struct Addressed {
    pub to: ActorId,
    pub frame: Vec<u8>,
}

/// Who is told of an update: the clients that get the update itself, and the
/// frames that announce what all clients have confirmed.
pub struct UpdateRecipients {
    pub update: Vec<ActorId>,
    pub mvv: Vec<Addressed>,
}

/// One document and the clients that share it.
pub struct RoomState {
    pub doc: Document,
    pub buffer: CausalBuffer,
    /// The operations that a client can be caught up with.
    pub op_log: Vec<Operation>,
    /// What a client must have seen for the log to be enough.
    pub op_log_base: VectorClock,
    /// The connected clients, in the order in which they joined.
    pub clients: Vec<ClientState>,
    /// The actor that each resume token stands for.
    pub sessions: NameMap<ActorId>,
    pub next_actor: u64,
    pub next_token: u64,
}

/// The contents of a [`RoomState`].
#[verifier::ext_equal]
pub struct RoomView {
    pub doc: DocumentView,
    pub held: Seq<OperationView>,
    pub capacity: usize,
    pub log: Seq<OperationView>,
    pub base: Map<u64, u64>,
    pub clients: Seq<(ActorId, Map<u64, u64>)>,
    pub sessions: Map<Seq<char>, ActorId>,
    pub next_actor: u64,
    pub next_token: u64,
}

impl View for ClientState {
    type V = (ActorId, Map<u64, u64>);

    open spec fn view(&self) -> (ActorId, Map<u64, u64>) {
        (self.actor, self.version@)
    }
}

impl View for Addressed {
    type V = (ActorId, Seq<u8>);

    open spec fn view(&self) -> (ActorId, Seq<u8>) {
        (self.to, self.frame@)
    }
}

/// The views of the clients.
pub open spec fn client_views(clients: Seq<ClientState>) -> Seq<(ActorId, Map<u64, u64>)> {
    clients.map_values(|c: ClientState| c@)
}

/// The views of the frames.
pub open spec fn frame_views(frames: Seq<Addressed>) -> Seq<(ActorId, Seq<u8>)> {
    frames.map_values(|f: Addressed| f@)
}

impl View for RoomState {
    type V = RoomView;

    open spec fn view(&self) -> RoomView {
        RoomView {
            doc: self.doc@,
            held: self.buffer@,
            capacity: self.buffer.max_capacity,
            log: operation::views(self.op_log@),
            base: self.op_log_base@,
            clients: client_views(self.clients@),
            sessions: self.sessions@,
            next_actor: self.next_actor,
            next_token: self.next_token,
        }
    }
}

/// A room that nobody has entered.
pub open spec fn vacant() -> RoomView {
    RoomView {
        doc: document::blank(ActorId(0)),
        held: seq![],
        capacity: causal_buffer::DEFAULT_MAX_CAPACITY,
        log: seq![],
        base: Map::empty(),
        clients: seq![],
        sessions: Map::empty(),
        next_actor: 1,
        next_token: 1,
    }
}

/// Whether an actor is connected.
pub open spec fn connected(clients: Seq<(ActorId, Map<u64, u64>)>, actor: ActorId) -> bool {
    exists|i: int| 0 <= i < clients.len() && (#[trigger] clients[i]).0 == actor
}

/// Where an actor stands among the clients.
pub open spec fn place(clients: Seq<(ActorId, Map<u64, u64>)>, actor: ActorId) -> int {
    choose|i: int| 0 <= i < clients.len() && (#[trigger] clients[i]).0 == actor
}

/// No actor is connected twice.
pub open spec fn one_each(clients: Seq<(ActorId, Map<u64, u64>)>) -> bool {
    forall|i: int, j: int|
        0 <= i < clients.len() && 0 <= j < clients.len() && (#[trigger] clients[i]).0 == (#[trigger] clients[j]).0
            ==> i == j
}

/// The clients after one has joined, or has been replaced.
pub open spec fn with_client(
    clients: Seq<(ActorId, Map<u64, u64>)>,
    actor: ActorId,
    version: Map<u64, u64>,
) -> Seq<(ActorId, Map<u64, u64>)> {
    if connected(clients, actor) {
        clients.update(place(clients, actor), (actor, version))
    } else {
        clients.push((actor, version))
    }
}

/// The clients after one has left.
pub open spec fn without_client(
    clients: Seq<(ActorId, Map<u64, u64>)>,
    actor: ActorId,
) -> Seq<(ActorId, Map<u64, u64>)> {
    if connected(clients, actor) {
        clients.remove(place(clients, actor))
    } else {
        clients
    }
}

/// The clients after one has reported what it has seen. An actor that is not
/// connected reports nothing.
pub open spec fn reported(
    clients: Seq<(ActorId, Map<u64, u64>)>,
    actor: ActorId,
    version: Map<u64, u64>,
) -> Seq<(ActorId, Map<u64, u64>)> {
    if connected(clients, actor) {
        clients.update(place(clients, actor), (actor, version))
    } else {
        clients
    }
}

/// The connected actors but one.
pub open spec fn others(clients: Seq<(ActorId, Map<u64, u64>)>, actor: ActorId) -> Seq<ActorId>
    decreases clients.len(),
{
    if clients.len() == 0 {
        seq![]
    } else {
        let rest = others(clients.drop_last(), actor);
        if clients.last().0 == actor {
            rest
        } else {
            rest.push(clients.last().0)
        }
    }
}

/// Whether a token lets its actor in again.
pub open spec fn resumes(room: RoomView, token: Seq<char>) -> bool {
    &&& room.sessions.contains_key(token)
    &&& token.len() > 0
    &&& !connected(room.clients, room.sessions[token])
}

/// The token of a new session.
pub open spec fn token_of(actor: u64, number: u64) -> Seq<char> {
    "r"@ + text::decimal(actor as nat) + "-s"@ + text::decimal(number as nat)
}

/// The room, the actor and the token that a request for a session gets.
pub open spec fn resolved(room: RoomView, requested: Seq<char>) -> (RoomView, ActorId, Seq<char>) {
    if resumes(room, requested) {
        (room, room.sessions[requested], requested)
    } else {
        let actor = ActorId(room.next_actor);
        let token = token_of(room.next_actor, room.next_token);
        (
            RoomView {
                sessions: room.sessions.insert(token, actor),
                next_actor: (room.next_actor + 1) as u64,
                next_token: (room.next_token + 1) as u64,
                ..room
            },
            actor,
            token,
        )
    }
}

/// The logged operations that a client has not seen.
pub open spec fn missing(log: Seq<OperationView>, version: Map<u64, u64>) -> Seq<OperationView>
    decreases log.len(),
{
    if log.len() == 0 {
        seq![]
    } else {
        let rest = missing(log.drop_last(), version);
        let id = log.last().id();
        if types::seen(version, id.actor.0) < id.lamport.0 {
            rest.push(log.last())
        } else {
            rest
        }
    }
}

/// What brings a client up to date: the operations that it lacks, where the log
/// reaches back far enough, and otherwise the whole document `image`.
pub open spec fn catch_up(room: RoomView, image: Seq<u8>, version: Map<u64, u64>) -> MessageView {
    if types::dominated(room.base, version) {
        MessageView::Update { bytes: encoding::update_blob(missing(room.log, version)) }
    } else {
        MessageView::Snapshot { bytes: image }
    }
}

/// What a client has seen after it has sent operations of its own.
pub open spec fn caught_up(version: Map<u64, u64>, ops: Seq<OperationView>) -> Map<u64, u64>
    decreases ops.len(),
{
    if ops.len() == 0 {
        version
    } else {
        let id = ops.last().id();
        types::advanced(caught_up(version, ops.drop_last()), id.actor.0, id.lamport.0)
    }
}

/// Point-wise earlier time of two clocks.
pub open spec fn common(m: Map<u64, u64>, n: Map<u64, u64>) -> Map<u64, u64> {
    Map::new(
        |a: u64| m.contains_key(a) || n.contains_key(a),
        |a: u64| if types::seen(n, a) < types::seen(m, a) { types::seen(n, a) } else { types::seen(m, a) },
    )
}

/// What every client has seen.
pub open spec fn floor(clients: Seq<(ActorId, Map<u64, u64>)>) -> Map<u64, u64>
    decreases clients.len(),
{
    if clients.len() == 0 {
        Map::empty()
    } else if clients.len() == 1 {
        clients[0].1
    } else {
        common(floor(clients.drop_last()), clients.last().1)
    }
}

/// The room after it has taken stock of what every client has seen. Where
/// tombstones were collected, the log no longer reaches back.
pub open spec fn surveyed(room: RoomView, q: spec_fn(usize, usize) -> F64) -> RoomView {
    if room.clients.len() == 0 {
        room
    } else {
        let (doc, result) = gc::confirmed(room.doc, floor(room.clients), gc::standard(), q);
        match result {
            Some(report) if report.tombstones_removed > 0 => RoomView {
                doc,
                log: seq![],
                base: doc.version,
                ..room
            },
            _ => RoomView { doc, ..room },
        }
    }
}

/// The frame that announces what every client has seen.
pub open spec fn announcement(clients: Seq<(ActorId, Map<u64, u64>)>) -> Seq<u8> {
    protocol::frame_bytes(MessageView::Mvv { bytes: encoding::state_vector(floor(clients)) })
}

/// The same frame to every client.
pub open spec fn to_all(clients: Seq<(ActorId, Map<u64, u64>)>, frame: Seq<u8>) -> Seq<(ActorId, Seq<u8>)> {
    clients.map_values(|c: (ActorId, Map<u64, u64>)| (c.0, frame))
}

/// The announcement to every client.
pub open spec fn announced(clients: Seq<(ActorId, Map<u64, u64>)>) -> Seq<(ActorId, Seq<u8>)> {
    to_all(clients, announcement(clients))
}

/// The room after operations of an actor have been taken in and logged, before
/// it takes stock.
pub open spec fn logged(room: RoomView, actor: ActorId, ops: Seq<OperationView>) -> RoomView {
    let (doc, held, ok) = causal_buffer::absorbed(room.doc, room.held, room.capacity, ops);
    if !ok {
        RoomView { doc, held, ..room }
    } else {
        RoomView {
            doc,
            held,
            log: room.log + ops,
            clients: reported(
                room.clients,
                actor,
                caught_up(room.clients[place(room.clients, actor)].1, ops),
            ),
            ..room
        }
    }
}

/// Whether every operation finds room in the buffer.
pub open spec fn takes(room: RoomView, ops: Seq<OperationView>) -> bool {
    causal_buffer::absorbed(room.doc, room.held, room.capacity, ops).2
}

/// What is said of an operation that found no room.
pub open spec fn refusal(capacity: usize) -> Seq<char> {
    "server apply failed: "@ + VectisErrorView::CausalBufferOverflow { capacity }.message()
}

/// Point-wise earlier time of two clocks.
fn lower(a: &VectorClock, b: &VectorClock) -> (least: VectorClock)
    ensures
        least@ == common(a@, b@),
{
    let mut least = VectorClock::new();
    let firsts = a.iter();
    let seconds = b.iter();
    let mut i: usize = 0;
    while i < firsts.len()
        invariant
            i <= firsts@.len(),
            types::enumerates(a@, firsts@),
            forall|x: u64| #[trigger]
                least@.contains_key(x) <==> exists|j: int| 0 <= j < i && (#[trigger] firsts@[j]).0.0 == x,
            forall|x: u64| #[trigger] least@.contains_key(x) ==> least@[x] == common(a@, b@)[x],
        decreases firsts@.len() - i,
    {
        let (actor, x): (ActorId, u64) = firsts[i];
        let y: u64 = b.get(actor);
        let ghost before = least@;
        least.advance(actor, if y < x { y } else { x });
        proof {
            assert(firsts@[i as int].0.0 == actor.0);
            assert(!before.contains_key(actor.0)) by {
                if before.contains_key(actor.0) {
                    let j = choose|j: int| 0 <= j < i && (#[trigger] firsts@[j]).0.0 == actor.0;
                    assert(firsts@[j].0.0 < firsts@[i as int].0.0);
                }
            }
            assert(a@.contains_key(actor.0) && a@[actor.0] == x);
            assert forall|z: u64| #[trigger] least@.contains_key(z) <==> exists|j: int|
                0 <= j < i + 1 && (#[trigger] firsts@[j]).0.0 == z by {
                if least@.contains_key(z) && z != actor.0 {
                    assert(before.contains_key(z));
                    let j = choose|j: int| 0 <= j < i && (#[trigger] firsts@[j]).0.0 == z;
                    assert(firsts@[j].0.0 == z);
                }
                if exists|j: int| 0 <= j < i + 1 && (#[trigger] firsts@[j]).0.0 == z {
                    let j = choose|j: int| 0 <= j < i + 1 && (#[trigger] firsts@[j]).0.0 == z;
                    if j < i {
                        assert(before.contains_key(z));
                    }
                }
            }
        }
        i += 1;
    }
    proof {
        assert forall|x: u64| #[trigger] least@.contains_key(x) <==> a@.contains_key(x) by {
            if least@.contains_key(x) {
                let j = choose|j: int| 0 <= j < firsts@.len() && (#[trigger] firsts@[j]).0.0 == x;
                assert(a@.contains_key(firsts@[j].0.0));
            }
        }
    }
    let mut i: usize = 0;
    while i < seconds.len()
        invariant
            i <= seconds@.len(),
            types::enumerates(b@, seconds@),
            forall|x: u64| #[trigger]
                least@.contains_key(x) <==> a@.contains_key(x) || exists|j: int|
                    0 <= j < i && (#[trigger] seconds@[j]).0.0 == x,
            forall|x: u64| #[trigger] least@.contains_key(x) ==> least@[x] == common(a@, b@)[x],
        decreases seconds@.len() - i,
    {
        let (actor, y): (ActorId, u64) = seconds[i];
        let x: u64 = a.get(actor);
        let ghost before = least@;
        least.advance(actor, if y < x { y } else { x });
        proof {
            assert(seconds@[i as int].0.0 == actor.0);
            assert(b@.contains_key(actor.0) && b@[actor.0] == y);
            assert forall|z: u64| #[trigger] least@.contains_key(z) <==> a@.contains_key(z) || exists|j: int|
                0 <= j < i + 1 && (#[trigger] seconds@[j]).0.0 == z by {
                if least@.contains_key(z) && z != actor.0 && !a@.contains_key(z) {
                    assert(before.contains_key(z));
                    let j = choose|j: int| 0 <= j < i && (#[trigger] seconds@[j]).0.0 == z;
                    assert(seconds@[j].0.0 == z);
                }
                if a@.contains_key(z) {
                    assert(before.contains_key(z));
                }
                if exists|j: int| 0 <= j < i + 1 && (#[trigger] seconds@[j]).0.0 == z {
                    let j = choose|j: int| 0 <= j < i + 1 && (#[trigger] seconds@[j]).0.0 == z;
                    if j < i {
                        assert(before.contains_key(z));
                    }
                }
            }
        }
        i += 1;
    }
    proof {
        assert forall|x: u64| #[trigger] least@.contains_key(x) <==> common(a@, b@).contains_key(x) by {
            if least@.contains_key(x) && !a@.contains_key(x) {
                let j = choose|j: int| 0 <= j < seconds@.len() && (#[trigger] seconds@[j]).0.0 == x;
                assert(b@.contains_key(seconds@[j].0.0));
            }
        }
        assert(least@ =~= common(a@, b@));
    }
    least
}

/// Applying operations collects nothing.
proof fn lemma_applied_generation(s: DocumentView, ops: Seq<OperationView>)
    ensures
        document::applied_all(s, ops).gc_generation == s.gc_generation,
    decreases ops.len(),
{
    if ops.len() > 0 {
        lemma_applied_generation(s, ops.drop_last());
    }
}

proof fn lemma_absorbed_generation(
    s: DocumentView,
    held: Seq<OperationView>,
    capacity: usize,
    ops: Seq<OperationView>,
)
    ensures
        causal_buffer::absorbed(s, held, capacity, ops).0.gc_generation == s.gc_generation,
    decreases ops.len(),
{
    if ops.len() > 0 {
        lemma_absorbed_generation(s, held, capacity, ops.drop_last());
        let (t, h, ok) = causal_buffer::absorbed(s, held, capacity, ops.drop_last());
        lemma_applied_generation(t, causal_buffer::released(t, h.push(ops.last())));
    }
}

impl RoomState {
    /// The document and the table of sessions are valid, and no actor is
    /// connected twice.
    pub open spec fn wf(&self) -> bool {
        &&& self.doc.wf()
        &&& self.sessions.wf()
        &&& one_each(client_views(self.clients@))
    }

    pub fn new() -> (room: Self)
        ensures
            room.wf(),
            room@ == vacant(),
            room.doc.metadata.entries@.len() == 0,
    {
        let room = RoomState {
            doc: Document::new(ActorId(0)),
            buffer: CausalBuffer::new(),
            op_log: Vec::new(),
            op_log_base: VectorClock::new(),
            clients: Vec::new(),
            sessions: NameMap::new(),
            next_actor: 1,
            next_token: 1,
        };
        proof {
            assert(room@ =~= vacant());
        }
        room
    }

    pub fn client_count(&self) -> (n: usize)
        ensures
            n == self@.clients.len(),
    {
        self.clients.len()
    }

    /// Where an actor stands among the clients.
    fn find_client(&self, actor: ActorId) -> (at: Option<usize>)
        requires
            self.wf(),
        ensures
            match at {
                Some(i) => i < self.clients@.len() && connected(self@.clients, actor) && place(self@.clients, actor)
                    == i && self.clients@[i as int].actor == actor,
                None => !connected(self@.clients, actor),
            },
    {
        let mut i: usize = 0;
        while i < self.clients.len()
            invariant
                i <= self.clients@.len(),
                self.wf(),
                forall|j: int| 0 <= j < i ==> (#[trigger] self@.clients[j]).0 != actor,
            decreases self.clients@.len() - i,
        {
            if self.clients[i].actor == actor {
                assert(self@.clients[i as int].0 == actor);
                return Some(i);
            }
            assert(self@.clients[i as int].0 != actor);
            i += 1;
        }
        None
    }

    /// Connects an actor, or replaces the connection that it has.
    pub fn insert_client(&mut self, actor: ActorId, version: VectorClock)
        requires
            old(self).wf(),
        ensures
            final(self).wf(),
            final(self)@ == (RoomView {
                clients: with_client(old(self)@.clients, actor, version@),
                ..old(self)@
            }),
            final(self).doc == old(self).doc,
    {
        let ghost v = version@;
        match self.find_client(actor) {
            Some(i) => {
                self.clients.set(i, ClientState { actor, version });
                proof {
                    assert(self@.clients =~= old(self)@.clients.update(i as int, (actor, v)));
                    lemma_update_one_each(old(self)@.clients, i as int, v);
                }
            },
            None => {
                self.clients.push(ClientState { actor, version });
                proof {
                    assert(self@.clients =~= old(self)@.clients.push((actor, v)));
                    assert forall|j: int| 0 <= j < old(self)@.clients.len() implies (
                    #[trigger] self@.clients[j]).0 != actor by {
                        assert(old(self)@.clients[j] == self@.clients[j]);
                    }
                    assert forall|i: int, j: int|
                        0 <= i < self@.clients.len() && 0 <= j < self@.clients.len() && (#[trigger] self@.clients[i]).0
                            == (#[trigger] self@.clients[j]).0 implies i == j by {
                        let was = old(self)@.clients;
                        if i < was.len() && j < was.len() {
                            assert(was[i].0 == was[j].0);
                        }
                    }
                }
            },
        }
    }

    /// Disconnects an actor.
    pub fn remove_client(&mut self, actor: ActorId)
        requires
            old(self).wf(),
        ensures
            final(self).wf(),
            final(self)@ == (RoomView { clients: without_client(old(self)@.clients, actor), ..old(self)@ }),
            final(self).doc == old(self).doc,
    {
        match self.find_client(actor) {
            Some(i) => {
                self.clients.remove(i);
                proof {
                    let was = old(self)@.clients;
                    assert(self@.clients =~= was.remove(i as int));
                    assert forall|a: int, b: int|
                        0 <= a < self@.clients.len() && 0 <= b < self@.clients.len() && (#[trigger] self@.clients[a]).0
                            == (#[trigger] self@.clients[b]).0 implies a == b by {
                        let c = if a < i { a } else { a + 1 };
                        let d = if b < i { b } else { b + 1 };
                        assert(was[c].0 == was[d].0);
                    }
                }
            },
            None => {},
        }
    }

    /// The connected actors but one.
    pub fn recipients_except(&self, actor: ActorId) -> (list: Vec<ActorId>)
        ensures
            list@ == others(self@.clients, actor),
    {
        let mut list: Vec<ActorId> = Vec::new();
        let ghost all = self@.clients;
        let mut i: usize = 0;
        proof {
            assert(all.take(0) =~= seq![]);
        }
        while i < self.clients.len()
            invariant
                i <= self.clients@.len(),
                all == self@.clients,
                list@ == others(all.take(i as int), actor),
            decreases self.clients@.len() - i,
        {
            let client = self.clients[i].actor;
            proof {
                assert(all.take(i + 1).drop_last() =~= all.take(i as int));
                assert(all.take(i + 1).last() == self.clients@[i as int]@);
            }
            if client != actor {
                list.push(client);
            }
            i += 1;
        }
        proof {
            assert(all.take(i as int) =~= all);
        }
        list
    }

    /// Finds the session of a resume token, or opens a new one. The token of an
    /// actor that is connected opens a new one too.
    pub fn resolve_session(&mut self, requested_token: String) -> (session: (ActorId, String))
        requires
            old(self).wf(),
            old(self).next_actor < u64::MAX,
            old(self).next_token < u64::MAX,
        ensures
            final(self).wf(),
            (final(self)@, session.0, session.1@) == resolved(old(self)@, requested_token@),
            final(self).doc == old(self).doc,
    {
        let found = match self.sessions.get(&requested_token) {
            Some(actor) => Some(*actor),
            None => None,
        };
        match found {
            Some(actor) => {
                let empty = requested_token.as_str().unicode_len() == 0;
                if !empty && self.find_client(actor).is_none() {
                    return (actor, requested_token);
                }
            },
            None => {},
        }
        let actor = ActorId(self.next_actor);
        self.next_actor = self.next_actor + 1;
        let mut token = String::new();
        token.append("r");
        text::push_decimal(&mut token, actor.0);
        token.append("-s");
        text::push_decimal(&mut token, self.next_token);
        self.next_token = self.next_token + 1;
        proof {
            assert(token@ =~= token_of(old(self).next_actor, old(self).next_token));
        }
        self.sessions.insert(token.clone(), actor);
        (actor, token)
    }

    /// What brings a client up to date.
    pub fn sync_message(&self, client_version: &VectorClock) -> (message: ProtocolMessage)
        ensures
            message@ == catch_up(
                self@,
                snapshot::snapshot_bytes(self.doc@, snapshot::registers(self.doc.metadata.entries@)),
                client_version@,
            ),
    {
        if client_version.dominates(&self.op_log_base) {
            let mut list: Vec<Operation> = Vec::new();
            let ghost log = self@.log;
            let ghost version = client_version@;
            let mut i: usize = 0;
            proof {
                assert(log.take(0) =~= seq![]);
                assert(operation::views(list@) =~= missing(log.take(0), version));
            }
            while i < self.op_log.len()
                invariant
                    i <= self.op_log@.len(),
                    log == self@.log,
                    version == client_version@,
                    operation::views(list@) == missing(log.take(i as int), version),
                decreases self.op_log@.len() - i,
            {
                let id = self.op_log[i].id();
                proof {
                    assert(log.take(i + 1).drop_last() =~= log.take(i as int));
                    assert(log.take(i + 1).last() == self.op_log@[i as int]@);
                }
                if client_version.get(id.actor) < id.lamport.0 {
                    let ghost before = list@;
                    list.push(self.op_log[i].clone());
                    proof {
                        assert(operation::views(list@) =~= operation::views(before).push(log[i as int]));
                    }
                }
                i += 1;
            }
            proof {
                assert(log.take(i as int) =~= log);
            }
            ProtocolMessage::Update { bytes: encoding::encode_update(list.as_slice()) }
        } else {
            ProtocolMessage::Snapshot { bytes: snapshot::encode_snapshot(&self.doc) }
        }
    }

    /// Takes stock of what every client has seen, and collects tombstones where
    /// that is due. Gives the frame that announces it, if anybody is connected.
    fn compute_mvv_frame<R: Fn(usize, usize) -> F64>(&mut self, divide: &R) -> (frame: Option<Vec<u8>>)
        requires
            old(self).wf(),
            old(self).doc@.gc_generation < u64::MAX,
            gc::well_defined(*divide),
        ensures
            final(self).wf(),
            final(self)@ == surveyed(old(self)@, gc::quotient(*divide)),
            final(self)@.clients == old(self)@.clients,
            match frame {
                Some(bytes) => old(self)@.clients.len() > 0 && bytes@ == announcement(old(self)@.clients),
                None => old(self)@.clients.len() == 0,
            },
    {
        if self.clients.len() == 0 {
            return None;
        }
        let ghost all = self@.clients;
        let mut mvv = self.clients[0].version.clone();
        let mut i: usize = 1;
        proof {
            assert(all.take(1)[0] == self.clients@[0]@);
            assert(floor(all.take(1)) == mvv@);
        }
        while i < self.clients.len()
            invariant
                1 <= i <= self.clients@.len(),
                all == self@.clients,
                mvv@ == floor(all.take(i as int)),
            decreases self.clients@.len() - i,
        {
            proof {
                assert(all.take(i + 1).drop_last() =~= all.take(i as int));
                assert(all.take(i + 1).last() == self.clients@[i as int]@);
            }
            mvv = lower(&mvv, &self.clients[i].version);
            i += 1;
        }
        proof {
            assert(all.take(i as int) =~= all);
        }
        let bytes = encoding::encode_state_vector(&mvv);
        let config = GcConfig::default();
        match self.doc.update_min_version(mvv, &config, divide) {
            Some(report) => {
                if report.tombstones_removed > 0 {
                    self.op_log = Vec::new();
                    self.op_log_base = self.doc.version.clone();
                    proof {
                        assert(self@.log =~= seq![]);
                    }
                }
            },
            None => {},
        }
        proof {
            assert(self@ =~= surveyed(old(self)@, gc::quotient(*divide)));
        }
        Some(protocol::encode_message(&ProtocolMessage::Mvv { bytes }))
    }

    /// Takes stock of what every client has seen, and announces it to all.
    fn mvv_recipients<R: Fn(usize, usize) -> F64>(&mut self, divide: &R) -> (frames: Vec<Addressed>)
        requires
            old(self).wf(),
            old(self).doc@.gc_generation < u64::MAX,
            gc::well_defined(*divide),
        ensures
            final(self).wf(),
            final(self)@ == surveyed(old(self)@, gc::quotient(*divide)),
            frame_views(frames@) == announced(old(self)@.clients),
    {
        let mut frames: Vec<Addressed> = Vec::new();
        match self.compute_mvv_frame(divide) {
            Some(frame) => {
                let mut i: usize = 0;
                while i < self.clients.len()
                    invariant
                        i <= self.clients@.len(),
                        self.wf(),
                        self@ == surveyed(old(self)@, gc::quotient(*divide)),
                        self@.clients == old(self)@.clients,
                        frame@ == announcement(old(self)@.clients),
                        frames@.len() == i,
                        forall|j: int| 0 <= j < i ==> (#[trigger] frames@[j])@ == (old(self)@.clients[j].0, frame@),
                    decreases self.clients@.len() - i,
                {
                    let copy = wire::copy_range(frame.as_slice(), 0, frame.len());
                    assert(self@.clients[i as int] == self.clients@[i as int]@);
                    frames.push(Addressed { to: self.clients[i].actor, frame: copy });
                    i += 1;
                }
            },
            None => {},
        }
        proof {
            assert(frame_views(frames@) =~= announced(old(self)@.clients));
        }
        frames
    }

    /// Takes over what a client says it has seen.
    pub fn update_client_version<R: Fn(usize, usize) -> F64>(
        &mut self,
        actor: ActorId,
        version: VectorClock,
        divide: &R,
    ) -> (frames: Vec<Addressed>)
        requires
            old(self).wf(),
            old(self).doc@.gc_generation < u64::MAX,
            gc::well_defined(*divide),
        ensures
            final(self).wf(),
            ({
                let room = RoomView {
                    clients: reported(old(self)@.clients, actor, version@),
                    ..old(self)@
                };
                &&& final(self)@ == surveyed(room, gc::quotient(*divide))
                &&& frame_views(frames@) == announced(room.clients)
            }),
    {
        self.report(actor, version);
        self.mvv_recipients(divide)
    }

    /// Records what a client has seen.
    fn report(&mut self, actor: ActorId, version: VectorClock)
        requires
            old(self).wf(),
        ensures
            final(self).wf(),
            final(self)@ == (RoomView { clients: reported(old(self)@.clients, actor, version@), ..old(self)@ }),
    {
        let ghost v = version@;
        match self.find_client(actor) {
            Some(i) => {
                self.clients.set(i, ClientState { actor, version });
                proof {
                    assert(self@.clients =~= old(self)@.clients.update(i as int, (actor, v)));
                    lemma_update_one_each(old(self)@.clients, i as int, v);
                }
            },
            None => {},
        }
    }

    /// Takes in operations of an actor, one by one. The first that finds no
    /// room in the buffer ends it: those before it have then been taken in, but
    /// are not logged, and nobody is told.
    pub fn apply_update<R: Fn(usize, usize) -> F64>(
        &mut self,
        actor: ActorId,
        ops: Vec<Operation>,
        divide: &R,
    ) -> (result: Result<UpdateRecipients, String>)
        requires
            old(self).wf(),
            old(self).doc@.gc_generation < u64::MAX,
            gc::well_defined(*divide),
        ensures
            final(self).wf(),
            ({
                let list = operation::views(ops@);
                let room = logged(old(self)@, actor, list);
                match result {
                    Ok(told) => {
                        &&& takes(old(self)@, list)
                        &&& final(self)@ == surveyed(room, gc::quotient(*divide))
                        &&& told.update@ == others(room.clients, actor)
                        &&& frame_views(told.mvv@) == announced(room.clients)
                    },
                    Err(message) => {
                        &&& !takes(old(self)@, list)
                        &&& final(self)@ == room
                        &&& message@ == refusal(old(self)@.capacity)
                    },
                }
            }),
    {
        let ghost list = operation::views(ops@);
        match self.doc.absorb(&ops, &mut self.buffer) {
            Err(e) => {
                let mut message = String::new();
                message.append("server apply failed: ");
                message.append(e.to_string().as_str());
                proof {
                    assert(message@ =~= refusal(old(self)@.capacity));
                }
                return Err(message);
            },
            Ok(_) => {},
        }
        proof {
            lemma_absorbed_generation(old(self)@.doc, old(self)@.held, old(self)@.capacity, list);
        }
        match self.find_client(actor) {
            Some(at) => {
                let mut version = self.clients[at].version.clone();
                let ghost before = version@;
                let mut i: usize = 0;
                proof {
                    assert(list.take(0) =~= seq![]);
                    assert(before == self@.clients[at as int].1);
                }
                while i < ops.len()
                    invariant
                        i <= ops@.len(),
                        list == operation::views(ops@),
                        version@ == caught_up(before, list.take(i as int)),
                    decreases ops@.len() - i,
                {
                    let id = ops[i].id();
                    proof {
                        assert(list.take(i + 1).drop_last() =~= list.take(i as int));
                        assert(list.take(i + 1).last() == ops@[i as int]@);
                    }
                    version.advance(id.actor, id.lamport.0);
                    i += 1;
                }
                proof {
                    assert(list.take(i as int) =~= list);
                }
                self.report(actor, version);
            },
            None => {},
        }
        self.log_ops(ops);
        proof {
            assert(self@ =~= logged(old(self)@, actor, list));
        }
        let update = self.recipients_except(actor);
        let mvv = self.mvv_recipients(divide);
        Ok(UpdateRecipients { update, mvv })
    }

    /// Appends operations to the log.
    fn log_ops(&mut self, ops: Vec<Operation>)
        requires
            old(self).wf(),
        ensures
            final(self).wf(),
            final(self)@ == (RoomView { log: old(self)@.log + operation::views(ops@), ..old(self)@ }),
    {
        let ghost list = ops@;
        let mut more = ops;
        self.op_log.append(&mut more);
        proof {
            assert(self@.log =~= old(self)@.log + operation::views(list));
        }
    }
}

proof fn lemma_update_one_each(clients: Seq<(ActorId, Map<u64, u64>)>, i: int, version: Map<u64, u64>)
    requires
        one_each(clients),
        0 <= i < clients.len(),
    ensures
        one_each(clients.update(i, (clients[i].0, version))),
{
    let now = clients.update(i, (clients[i].0, version));
    assert forall|a: int, b: int|
        0 <= a < now.len() && 0 <= b < now.len() && (#[trigger] now[a]).0 == (#[trigger] now[b]).0 implies a == b by {
        assert(clients[a].0 == clients[b].0);
    }
}

/// Every actor that has a session or is connected was given its number by this
/// room.
pub open spec fn assigned(room: RoomView) -> bool {
    &&& 1 <= room.next_actor
    &&& forall|i: int|
        0 <= i < room.clients.len() ==> 1 <= (#[trigger] room.clients[i]).0.0 < room.next_actor
    &&& forall|t: Seq<char>| #[trigger]
        room.sessions.contains_key(t) ==> 1 <= room.sessions[t].0 < room.next_actor
}

/// The actor of a session is never one that is connected, and is never the
/// reserved actor 0; and it can be connected without breaking that.
pub proof fn law_sessions_do_not_collide(room: RoomView, requested: Seq<char>, version: Map<u64, u64>)
    requires
        assigned(room),
        room.next_actor < u64::MAX,
    ensures
        ({
            let (next, actor, token) = resolved(room, requested);
            &&& !connected(room.clients, actor)
            &&& 1 <= actor.0
            &&& next.clients == room.clients
            &&& assigned(RoomView { clients: with_client(next.clients, actor, version), ..next })
        }),
{
    let (next, actor, token) = resolved(room, requested);
    if connected(room.clients, actor) {
        let i = place(room.clients, actor);
        assert(room.clients[i].0 == actor);
    }
    let clients = with_client(next.clients, actor, version);
    assert forall|i: int| 0 <= i < clients.len() implies 1 <= (#[trigger] clients[i]).0.0 < next.next_actor by {
        if i < room.clients.len() {
            assert(clients[i] == room.clients[i]);
        }
    }
}

/// A session that was opened is found again by its token, as long as its actor
/// is not connected.
pub proof fn law_token_resumes_session(room: RoomView, requested: Seq<char>)
    ensures
        ({
            let (next, actor, token) = resolved(room, requested);
            !connected(next.clients, actor) ==> resolved(next, token) == (next, actor, token)
        }),
{
    let (next, actor, token) = resolved(room, requested);
    if !resumes(room, requested) {
        reveal_strlit("r");
        assert(token.len() > 0);
    }
}

/// The token of a connected actor opens a session of another actor.
pub proof fn law_token_of_connected_actor(room: RoomView, token: Seq<char>)
    requires
        assigned(room),
        room.sessions.contains_key(token),
        connected(room.clients, room.sessions[token]),
    ensures
        resolved(room, token).1 != room.sessions[token],
        resolved(room, token).2.len() > 0,
{
    reveal_strlit("r");
}

/// Leaving a room keeps its numbering.
pub proof fn law_leaving_keeps_numbers(room: RoomView, actor: ActorId)
    requires
        assigned(room),
        one_each(room.clients),
    ensures
        assigned(RoomView { clients: without_client(room.clients, actor), ..room }),
        !connected(without_client(room.clients, actor), actor),
{
    let now = without_client(room.clients, actor);
    if connected(room.clients, actor) {
        let at = place(room.clients, actor);
        assert forall|i: int| 0 <= i < now.len() implies 1 <= (#[trigger] now[i]).0.0 < room.next_actor && now[i].0
            != actor by {
            let j = if i < at { i } else { i + 1 };
            assert(now[i] == room.clients[j]);
            assert(room.clients[at].0 == actor);
        }
    }
}

/// Whether a client has seen an operation.
pub open spec fn has_seen(version: Map<u64, u64>, op: OperationView) -> bool {
    op.id().lamport.0 <= types::seen(version, op.id().actor.0)
}

/// The operations that a client is caught up with are those of the log that it
/// has not seen: each logged operation is either among them or was seen, and
/// none of them was seen.
pub proof fn law_catching_up_is_complete(log: Seq<OperationView>, version: Map<u64, u64>, op: OperationView)
    ensures
        missing(log, version).contains(op) <==> log.contains(op) && !has_seen(version, op),
    decreases log.len(),
{
    if log.len() > 0 {
        let less = log.drop_last();
        law_catching_up_is_complete(less, version, op);
        assert(log =~= less.push(log.last()));
        let rest = missing(less, version);
        assert(log.contains(op) <==> less.contains(op) || op == log.last()) by {
            if less.contains(op) {
                let i = choose|i: int| 0 <= i < less.len() && less[i] == op;
                assert(log[i] == op);
            }
            if op == log.last() {
                assert(log[log.len() - 1] == op);
            }
        }
        if !has_seen(version, log.last()) {
            let now = rest.push(log.last());
            assert(now.contains(op) <==> rest.contains(op) || op == log.last()) by {
                if rest.contains(op) {
                    let i = choose|i: int| 0 <= i < rest.len() && rest[i] == op;
                    assert(now[i] == op);
                }
                if op == log.last() {
                    assert(now[now.len() - 1] == op);
                }
            }
        }
    }
}

/// What is announced to all is, for each actor, the least of what the clients
/// have seen: no client has seen less, and some client has seen no more.
pub proof fn law_floor_is_the_least(clients: Seq<(ActorId, Map<u64, u64>)>, actor: u64)
    requires
        clients.len() > 0,
    ensures
        forall|i: int|
            0 <= i < clients.len() ==> types::seen(floor(clients), actor) <= types::seen(
                (#[trigger] clients[i]).1,
                actor,
            ),
        exists|i: int|
            0 <= i < clients.len() && types::seen(floor(clients), actor) == types::seen(
                (#[trigger] clients[i]).1,
                actor,
            ),
    decreases clients.len(),
{
    if clients.len() > 1 {
        let less = clients.drop_last();
        law_floor_is_the_least(less, actor);
        let k = choose|i: int|
            0 <= i < less.len() && types::seen(floor(less), actor) == types::seen((#[trigger] less[i]).1, actor);
        assert(clients[k] == less[k]);
        assert(clients[clients.len() - 1] == clients.last());
        assert forall|i: int| 0 <= i < clients.len() implies types::seen(floor(clients), actor) <= types::seen(
            (#[trigger] clients[i]).1,
            actor,
        ) by {
            if i < less.len() {
                assert(less[i] == clients[i]);
            }
        }
    } else {
        assert(types::seen(floor(clients), actor) == types::seen(clients[0].1, actor));
    }
}

/// A room collects an item only where it has been deleted and every client has
/// seen the operation that deleted it.
pub proof fn law_room_collects_what_all_have_seen(room: RoomView, id: OpId, i: int)
    requires
        document::consistent(room.doc),
        gc::collected(
            DocumentView { min_version: floor(room.clients), ..room.doc },
            gc::standard().max_gc_per_cycle as nat,
        ).contains(id),
        0 <= i < room.clients.len(),
    ensures
        rga::has_id(room.doc.items, id),
        gc::stable(room.doc.items[rga::position(room.doc.items, id)], room.clients[i].1),
        match room.doc.items[rga::position(room.doc.items, id)].state {
            ItemState::Active => false,
            ItemState::Tombstone { deleted_at } => deleted_at.lamport.0 == 0 || (room.clients[i].1.contains_key(
                deleted_at.actor.0,
            ) && deleted_at.lamport.0 <= room.clients[i].1[deleted_at.actor.0]),
        },
{
    let t = DocumentView { min_version: floor(room.clients), ..room.doc };
    gc::law_only_stable_tombstones_go(t, gc::standard().max_gc_per_cycle as nat, id);
    match room.doc.items[rga::position(room.doc.items, id)].state {
        ItemState::Active => {},
        ItemState::Tombstone { deleted_at } => {
            law_floor_is_the_least(room.clients, deleted_at.actor.0);
            assert(room.clients[i] == room.clients[i]);
        },
    }
}

/// The log grows by exactly what an accepted update brings, and reaches back as
/// far as before, unless tombstones are collected thereupon. Then it is emptied,
/// and from then on reaches back to all that the document has seen.
pub proof fn law_accepted_updates_are_logged(
    room: RoomView,
    actor: ActorId,
    ops: Seq<OperationView>,
    q: spec_fn(usize, usize) -> F64,
)
    requires
        document::consistent(room.doc),
        takes(room, ops),
        room.doc.items.len() + ops.len() + room.held.len() <= usize::MAX,
    ensures
        ({
            let before = logged(room, actor, ops);
            let t = surveyed(before, q);
            if t.doc.items.len() < before.doc.items.len() {
                t.log.len() == 0 && t.base == t.doc.version
            } else {
                t.log == room.log + ops && t.base == room.base
            }
        }),
{
    let before = logged(room, actor, ops);
    lemma_absorbed_consistent(room.doc, room.held, room.capacity, ops);
    lemma_survey_shrinks(before, q);
}

/// Absorbing operations keeps a document consistent, and adds at most as many
/// items as there are operations.
pub proof fn lemma_absorbed_consistent(
    s: DocumentView,
    held: Seq<OperationView>,
    capacity: usize,
    ops: Seq<OperationView>,
)
    requires
        document::consistent(s),
    ensures
        ({
            let (t, h, ok) = causal_buffer::absorbed(s, held, capacity, ops);
            &&& document::consistent(t)
            &&& t.items.len() + h.len() <= s.items.len() + held.len() + ops.len()
        }),
    decreases ops.len(),
{
    if ops.len() > 0 {
        lemma_absorbed_consistent(s, held, capacity, ops.drop_last());
        let (t, h, ok) = causal_buffer::absorbed(s, held, capacity, ops.drop_last());
        if ok && h.len() < capacity {
            let waiting = h.push(ops.last());
            let now = causal_buffer::released(t, waiting);
            lemma_applied_grows(t, now);
            delivery::law_nothing_is_lost(t, waiting);
            broadcast use vstd::seq_lib::group_to_multiset_ensures;

            assert(now.to_multiset().add(causal_buffer::retained(t, waiting).to_multiset()).len()
                == waiting.to_multiset().len());
        }
    }
}

proof fn lemma_applied_grows(s: DocumentView, ops: Seq<OperationView>)
    requires
        document::consistent(s),
    ensures
        document::consistent(document::applied_all(s, ops)),
        document::applied_all(s, ops).items.len() <= s.items.len() + ops.len(),
    decreases ops.len(),
{
    if ops.len() > 0 {
        lemma_applied_grows(s, ops.drop_last());
        let t = document::applied_all(s, ops.drop_last());
        document::lemma_applied_consistent(t, ops.last());
        match ops.last() {
            OperationView::InsertStroke { id, origin_left, origin_right, .. } => {
                rga::lemma_insert_position(t.items, document::fresh_item(id, origin_left, origin_right));
            },
            OperationView::DeleteStroke { id, target } => {
                document::lemma_tombstoned_ids(t.items, target, id);
            },
            _ => {},
        }
    }
}

/// A survey empties the log exactly where it has taken items away.
proof fn lemma_survey_shrinks(room: RoomView, q: spec_fn(usize, usize) -> F64)
    requires
        document::consistent(room.doc),
        room.doc.items.len() <= usize::MAX,
    ensures
        ({
            let t = surveyed(room, q);
            &&& t.doc.items.len() <= room.doc.items.len()
            &&& if t.doc.items.len() < room.doc.items.len() {
                t.log.len() == 0 && t.base == t.doc.version
            } else {
                t.log == room.log && t.base == room.base
            }
            &&& t.clients == room.clients && t.sessions == room.sessions && t.held == room.held && t.capacity
                == room.capacity && t.next_actor == room.next_actor && t.next_token == room.next_token
        }),
{
    let told = DocumentView { min_version: floor(room.clients), ..room.doc };
    let max = gc::standard().max_gc_per_cycle as nat;
    assert(document::consistent(told)) by {
        assert forall|i: int| 0 <= i < told.items.len() implies document::settled(told, #[trigger] told.items[i]) by {
            assert(document::settled(room.doc, room.doc.items[i]));
        }
    }
    gc::lemma_removed(told, max);
}

/// A survey touches nothing of a room but its document and its log, and where
/// nobody is there it touches nothing. The document is told what every client
/// has seen.
pub proof fn law_survey_leaves_the_rest(room: RoomView, q: spec_fn(usize, usize) -> F64)
    requires
        document::consistent(room.doc),
        room.doc.items.len() <= usize::MAX,
    ensures
        ({
            let t = surveyed(room, q);
            &&& t.clients == room.clients && t.sessions == room.sessions && t.held == room.held
            &&& t.capacity == room.capacity && t.next_actor == room.next_actor && t.next_token == room.next_token
            &&& room.clients.len() == 0 ==> t == room
            &&& room.clients.len() > 0 ==> t.doc == gc::confirmed(
                room.doc,
                floor(room.clients),
                gc::standard(),
                q,
            ).0 && t.doc.min_version == floor(room.clients)
            &&& if t.doc.items.len() < room.doc.items.len() {
                t.log.len() == 0 && t.base == t.doc.version
            } else {
                t.log == room.log && t.base == room.base
            }
        }),
{
    lemma_survey_shrinks(room, q);
}

/// Every operation of an accepted update is in the log of the room afterwards,
/// so that whoever comes later gets it. Where tombstones were collected
/// thereupon, the base of the log shows it as seen, or it is still held back.
pub proof fn law_no_operation_is_forgotten(
    room: RoomView,
    actor: ActorId,
    ops: Seq<OperationView>,
    q: spec_fn(usize, usize) -> F64,
    op: OperationView,
)
    requires
        document::consistent(room.doc),
        takes(room, ops),
        room.doc.items.len() + ops.len() + room.held.len() <= usize::MAX,
        ops.contains(op),
    ensures
        ({
            let t = surveyed(logged(room, actor, ops), q);
            ||| t.log.contains(op)
            ||| t.held.contains(op)
            ||| t.base.contains_key(op.id().actor.0) && op.id().lamport.0 <= t.base[op.id().actor.0]
        }),
{
    let before = logged(room, actor, ops);
    let t = surveyed(before, q);
    law_accepted_updates_are_logged(room, actor, ops, q);
    lemma_absorbed_consistent(room.doc, room.held, room.capacity, ops);
    lemma_survey_shrinks(before, q);
    let i = choose|i: int| 0 <= i < ops.len() && ops[i] == op;
    if t.doc.items.len() < before.doc.items.len() {
        delivery::law_absorbing_is_buffered_delivery(room.doc, room.held, room.capacity, ops);
        delivery::law_absorbed_is_applied_or_held(room.doc, room.held, ops, op);
        let run = delivery::run(room.doc, room.held, ops);
        if run.contains(op) {
            delivery::law_applied_operations_are_known(room.doc, run);
            let k = choose|k: int| 0 <= k < run.len() && run[k] == op;
            assert(run[k].id() == op.id());
        }
    } else {
        assert(t.log[room.log.len() + i] == op);
    }
}

/// An update that finds no room in the buffer enters no log and is credited to
/// nobody.
pub proof fn law_refused_updates_are_not_logged(room: RoomView, actor: ActorId, ops: Seq<OperationView>)
    requires
        !takes(room, ops),
    ensures
        logged(room, actor, ops).log == room.log,
        logged(room, actor, ops).base == room.base,
        logged(room, actor, ops).clients == room.clients,
{
}

/// Who has sent operations has seen them, and has seen no less than before; of
/// other actors it is not credited with anything.
pub proof fn law_senders_have_seen_what_they_sent(version: Map<u64, u64>, ops: Seq<OperationView>, a: u64)
    ensures
        ({
            let now = caught_up(version, ops);
            &&& forall|i: int|
                0 <= i < ops.len() ==> {
                    let id = (#[trigger] ops[i]).id();
                    now.contains_key(id.actor.0) && id.lamport.0 <= now[id.actor.0]
                }
            &&& version.contains_key(a) ==> now.contains_key(a) && version[a] <= now[a]
            &&& now.contains_key(a) ==> (version.contains_key(a) && now[a] == version[a]) || exists|i: int|
                0 <= i < ops.len() && (#[trigger] ops[i]).id().actor.0 == a && ops[i].id().lamport.0 == now[a]
        }),
    decreases ops.len(),
{
    if ops.len() > 0 {
        let less = ops.drop_last();
        law_senders_have_seen_what_they_sent(version, less, a);
        let was = caught_up(version, less);
        let now = caught_up(version, ops);
        assert(ops[ops.len() - 1] == ops.last());
        assert forall|i: int| 0 <= i < ops.len() implies {
            let id = (#[trigger] ops[i]).id();
            now.contains_key(id.actor.0) && id.lamport.0 <= now[id.actor.0]
        } by {
            if i < less.len() {
                assert(less[i] == ops[i]);
            }
        }
        if now.contains_key(a) && was.contains_key(a) && now[a] == was[a] && !(version.contains_key(a) && now[a]
            == version[a]) {
            let i = choose|i: int|
                0 <= i < less.len() && (#[trigger] less[i]).id().actor.0 == a && less[i].id().lamport.0 == was[a];
            assert(ops[i].id().actor.0 == a);
        }
    }
}

/// The sender of an accepted update is credited with it, and nobody else with
/// anything.
pub proof fn law_only_the_sender_is_credited(room: RoomView, actor: ActorId, ops: Seq<OperationView>, i: int)
    requires
        takes(room, ops),
        one_each(room.clients),
        0 <= i < room.clients.len(),
    ensures
        ({
            let now = logged(room, actor, ops).clients;
            &&& now.len() == room.clients.len()
            &&& now[i].0 == room.clients[i].0
            &&& room.clients[i].0 == actor ==> now[i].1 == caught_up(room.clients[i].1, ops)
            &&& room.clients[i].0 != actor ==> now[i].1 == room.clients[i].1
        }),
{
    if connected(room.clients, actor) {
        let k = place(room.clients, actor);
        assert(room.clients[k].0 == actor);
    }
    if room.clients[i].0 == actor {
        assert(connected(room.clients, actor));
    }
}

/// A client that reports what it has seen is taken at its word, and nothing is
/// changed for the others.
pub proof fn law_reports_are_taken_over(
    clients: Seq<(ActorId, Map<u64, u64>)>,
    actor: ActorId,
    version: Map<u64, u64>,
    i: int,
)
    requires
        one_each(clients),
        0 <= i < clients.len(),
    ensures
        reported(clients, actor, version).len() == clients.len(),
        reported(clients, actor, version)[i].0 == clients[i].0,
        reported(clients, actor, version)[i].1 == (if clients[i].0 == actor {
            version
        } else {
            clients[i].1
        }),
{
    if connected(clients, actor) {
        let k = place(clients, actor);
        assert(clients[k].0 == actor);
    }
    if clients[i].0 == actor {
        assert(connected(clients, actor));
    }
}

/// Who joins is connected with the version given, once; whoever was connected
/// still is, with the version known before.
pub proof fn law_joining_adds_one_client(
    clients: Seq<(ActorId, Map<u64, u64>)>,
    actor: ActorId,
    version: Map<u64, u64>,
    i: int,
)
    requires
        one_each(clients),
    ensures
        ({
            let now = with_client(clients, actor, version);
            &&& one_each(now)
            &&& exists|k: int| 0 <= k < now.len() && #[trigger] now[k] == (actor, version)
            &&& 0 <= i < clients.len() && clients[i].0 != actor ==> now[i] == clients[i]
            &&& clients.len() <= now.len() <= clients.len() + 1
            &&& now.len() == clients.len() <==> exists|k: int| 0 <= k < clients.len() && (#[trigger] clients[k]).0
                == actor
        }),
{
    let now = with_client(clients, actor, version);
    if connected(clients, actor) {
        let k = place(clients, actor);
        assert(clients[k].0 == actor);
        assert(now[k] == (actor, version));
        lemma_update_one_each(clients, k, version);
    } else {
        assert(now[clients.len() as int] == (actor, version));
        assert forall|a: int, b: int|
            0 <= a < now.len() && 0 <= b < now.len() && (#[trigger] now[a]).0 == (#[trigger] now[b]).0 implies a == b by {
            if a < clients.len() && b < clients.len() {
                assert(clients[a].0 == clients[b].0);
            } else if a < clients.len() {
                assert(clients[a].0 == actor);
            } else if b < clients.len() {
                assert(clients[b].0 == actor);
            }
        }
    }
}

/// Who leaves is no longer connected; all others are, as before.
pub proof fn law_leaving_takes_one_client(clients: Seq<(ActorId, Map<u64, u64>)>, actor: ActorId, other: (
    ActorId,
    Map<u64, u64>,
))
    requires
        one_each(clients),
    ensures
        ({
            let now = without_client(clients, actor);
            (exists|k: int| 0 <= k < now.len() && #[trigger] now[k] == other) <==> other.0 != actor && exists|i: int|
                0 <= i < clients.len() && #[trigger] clients[i] == other
        }),
{
    let now = without_client(clients, actor);
    if connected(clients, actor) {
        let at = place(clients, actor);
        assert(clients[at].0 == actor);
        if exists|k: int| 0 <= k < now.len() && #[trigger] now[k] == other {
            let k = choose|k: int| 0 <= k < now.len() && #[trigger] now[k] == other;
            let i = if k < at { k } else { k + 1 };
            assert(clients[i] == other);
            if other.0 == actor {
                assert(clients[i].0 == clients[at].0);
            }
        }
        if other.0 != actor && exists|i: int| 0 <= i < clients.len() && #[trigger] clients[i] == other {
            let i = choose|i: int| 0 <= i < clients.len() && #[trigger] clients[i] == other;
            let k = if i < at { i } else { i - 1 };
            assert(now[k] == other);
        }
    } else {
        if exists|i: int| 0 <= i < clients.len() && #[trigger] clients[i] == other {
            let i = choose|i: int| 0 <= i < clients.len() && #[trigger] clients[i] == other;
            assert(clients[i].0 == other.0);
        }
    }
}

/// Every client, and nobody else, is sent one announcement, which decodes to
/// what every client has seen.
pub proof fn law_announcements_tell_the_floor(clients: Seq<(ActorId, Map<u64, u64>)>, i: int)
    requires
        0 <= i < clients.len(),
        floor(clients).dom().finite(),
        types::entries(floor(clients)).len() <= document::MAX_ACTORS,
    ensures
        announced(clients).len() == clients.len(),
        announced(clients)[i].0 == clients[i].0,
        ({
            let message = protocol::parse_message(announced(clients)[i].1);
            message is Ok && message->Ok_0 is Mvv && encoding::parse_state_vector(message->Ok_0->Mvv_bytes) == floor(
                clients,
            )
        }),
{
    let bytes = encoding::state_vector(floor(clients));
    round_trip::lemma_state_vector_short(floor(clients));
    round_trip::law_state_vector_round_trip(floor(clients));
    protocol::law_message_round_trip(MessageView::Mvv { bytes });
}

/// No two sessions share a token: the actor and the number can be read off it.
pub proof fn law_tokens_are_told_apart(a: u64, m: u64, b: u64, n: u64)
    requires
        token_of(a, m) == token_of(b, n),
    ensures
        a == b,
        m == n,
{
    reveal_strlit("r");
    reveal_strlit("-s");
    let x = text::decimal(a as nat);
    let y = text::decimal(b as nat);
    let s = token_of(a, m);
    let t = token_of(b, n);
    assert(s[1 + x.len() as int] == '-' && t[1 + y.len() as int] == '-');
    if x.len() < y.len() {
        text::lemma_only_digits(b as nat, x.len() as int);
        assert(t[1 + x.len() as int] == y[x.len() as int]);
    } else if y.len() < x.len() {
        text::lemma_only_digits(a as nat, y.len() as int);
        assert(s[1 + y.len() as int] == x[y.len() as int]);
    }
    let k = x.len() as int;
    assert(x =~= s.subrange(1, 1 + k));
    assert(y =~= t.subrange(1, 1 + k));
    text::law_numbers_are_told_apart(a as nat, b as nat);
    assert(text::decimal(m as nat) =~= s.skip(3 + k));
    assert(text::decimal(n as nat) =~= t.skip(3 + k));
    text::law_numbers_are_told_apart(m as nat, n as nat);
}

/// A request without a token that lets somebody in again gets the next actor in
/// line, and a token that the next such request will not get. The session is
/// stored under that token, and nothing else of the room changes.
pub proof fn law_new_sessions_are_new(room: RoomView, requested: Seq<char>, again: Seq<char>)
    requires
        room.next_actor < u64::MAX - 1,
        room.next_token < u64::MAX - 1,
        !(room.sessions.contains_key(requested) && requested.len() > 0 && !connected(
            room.clients,
            room.sessions[requested],
        )),
    ensures
        ({
            let (after, actor, token) = resolved(room, requested);
            &&& actor.0 == room.next_actor && after.next_actor == actor.0 + 1
            &&& after.next_token == room.next_token + 1
            &&& token == "r"@ + text::decimal(room.next_actor as nat) + "-s"@ + text::decimal(room.next_token as nat)
            &&& token.len() > 0
            &&& after.sessions == room.sessions.insert(token, actor)
            &&& after == (RoomView {
                sessions: after.sessions,
                next_actor: after.next_actor,
                next_token: after.next_token,
                ..room
            })
            &&& ({
                let (_, other, next) = resolved(after, again);
                !(after.sessions.contains_key(again) && again.len() > 0 && !connected(
                    after.clients,
                    after.sessions[again],
                )) ==> other != actor && next != token
            })
        }),
{
    reveal_strlit("r");
    let (after, actor, token) = resolved(room, requested);
    let next = token_of(after.next_actor, after.next_token);
    assert(token[0] == 'r');
    if next == token {
        law_tokens_are_told_apart(after.next_actor, after.next_token, room.next_actor, room.next_token);
    }
}

/// What a client is caught up with goes by the log: of each operation, in its
/// turn, it gets that operation where it has seen less of the operation's actor
/// than the operation's time, and nothing where it has seen as much.
pub proof fn law_catching_up_goes_by_the_log(
    a: Seq<OperationView>,
    b: Seq<OperationView>,
    op: OperationView,
    version: Map<u64, u64>,
)
    ensures
        missing(seq![], version) == Seq::<OperationView>::empty(),
        types::seen(version, op.id().actor.0) < op.id().lamport.0 ==> missing(seq![op], version) == seq![op],
        types::seen(version, op.id().actor.0) >= op.id().lamport.0 ==> missing(seq![op], version) == Seq::<
            OperationView,
        >::empty(),
        missing(a + b, version) == missing(a, version) + missing(b, version),
    decreases b.len(),
{
    assert(seq![op].drop_last() =~= Seq::<OperationView>::empty());
    assert(missing(seq![op].drop_last(), version) =~= Seq::<OperationView>::empty());
    assert(seq![op].last() == op);
    if types::seen(version, op.id().actor.0) < op.id().lamport.0 {
        assert(missing(seq![op], version) =~= seq![op]);
    }
    if b.len() == 0 {
        assert(a + b =~= a);
        assert(missing(a + b, version) =~= missing(a, version) + missing(b, version));
    } else {
        law_catching_up_goes_by_the_log(a, b.drop_last(), op, version);
        assert((a + b).drop_last() =~= a + b.drop_last());
        assert((a + b).last() == b.last());
        assert(missing(a + b, version) =~= missing(a, version) + missing(b, version));
    }
}

/// A client that has seen all that the log presupposes is caught up with the
/// operations that it misses. Any other client gets the whole document.
pub proof fn law_who_is_too_far_behind_gets_the_document(room: RoomView, image: Seq<u8>, version: Map<u64, u64>)
    ensures
        (forall|a: u64| #[trigger] types::seen(version, a) >= types::seen(room.base, a)) ==> catch_up(
            room,
            image,
            version,
        ) == (MessageView::Update { bytes: encoding::update_blob(missing(room.log, version)) }),
        (exists|a: u64| #[trigger] types::seen(version, a) < types::seen(room.base, a)) ==> catch_up(
            room,
            image,
            version,
        ) == (MessageView::Snapshot { bytes: image }),
{
}

/// A new room is empty: nobody is in it, nothing is logged or held back, up to
/// ten thousand operations can be held back, and actors and sessions are
/// numbered from one.
pub proof fn law_new_rooms_are_empty()
    ensures
        vacant().doc == document::blank(ActorId(0)),
        vacant().held.len() == 0 && vacant().capacity == 10_000,
        vacant().log.len() == 0 && vacant().base == Map::<u64, u64>::empty(),
        vacant().clients.len() == 0 && vacant().sessions.dom().len() == 0,
        vacant().next_actor == 1 && vacant().next_token == 1,
{
}

} // verus!
