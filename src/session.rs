//! One connection's life: its states, what each event does to the registry,
//! the fan-out of messages to a room, and teardown.
use vstd::prelude::*;
use crate::ids::{Channel, ClientId, Message, Room};
use crate::protocol::{relay_text, relay_text_of, ClientOperation, ServerOperation};
use crate::registry::{
    deregistration, joining, lemma_members_are_live, leaving, registration, Registry, RegistryError,
};

verus! {

/// Where a connection stands.
#[derive(Debug, Clone, Copy, PartialEq, Eq, Structural)]
pub enum SessionState {
    /// Accepted, not yet registered.
    Connecting,
    /// Registered; its frames are being read.
    Active,
    /// Torn down, or refused at registration. Terminal.
    Closed,
}

/// What the connection's reader produced.
pub enum SessionEvent {
    /// A frame that decoded to an operation.
    Frame(ClientOperation),
    /// A frame that did not decode, or was too long.
    Malformed,
    /// The stream ended, failed, or stayed idle too long.
    ReadEnded,
}

/// A message to hand to the outbound queues of `recipients`.
pub struct Delivery {
    pub recipients: Vec<ClientId>,
    pub text: String,
}

/// What the caller does after an event.
pub enum SessionAction {
    /// Nothing more.
    Nothing,
    /// Sends this operation to the connection's own client.
    Reply(ServerOperation),
    /// Enqueues a message for other clients.
    Deliver(Delivery),
    /// Releases the connection; its session is already torn down.
    Close,
}

/// How an attempt to enqueue a frame on a recipient's outbound queue went.
#[derive(Debug, Clone, Copy, PartialEq, Eq, Structural)]
pub enum Enqueue {
    /// The frame was queued.
    Sent,
    /// The queue was at capacity: the recipient is too slow.
    Full,
    /// The queue's reader is gone.
    Gone,
}

/// A connection's session: its identifier and state.
pub struct Session {
    id: ClientId,
    state: SessionState,
}

/// The recipients of a message from `sender` to the room named `room`: each
/// live member of the room other than the sender, once.
pub open spec fn routed<H>(
    reg: Registry<H>,
    sender: ClientId,
    room: Seq<char>,
    recipients: Seq<ClientId>,
) -> bool {
    &&& recipients.no_duplicates()
    &&& forall|c: ClientId|
        #[trigger] recipients.contains(c) == (reg.is_member(room, c) && reg.is_live(c) && c != sender)
}

/// Resolves a message to its recipients and the text they are sent.
///
/// The channel travels with the message as an address label: clients
/// subscribe to rooms, not to channels, so every other member of the room
/// receives it whatever its channel.
#[allow(unused_variables)]
pub fn route<H>(
    registry: &Registry<H>,
    sender: ClientId,
    room: &Room,
    channel: &Channel,
    message: &Message,
) -> (r: Delivery)
    requires
        registry.wf(),
    ensures
        routed(*registry, sender, room@, r.recipients@),
        r.text@ == relay_text_of(message@),
{
    let members = registry.members_of(room);
    let mut recipients: Vec<ClientId> = Vec::new();
    let mut j: usize = 0;
    while j < members.len()
        invariant
            j <= members@.len(),
            members@.no_duplicates(),
            recipients@.no_duplicates(),
            forall|c: ClientId|
                #[trigger] recipients@.contains(c) == (members@.subrange(0, j as int).contains(c)
                    && registry.is_live(c) && c != sender),
        decreases members@.len() - j,
    {
        let m = members[j];
        let ghost before = recipients@;
        if m != sender && registry.lookup(m).is_some() {
            recipients.push(m);
            proof {
                assert(!before.contains(m)) by {
                    if before.contains(m) {
                        let k = choose|k: int| 0 <= k < j && members@[k] == m;
                        assert(members@[j as int] == m);
                    }
                }
                assert forall|a: int, b: int|
                    0 <= a < recipients@.len() && 0 <= b < recipients@.len() && a != b
                    implies recipients@[a] != recipients@[b] by {
                    if a == before.len() as int {
                        assert(before.contains(recipients@[b]));
                    } else if b == before.len() as int {
                        assert(before.contains(recipients@[a]));
                    } else {
                        assert(recipients@[a] == before[a] && recipients@[b] == before[b]);
                    }
                }
            }
        }
        proof {
            assert forall|c: ClientId|
                #[trigger] recipients@.contains(c) == (members@.subrange(0, j + 1).contains(c)
                    && registry.is_live(c) && c != sender) by {
                let sub = members@.subrange(0, j + 1);
                if sub.contains(c) {
                    let k = choose|k: int| 0 <= k < sub.len() && sub[k] == c;
                    if k < j {
                        assert(members@.subrange(0, j as int)[k] == c);
                    }
                }
                if members@.subrange(0, j as int).contains(c) {
                    let k = choose|k: int| 0 <= k < j && members@.subrange(0, j as int)[k] == c;
                    assert(sub[k] == c);
                }
                if c == m {
                    assert(sub[j as int] == c);
                }
                if recipients@.contains(c) && !before.contains(c) {
                    let k = choose|k: int| 0 <= k < recipients@.len() && recipients@[k] == c;
                    if k < before.len() {
                        assert(before[k] == c);
                    }
                }
                if before.contains(c) {
                    let k = choose|k: int| 0 <= k < before.len() && before[k] == c;
                    assert(recipients@[k] == c);
                }
                if c == m && m != sender && registry.is_live(m) {
                    assert(recipients@[before.len() as int] == m);
                }
            }
        }
        j = j + 1;
    }
    proof {
        assert(members@.subrange(0, members@.len() as int) =~= members@);
    }
    Delivery { recipients, text: relay_text(message) }
}

/// Tears the session `id` down: it leaves the session map and every room in
/// one step. Returns whether this call did it; once it has, later calls change
/// nothing and return `false`, so whoever gets `true` releases the connection.
pub fn teardown<H>(registry: &mut Registry<H>, id: ClientId) -> (r: bool)
    requires
        old(registry).wf(),
    ensures
        final(registry).wf(),
        r == old(registry).is_live(id),
        deregistration(*old(registry), *final(registry), id),
{
    registry.deregister(id)
}

/// Scoped delivery: a message from `sender` to the room named `room` reaches
/// every other member of that room, and no client outside it.
pub proof fn lemma_delivery_scoped<H>(
    reg: Registry<H>,
    sender: ClientId,
    room: Seq<char>,
    recipients: Seq<ClientId>,
)
    requires
        reg.wf(),
        routed(reg, sender, room, recipients),
    ensures
        forall|c: ClientId| #[trigger] recipients.contains(c) <==> (reg.is_member(room, c) && c != sender),
{
    assert forall|c: ClientId| #[trigger] recipients.contains(c) <==> (reg.is_member(room, c) && c != sender) by {
        if reg.is_member(room, c) {
            lemma_members_are_live(reg, room, c);
        }
    }
}

/// Whether the enqueue for some position of `recipients` holding `c` failed.
pub open spec fn enqueue_failed(recipients: Seq<ClientId>, outcomes: Seq<Enqueue>, c: ClientId) -> bool {
    exists|k: int|
        #![trigger recipients[k]]
        0 <= k < recipients.len() && recipients[k] == c && outcomes[k] != Enqueue::Sent
}

/// Applies the overflow policy after a fan-out: every recipient whose queue
/// was full, or whose queue's reader is gone, is torn down rather than left
/// to hold the others back. `outcomes[k]` is how the enqueue for
/// `recipients[k]` went. Returns the recipients that this call tore down,
/// whose connections the caller releases.
pub fn settle_fanout<H>(
    registry: &mut Registry<H>,
    recipients: &Vec<ClientId>,
    outcomes: &Vec<Enqueue>,
) -> (r: Vec<ClientId>)
    requires
        old(registry).wf(),
        recipients@.len() == outcomes@.len(),
    ensures
        final(registry).wf(),
        r@.no_duplicates(),
        forall|c: ClientId|
            #[trigger] final(registry).is_live(c) == (old(registry).is_live(c) && !enqueue_failed(
                recipients@,
                outcomes@,
                c,
            )),
        forall|c: ClientId|
            #[trigger] final(registry).sessions().contains_key(c.0) ==> final(registry).sessions()[c.0]
                == old(registry).sessions()[c.0],
        forall|room: Seq<char>, c: ClientId|
            #[trigger] final(registry).is_member(room, c) == (old(registry).is_member(room, c)
                && !enqueue_failed(recipients@, outcomes@, c)),
        forall|c: ClientId|
            #[trigger] r@.contains(c) == (old(registry).is_live(c) && enqueue_failed(
                recipients@,
                outcomes@,
                c,
            )),
{
    let ghost pre = *registry;
    let mut closed: Vec<ClientId> = Vec::new();
    let mut k: usize = 0;
    while k < recipients.len()
        invariant
            k <= recipients@.len(),
            recipients@.len() == outcomes@.len(),
            registry.wf(),
            pre.wf(),
            closed@.no_duplicates(),
            forall|c: ClientId|
                #[trigger] registry.is_live(c) == (pre.is_live(c) && !enqueue_failed(
                    recipients@.subrange(0, k as int),
                    outcomes@,
                    c,
                )),
            forall|c: ClientId|
                #[trigger] registry.sessions().contains_key(c.0) ==> registry.sessions()[c.0]
                    == pre.sessions()[c.0],
            forall|room: Seq<char>, c: ClientId|
                #[trigger] registry.is_member(room, c) == (pre.is_member(room, c) && !enqueue_failed(
                    recipients@.subrange(0, k as int),
                    outcomes@,
                    c,
                )),
            forall|c: ClientId|
                #[trigger] closed@.contains(c) == (pre.is_live(c) && enqueue_failed(
                    recipients@.subrange(0, k as int),
                    outcomes@,
                    c,
                )),
        decreases recipients@.len() - k,
    {
        let c = recipients[k];
        let ghost mid = *registry;
        let ghost before = closed@;
        let ghost sub = recipients@.subrange(0, k as int);
        let ghost next = recipients@.subrange(0, k + 1);
        proof {
            assert forall|x: ClientId|
                #[trigger] enqueue_failed(next, outcomes@, x) == (enqueue_failed(sub, outcomes@, x)
                    || (x == c && outcomes@[k as int] != Enqueue::Sent)) by {
                if enqueue_failed(next, outcomes@, x) {
                    let i = choose|i: int|
                        #![trigger next[i]]
                        0 <= i < next.len() && next[i] == x && outcomes@[i] != Enqueue::Sent;
                    if i < k {
                        assert(sub[i] == x);
                    }
                }
                if enqueue_failed(sub, outcomes@, x) {
                    let i = choose|i: int|
                        #![trigger sub[i]]
                        0 <= i < sub.len() && sub[i] == x && outcomes@[i] != Enqueue::Sent;
                    assert(next[i] == x);
                }
                if x == c && outcomes@[k as int] != Enqueue::Sent {
                    assert(next[k as int] == x);
                }
            }
        }
        if outcomes[k] != Enqueue::Sent {
            if teardown(registry, c) {
                closed.push(c);
                proof {
                    assert forall|x: ClientId| #[trigger] closed@.contains(x) == (before.contains(x) || x == c) by {
                        if closed@.contains(x) && x != c {
                            let i = choose|i: int| 0 <= i < closed@.len() && closed@[i] == x;
                            assert(before[i] == x);
                        }
                        if before.contains(x) {
                            let i = choose|i: int| 0 <= i < before.len() && before[i] == x;
                            assert(closed@[i] == x);
                        }
                        if x == c {
                            assert(closed@[before.len() as int] == x);
                        }
                    }
                    assert(!before.contains(c));
                    assert forall|a: int, b: int|
                        0 <= a < closed@.len() && 0 <= b < closed@.len() && a != b
                        implies closed@[a] != closed@[b] by {
                        if a == before.len() as int {
                            assert(before.contains(closed@[b]));
                        } else if b == before.len() as int {
                            assert(before.contains(closed@[a]));
                        } else {
                            assert(closed@[a] == before[a] && closed@[b] == before[b]);
                        }
                    }
                }
            }
            proof {
                assert forall|x: ClientId|
                    #[trigger] registry.sessions().contains_key(x.0) implies registry.sessions()[x.0]
                        == pre.sessions()[x.0] by {
                    assert(mid.sessions().contains_key(x.0));
                }
                assert forall|x: ClientId| #[trigger] registry.is_live(x) == (mid.is_live(x) && x != c) by {
                    if x.0 == c.0 {
                        assert(x == c);
                    }
                }
            }
        }
        k = k + 1;
    }
    proof {
        assert(recipients@.subrange(0, recipients@.len() as int) =~= recipients@);
    }
    closed
}

impl Session {
    /// The identifier this session was created with.
    pub closed spec fn spec_id(&self) -> ClientId {
        self.id
    }

    /// The state this session is in.
    pub closed spec fn spec_state(&self) -> SessionState {
        self.state
    }

    /// A session for a connection just accepted, under identifier `id`.
    pub fn new(id: ClientId) -> (r: Session)
        ensures
            r.spec_id() == id,
            r.spec_state() == SessionState::Connecting,
    {
        Session { id, state: SessionState::Connecting }
    }

    /// The session's identifier.
    pub fn id(&self) -> (r: ClientId)
        ensures
            r == self.spec_id(),
    {
        self.id
    }

    /// The session's state.
    pub fn state(&self) -> (r: SessionState)
        ensures
            r == self.spec_state(),
    {
        self.state
    }

    /// Registers the session with the handle of its outbound queue. On success
    /// it becomes active; a refused registration closes it.
    pub fn open<H>(&mut self, registry: &mut Registry<H>, tx: H) -> (r: Result<(), RegistryError>)
        requires
            old(registry).wf(),
            old(self).spec_state() == SessionState::Connecting,
        ensures
            final(registry).wf(),
            registration(*old(registry), *final(registry), old(self).spec_id(), tx, r),
            final(self).spec_id() == old(self).spec_id(),
            final(self).spec_state() == if r is Ok {
                SessionState::Active
            } else {
                SessionState::Closed
            },
    {
        let r = registry.register(self.id, tx);
        if r.is_ok() {
            self.state = SessionState::Active;
        } else {
            self.state = SessionState::Closed;
        }
        r
    }

    /// Carries out one event of an active session, in arrival order.
    ///
    /// A join or a leave changes the room's membership; a message is resolved
    /// to its recipients; a connect attempt is answered with the session's
    /// identifier. A disconnect, a malformed frame or the end of the stream
    /// tears the session down and closes it. A session that is not active, or
    /// that was torn down elsewhere, closes without touching the registry.
    pub fn handle<H>(&mut self, registry: &mut Registry<H>, event: SessionEvent) -> (r: SessionAction)
        requires
            old(registry).wf(),
        ensures
            final(registry).wf(),
            final(self).spec_id() == old(self).spec_id(),
            !(old(self).spec_state() == SessionState::Active && old(registry).is_live(
                old(self).spec_id(),
            )) ==> {
                &&& *final(registry) == *old(registry)
                &&& final(self).spec_state() == SessionState::Closed
                &&& r is Close
            },
            old(self).spec_state() == SessionState::Active && old(registry).is_live(old(self).spec_id())
                ==> match event {
                SessionEvent::Frame(ClientOperation::ConnectAttempt) => {
                    &&& *final(registry) == *old(registry)
                    &&& final(self).spec_state() == SessionState::Active
                    &&& r matches SessionAction::Reply(ServerOperation::ClientConnectApproved(c))
                        && c == old(self).spec_id()
                },
                SessionEvent::Frame(ClientOperation::RoomJoin(room)) => {
                    &&& joining(*old(registry), *final(registry), old(self).spec_id(), room@)
                    &&& final(self).spec_state() == SessionState::Active
                    &&& r is Nothing
                },
                SessionEvent::Frame(ClientOperation::RoomLeave(room)) => {
                    &&& leaving(*old(registry), *final(registry), old(self).spec_id(), room@)
                    &&& final(self).spec_state() == SessionState::Active
                    &&& r is Nothing
                },
                SessionEvent::Frame(ClientOperation::Message { room, channel, message }) => {
                    &&& *final(registry) == *old(registry)
                    &&& final(self).spec_state() == SessionState::Active
                    &&& r matches SessionAction::Deliver(d) && routed(
                        *old(registry),
                        old(self).spec_id(),
                        room@,
                        d.recipients@,
                    ) && d.text@ == relay_text_of(message@)
                },
                _ => {
                    &&& deregistration(*old(registry), *final(registry), old(self).spec_id())
                    &&& final(self).spec_state() == SessionState::Closed
                    &&& r is Close
                },
            },
    {
        if self.state != SessionState::Active || registry.lookup(self.id).is_none() {
            self.state = SessionState::Closed;
            return SessionAction::Close;
        }
        match event {
            SessionEvent::Frame(op) => match op {
                ClientOperation::ConnectAttempt => {
                    SessionAction::Reply(ServerOperation::ClientConnectApproved(self.id))
                },
                ClientOperation::RoomJoin(room) => {
                    registry.join_room(self.id, &room);
                    SessionAction::Nothing
                },
                ClientOperation::RoomLeave(room) => {
                    registry.leave_room(self.id, &room);
                    SessionAction::Nothing
                },
                ClientOperation::Message { room, channel, message } => {
                    SessionAction::Deliver(route(registry, self.id, &room, &channel, &message))
                },
                ClientOperation::Disconnect => {
                    teardown(registry, self.id);
                    self.state = SessionState::Closed;
                    SessionAction::Close
                },
            },
            _ => {
                teardown(registry, self.id);
                self.state = SessionState::Closed;
                SessionAction::Close
            },
        }
    }
}

} // verus!
