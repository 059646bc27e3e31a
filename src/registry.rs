//! The shared directory of live sessions and room memberships.
use vstd::prelude::*;
use vstd::hash_map::HashMapWithView;
use crate::ids::{ClientId, Room};

verus! {

broadcast use vstd::std_specs::hash::group_hash_axioms;

/// A live session as the registry holds it: the client's identifier and the
/// handle through which frames reach its outbound queue.
#[allow(non_snake_case)]
pub struct Client<H> {
    pub tx: H,
    pub clientId: ClientId,
}

impl<H> Client<H> {
    #[allow(non_snake_case)]
    pub fn new(clientId: ClientId, tx: H) -> (r: Client<H>)
        ensures
            r.clientId == clientId,
            r.tx == tx,
    {
        Client { tx, clientId }
    }
}

/// Why a registration was refused.
#[derive(Debug, Clone, Copy, PartialEq, Eq, Structural)]
pub enum RegistryError {
    /// A live session already holds the identifier.
    DuplicateClient,
}

/// One room and the clients joined to it.
pub struct RoomMembers {
    pub room: Room,
    pub members: Vec<ClientId>,
}

/// The directory of live sessions (by identifier) and of room memberships.
///
/// Every member of a room is a live session: joining needs a live session,
/// and deregistering a session takes it out of every room.
#[verifier::reject_recursive_types(H)]
pub struct Registry<H> {
    clients: HashMapWithView<u128, Client<H>>,
    rooms: Vec<RoomMembers>,
}

/// Whether `rooms` has an entry named `room` that lists `c`.
pub open spec fn listed(rooms: Seq<RoomMembers>, room: Seq<char>, c: ClientId) -> bool {
    exists|i: int|
        #![trigger rooms[i]]
        0 <= i < rooms.len() && rooms[i].room@ == room && rooms[i].members@.contains(c)
}

/// Whether `a` and `b` hold the same sessions, with the same handles, and
/// the same room memberships.
pub open spec fn same_state<H>(a: Registry<H>, b: Registry<H>) -> bool {
    &&& a.sessions() == b.sessions()
    &&& forall|room: Seq<char>, c: ClientId| #[trigger] a.is_member(room, c) == b.is_member(room, c)
}

/// What registering `c` with handle `tx` does: it is refused with
/// `DuplicateClient`, changing nothing, exactly when `c` is live already;
/// otherwise `c` is filed with `tx`. Memberships do not change.
pub open spec fn registration<H>(
    pre: Registry<H>,
    post: Registry<H>,
    c: ClientId,
    tx: H,
    r: Result<(), RegistryError>,
) -> bool {
    &&& (r is Err <==> pre.is_live(c))
    &&& r is Err ==> r == Err::<(), RegistryError>(RegistryError::DuplicateClient)
    &&& r is Err ==> post.sessions() == pre.sessions()
    &&& r is Ok ==> post.sessions() == pre.sessions().insert(c.0, tx)
    &&& forall|room: Seq<char>, x: ClientId| #[trigger] post.is_member(room, x) == pre.is_member(room, x)
}

/// What joining `c` to the room named `room` does: `c` becomes a member if it
/// is live; sessions do not change.
pub open spec fn joining<H>(pre: Registry<H>, post: Registry<H>, c: ClientId, room: Seq<char>) -> bool {
    &&& post.sessions() == pre.sessions()
    &&& forall|r: Seq<char>, x: ClientId|
        #[trigger] post.is_member(r, x) == (pre.is_member(r, x) || (pre.is_live(c) && r == room
            && x == c))
}

/// What taking `c` out of the room named `room` does; sessions do not change.
pub open spec fn leaving<H>(pre: Registry<H>, post: Registry<H>, c: ClientId, room: Seq<char>) -> bool {
    &&& post.sessions() == pre.sessions()
    &&& forall|r: Seq<char>, x: ClientId|
        #[trigger] post.is_member(r, x) == (pre.is_member(r, x) && !(r == room && x == c))
}

/// What deregistering `c` does: its session goes, and it leaves every room.
pub open spec fn deregistration<H>(pre: Registry<H>, post: Registry<H>, c: ClientId) -> bool {
    &&& post.sessions() == pre.sessions().remove(c.0)
    &&& forall|room: Seq<char>, x: ClientId|
        #[trigger] post.is_member(room, x) == (pre.is_member(room, x) && x != c)
}

/// Membership soundness: in a well-formed registry every member of every room
/// is a live session. Every operation keeps the registry well-formed.
pub proof fn lemma_members_are_live<H>(reg: Registry<H>, room: Seq<char>, c: ClientId)
    requires
        reg.wf(),
        reg.is_member(room, c),
    ensures
        reg.is_live(c),
{
    let k = choose|k: int|
        #![trigger reg.rooms@[k]]
        0 <= k < reg.rooms@.len() && reg.rooms@[k].room@ == room && reg.rooms@[k].members@.contains(c);
    assert(reg.clients@.contains_key(c.0));
}

/// Uniqueness: registering an identifier that a live session holds is
/// refused and changes nothing, so no two live sessions share an identifier.
pub proof fn lemma_no_second_session<H>(
    pre: Registry<H>,
    post: Registry<H>,
    c: ClientId,
    tx: H,
    r: Result<(), RegistryError>,
)
    requires
        pre.is_live(c),
        registration(pre, post, c, tx, r),
    ensures
        r == Err::<(), RegistryError>(RegistryError::DuplicateClient),
        same_state(pre, post),
        post.is_live(c),
{
}

/// Leak-freedom: once `c` is deregistered it is absent from the session map
/// and a member of no room.
pub proof fn lemma_deregistered_leaves_nothing<H>(pre: Registry<H>, post: Registry<H>, c: ClientId)
    requires
        deregistration(pre, post, c),
    ensures
        !post.is_live(c),
        forall|room: Seq<char>| !(#[trigger] post.is_member(room, c)),
{
    assert forall|room: Seq<char>| !(#[trigger] post.is_member(room, c)) by {
        assert(post.is_member(room, c) == (pre.is_member(room, c) && c != c));
    }
}

/// Deregistering twice leaves the same sessions and memberships as
/// deregistering once, and the second time finds no live session to remove.
pub proof fn lemma_deregistration_idempotent<H>(
    pre: Registry<H>,
    once: Registry<H>,
    twice: Registry<H>,
    c: ClientId,
)
    requires
        deregistration(pre, once, c),
        deregistration(once, twice, c),
    ensures
        same_state(once, twice),
        !once.is_live(c),
{
    assert(twice.sessions() =~= once.sessions());
}

/// Whether no two entries of `rooms` share a name.
pub open spec fn names_distinct(rooms: Seq<RoomMembers>) -> bool {
    forall|i: int, j: int|
        0 <= i < rooms.len() && 0 <= j < rooms.len() && i != j
            ==> #[trigger] rooms[i].room@ != #[trigger] rooms[j].room@
}

proof fn lemma_listed_at(rooms: Seq<RoomMembers>, i: int, c: ClientId)
    requires
        names_distinct(rooms),
        0 <= i < rooms.len(),
    ensures
        listed(rooms, rooms[i].room@, c) == rooms[i].members@.contains(c),
{
    if listed(rooms, rooms[i].room@, c) {
        let k = choose|k: int|
            #![trigger rooms[k]]
            0 <= k < rooms.len() && rooms[k].room@ == rooms[i].room@ && rooms[k].members@.contains(c);
        assert(k == i);
    }
}

proof fn lemma_listed_update_other(
    rooms: Seq<RoomMembers>,
    i: int,
    e: RoomMembers,
    room: Seq<char>,
    c: ClientId,
)
    requires
        0 <= i < rooms.len(),
        e.room@ == rooms[i].room@,
        room != e.room@,
    ensures
        listed(rooms.update(i, e), room, c) == listed(rooms, room, c),
{
    let post = rooms.update(i, e);
    if listed(post, room, c) {
        let k = choose|k: int|
            #![trigger post[k]]
            0 <= k < post.len() && post[k].room@ == room && post[k].members@.contains(c);
        assert(rooms[k] == post[k]);
    }
    if listed(rooms, room, c) {
        let k = choose|k: int|
            #![trigger rooms[k]]
            0 <= k < rooms.len() && rooms[k].room@ == room && rooms[k].members@.contains(c);
        assert(rooms[k] == post[k]);
    }
}

proof fn lemma_listed_push(rooms: Seq<RoomMembers>, e: RoomMembers, room: Seq<char>, c: ClientId)
    requires
        forall|i: int| 0 <= i < rooms.len() ==> #[trigger] rooms[i].room@ != e.room@,
    ensures
        listed(rooms.push(e), room, c) == if room == e.room@ {
            e.members@.contains(c)
        } else {
            listed(rooms, room, c)
        },
{
    let post = rooms.push(e);
    if listed(post, room, c) {
        let k = choose|k: int|
            #![trigger post[k]]
            0 <= k < post.len() && post[k].room@ == room && post[k].members@.contains(c);
        if k < rooms.len() {
            assert(rooms[k] == post[k]);
        }
    }
    if listed(rooms, room, c) {
        let k = choose|k: int|
            #![trigger rooms[k]]
            0 <= k < rooms.len() && rooms[k].room@ == room && rooms[k].members@.contains(c);
        assert(rooms[k] == post[k]);
    }
    if room == e.room@ && e.members@.contains(c) {
        assert(post[rooms.len() as int] == e);
    }
}

proof fn lemma_listed_without(pre: Seq<RoomMembers>, post: Seq<RoomMembers>, c: ClientId)
    requires
        pre.len() == post.len(),
        forall|j: int| 0 <= j < pre.len() ==> #[trigger] post[j].room@ == pre[j].room@,
        forall|j: int, x: ClientId|
            0 <= j < pre.len() ==> #[trigger] post[j].members@.contains(x) == (
            pre[j].members@.contains(x) && x != c),
    ensures
        forall|room: Seq<char>, x: ClientId|
            #[trigger] listed(post, room, x) == (listed(pre, room, x) && x != c),
{
    assert forall|room: Seq<char>, x: ClientId|
        #[trigger] listed(post, room, x) == (listed(pre, room, x) && x != c) by {
        if listed(post, room, x) {
            let k = choose|k: int|
                #![trigger post[k]]
                0 <= k < post.len() && post[k].room@ == room && post[k].members@.contains(x);
            assert(pre[k].members@.contains(x));
        }
        if listed(pre, room, x) && x != c {
            let k = choose|k: int|
                #![trigger pre[k]]
                0 <= k < pre.len() && pre[k].room@ == room && pre[k].members@.contains(x);
            assert(post[k].members@.contains(x));
        }
    }
}

/// The position of `c` in `v`, if it is there.
fn position_of(v: &Vec<ClientId>, c: ClientId) -> (r: Option<usize>)
    ensures
        match r {
            Some(j) => j < v@.len() && v@[j as int] == c,
            None => !v@.contains(c),
        },
{
    let mut j: usize = 0;
    while j < v.len()
        invariant
            j <= v@.len(),
            forall|k: int| 0 <= k < j ==> v@[k] != c,
        decreases v@.len() - j,
    {
        if v[j] == c {
            return Some(j);
        }
        j = j + 1;
    }
    None
}

/// Adds `c` to `v` unless it is there already.
fn add_id(v: &mut Vec<ClientId>, c: ClientId)
    requires
        old(v)@.no_duplicates(),
    ensures
        final(v)@.no_duplicates(),
        forall|x: ClientId| #[trigger] final(v)@.contains(x) == (old(v)@.contains(x) || x == c),
{
    if position_of(v, c).is_none() {
        let ghost pre = v@;
        v.push(c);
        assert(v@ == pre.push(c));
        assert forall|x: ClientId| #[trigger] v@.contains(x) == (pre.contains(x) || x == c) by {
            if v@.contains(x) {
                let k = choose|k: int| 0 <= k < v@.len() && v@[k] == x;
                if k < pre.len() {
                    assert(pre[k] == x);
                }
            }
            if pre.contains(x) {
                let k = choose|k: int| 0 <= k < pre.len() && pre[k] == x;
                assert(v@[k] == x);
            }
            if x == c {
                assert(v@[pre.len() as int] == c);
            }
        }
    }
}

/// Takes `c` out of `v`.
fn remove_id(v: &mut Vec<ClientId>, c: ClientId)
    requires
        old(v)@.no_duplicates(),
    ensures
        final(v)@.no_duplicates(),
        forall|x: ClientId| #[trigger] final(v)@.contains(x) == (old(v)@.contains(x) && x != c),
{
    match position_of(v, c) {
        Some(j) => {
            let ghost pre = v@;
            v.remove(j);
            assert(v@ == pre.remove(j as int));
            assert forall|x: ClientId| #[trigger] v@.contains(x) == (pre.contains(x) && x != c) by {
                if v@.contains(x) {
                    let k = choose|k: int| 0 <= k < v@.len() && v@[k] == x;
                    if k < j {
                        assert(pre[k] == x);
                    } else {
                        assert(pre[k + 1] == x);
                    }
                }
                if pre.contains(x) && x != c {
                    let k = choose|k: int| 0 <= k < pre.len() && pre[k] == x;
                    if k < j {
                        assert(v@[k] == x);
                    } else {
                        assert(v@[k - 1] == x);
                    }
                }
            }
            assert forall|a: int, b: int|
                0 <= a < v@.len() && 0 <= b < v@.len() && a != b implies v@[a] != v@[b] by {
                let pa = if a < j { a } else { a + 1 };
                let pb = if b < j { b } else { b + 1 };
                assert(v@[a] == pre[pa] && v@[b] == pre[pb]);
            }
        },
        None => {},
    }
}

impl<H> Registry<H> {
    /// The session map: each live identifier's value, with its outbound handle.
    pub closed spec fn sessions(&self) -> Map<u128, H> {
        self.clients@.map_values(|cl: Client<H>| cl.tx)
    }

    /// Whether a live session holds `c`.
    pub open spec fn is_live(&self, c: ClientId) -> bool {
        self.sessions().contains_key(c.0)
    }

    /// Whether `c` is a member of the room named `room`.
    pub closed spec fn is_member(&self, room: Seq<char>, c: ClientId) -> bool {
        listed(self.rooms@, room, c)
    }

    /// The members of the room named `room`.
    pub open spec fn members(&self, room: Seq<char>) -> Set<ClientId> {
        Set::new(|c: ClientId| self.is_member(room, c))
    }

    /// The registry's invariant: sessions are filed under their own
    /// identifier, room names are distinct, no room lists a client twice, and
    /// every listed client is live.
    pub closed spec fn wf(&self) -> bool {
        &&& forall|k: u128| #[trigger]
            self.clients@.contains_key(k) ==> self.clients@[k].clientId.0 == k
        &&& names_distinct(self.rooms@)
        &&& forall|i: int| 0 <= i < self.rooms@.len()
            ==> (#[trigger] self.rooms@[i]).members@.no_duplicates()
        &&& forall|i: int, c: ClientId|
            0 <= i < self.rooms@.len() && #[trigger] self.rooms@[i].members@.contains(c)
                ==> self.clients@.contains_key(c.0)
    }

    /// An empty registry.
    pub fn new() -> (r: Registry<H>)
        ensures
            r.wf(),
            r.sessions() == Map::<u128, H>::empty(),
            forall|room: Seq<char>, c: ClientId| !r.is_member(room, c),
    {
        let r = Registry { clients: HashMapWithView::new(), rooms: Vec::new() };
        assert(r.sessions() =~= Map::<u128, H>::empty());
        r
    }

    /// The index of the room named `room`, if there is one.
    fn find_room(&self, room: &Room) -> (r: Option<usize>)
        ensures
            match r {
                Some(i) => i < self.rooms@.len() && self.rooms@[i as int].room@ == room@,
                None => forall|i: int| 0 <= i < self.rooms@.len() ==> #[trigger] self.rooms@[i].room@ != room@,
            },
    {
        let mut i: usize = 0;
        while i < self.rooms.len()
            invariant
                i <= self.rooms@.len(),
                forall|k: int| 0 <= k < i ==> #[trigger] self.rooms@[k].room@ != room@,
            decreases self.rooms@.len() - i,
        {
            if self.rooms[i].room.0 == room.0 {
                return Some(i);
            }
            i = i + 1;
        }
        None
    }

    /// Files a new session under `clientId`. Refused when a live session
    /// already holds that identifier; then nothing changes.
    #[allow(non_snake_case)]
    pub fn register(&mut self, clientId: ClientId, tx: H) -> (r: Result<(), RegistryError>)
        requires
            old(self).wf(),
        ensures
            final(self).wf(),
            registration(*old(self), *final(self), clientId, tx, r),
    {
        if self.clients.contains_key(&clientId.0) {
            return Err(RegistryError::DuplicateClient);
        }
        let ghost pre = self.clients@;
        let ghost handle = tx;
        self.clients.insert(clientId.0, Client::new(clientId, tx));
        proof {
            assert(self.sessions() =~= old(self).sessions().insert(clientId.0, handle));
        }
        Ok(())
    }

    /// The outbound handle of the live session `clientId`.
    #[allow(non_snake_case)]
    pub fn lookup(&self, clientId: ClientId) -> (r: Option<&H>)
        ensures
            match r {
                Some(h) => self.is_live(clientId) && *h == self.sessions()[clientId.0],
                None => !self.is_live(clientId),
            },
    {
        match self.clients.get(&clientId.0) {
            Some(cl) => Some(&cl.tx),
            None => None,
        }
    }

    /// Adds a live session to the room named `room`, creating the room when it
    /// is new. Joining twice is joining once; a client that is not live joins
    /// nothing.
    #[allow(non_snake_case)]
    pub fn join_room(&mut self, clientId: ClientId, room: &Room)
        requires
            old(self).wf(),
        ensures
            final(self).wf(),
            joining(*old(self), *final(self), clientId, room@),
    {
        if !self.clients.contains_key(&clientId.0) {
            return;
        }
        let ghost pre = self.rooms@;
        match self.find_room(room) {
            Some(i) => {
                let mut entry = self.rooms.remove(i);
                add_id(&mut entry.members, clientId);
                self.rooms.insert(i, entry);
                proof {
                    assert(self.rooms@ =~= pre.update(i as int, entry));
                    assert forall|r: Seq<char>, c: ClientId|
                        #[trigger] listed(self.rooms@, r, c) == (listed(pre, r, c) || (r == room@
                            && c == clientId)) by {
                        if r == room@ {
                            lemma_listed_at(self.rooms@, i as int, c);
                            lemma_listed_at(pre, i as int, c);
                        } else {
                            lemma_listed_update_other(pre, i as int, entry, r, c);
                        }
                    }
                    assert forall|a: int, c: ClientId|
                        0 <= a < self.rooms@.len() && #[trigger] self.rooms@[a].members@.contains(c)
                        implies self.clients@.contains_key(c.0) by {
                        if a != i {
                            assert(self.rooms@[a] == pre[a]);
                        }
                    }
                    assert forall|a: int| 0 <= a < self.rooms@.len()
                        implies (#[trigger] self.rooms@[a]).members@.no_duplicates() by {
                        if a != i {
                            assert(self.rooms@[a] == pre[a]);
                        }
                    }
                    assert(names_distinct(self.rooms@)) by {
                        assert forall|a: int| 0 <= a < self.rooms@.len()
                            implies #[trigger] self.rooms@[a].room@ == pre[a].room@ by {}
                    }
                }
            },
            None => {
                let mut members: Vec<ClientId> = Vec::new();
                members.push(clientId);
                let entry = RoomMembers { room: room.copy(), members };
                self.rooms.push(entry);
                proof {
                    assert(self.rooms@ =~= pre.push(entry));
                    assert(entry.members@ =~= seq![clientId]);
                    assert forall|r: Seq<char>, c: ClientId|
                        #[trigger] listed(self.rooms@, r, c) == (listed(pre, r, c) || (r == room@
                            && c == clientId)) by {
                        lemma_listed_push(pre, entry, r, c);
                        if r == room@ && listed(pre, r, c) {
                            let k = choose|k: int|
                                #![trigger pre[k]]
                                0 <= k < pre.len() && pre[k].room@ == r && pre[k].members@.contains(c);
                        }
                        if entry.members@.contains(c) {
                            let k = choose|k: int| 0 <= k < entry.members@.len() && entry.members@[k] == c;
                        }
                        if c == clientId {
                            assert(entry.members@[0] == clientId);
                        }
                    }
                    assert forall|a: int, c: ClientId|
                        0 <= a < self.rooms@.len() && #[trigger] self.rooms@[a].members@.contains(c)
                        implies self.clients@.contains_key(c.0) by {
                        if a < pre.len() {
                            assert(self.rooms@[a] == pre[a]);
                        } else {
                            let k = choose|k: int| 0 <= k < entry.members@.len() && entry.members@[k] == c;
                        }
                    }
                    assert forall|a: int| 0 <= a < self.rooms@.len()
                        implies (#[trigger] self.rooms@[a]).members@.no_duplicates() by {
                        if a < pre.len() {
                            assert(self.rooms@[a] == pre[a]);
                        }
                    }
                    assert(names_distinct(self.rooms@)) by {
                        assert forall|a: int| 0 <= a < pre.len()
                            implies #[trigger] self.rooms@[a] == pre[a] by {}
                    }
                }
            },
        }
    }
    /// Takes `clientId` out of the room named `room`; a no-op when it is not
    /// a member.
    #[allow(non_snake_case)]
    pub fn leave_room(&mut self, clientId: ClientId, room: &Room)
        requires
            old(self).wf(),
        ensures
            final(self).wf(),
            leaving(*old(self), *final(self), clientId, room@),
    {
        let ghost pre = self.rooms@;
        match self.find_room(room) {
            Some(i) => {
                let mut entry = self.rooms.remove(i);
                remove_id(&mut entry.members, clientId);
                self.rooms.insert(i, entry);
                proof {
                    assert(self.rooms@ =~= pre.update(i as int, entry));
                    assert forall|r: Seq<char>, c: ClientId|
                        #[trigger] listed(self.rooms@, r, c) == (listed(pre, r, c) && !(r == room@
                            && c == clientId)) by {
                        if r == room@ {
                            lemma_listed_at(self.rooms@, i as int, c);
                            lemma_listed_at(pre, i as int, c);
                        } else {
                            lemma_listed_update_other(pre, i as int, entry, r, c);
                        }
                    }
                    assert forall|a: int, c: ClientId|
                        0 <= a < self.rooms@.len() && #[trigger] self.rooms@[a].members@.contains(c)
                        implies self.clients@.contains_key(c.0) by {
                        assert(pre[a].members@.contains(c));
                    }
                    assert forall|a: int| 0 <= a < self.rooms@.len()
                        implies (#[trigger] self.rooms@[a]).members@.no_duplicates() by {
                        if a != i {
                            assert(self.rooms@[a] == pre[a]);
                        }
                    }
                    assert(names_distinct(self.rooms@)) by {
                        assert forall|a: int| 0 <= a < self.rooms@.len()
                            implies #[trigger] self.rooms@[a].room@ == pre[a].room@ by {}
                    }
                }
            },
            None => {
                proof {
                    assert forall|r: Seq<char>, c: ClientId|
                        #[trigger] listed(pre, r, c) implies r != room@ by {
                        let k = choose|k: int|
                            #![trigger pre[k]]
                            0 <= k < pre.len() && pre[k].room@ == r && pre[k].members@.contains(c);
                    }
                }
            },
        }
    }

    /// A snapshot of the members of the room named `room`, each once.
    pub fn members_of(&self, room: &Room) -> (r: Vec<ClientId>)
        requires
            self.wf(),
        ensures
            r@.no_duplicates(),
            forall|c: ClientId| #[trigger] r@.contains(c) == self.is_member(room@, c),
    {
        match self.find_room(room) {
            Some(i) => {
                let members = &self.rooms[i].members;
                let mut out: Vec<ClientId> = Vec::new();
                let mut j: usize = 0;
                while j < members.len()
                    invariant
                        j <= members@.len(),
                        out@ == members@.subrange(0, j as int),
                    decreases members@.len() - j,
                {
                    out.push(members[j]);
                    j = j + 1;
                    assert(out@ =~= members@.subrange(0, j as int));
                }
                proof {
                    assert(out@ =~= members@);
                    assert forall|c: ClientId| #[trigger] out@.contains(c) == self.is_member(room@, c) by {
                        lemma_listed_at(self.rooms@, i as int, c);
                    }
                }
                out
            },
            None => {
                let out: Vec<ClientId> = Vec::new();
                proof {
                    assert forall|c: ClientId| #[trigger] out@.contains(c) == self.is_member(room@, c) by {
                        if self.is_member(room@, c) {
                            let k = choose|k: int|
                                #![trigger self.rooms@[k]]
                                0 <= k < self.rooms@.len() && self.rooms@[k].room@ == room@
                                    && self.rooms@[k].members@.contains(c);
                        }
                    }
                }
                out
            },
        }
    }

    /// Removes the session `clientId` and takes it out of every room, in one
    /// step. Returns whether it was live: a second call changes nothing and
    /// returns `false`.
    #[allow(non_snake_case)]
    pub fn deregister(&mut self, clientId: ClientId) -> (r: bool)
        requires
            old(self).wf(),
        ensures
            final(self).wf(),
            r == old(self).is_live(clientId),
            deregistration(*old(self), *final(self), clientId),
    {
        let ghost pre = self.rooms@;
        let mut i: usize = 0;
        while i < self.rooms.len()
            invariant
                self.rooms@.len() == pre.len(),
                i <= pre.len(),
                self.clients == old(self).clients,
                old(self).rooms@ == pre,
                old(self).wf(),
                forall|j: int| 0 <= j < pre.len() ==> #[trigger] self.rooms@[j].room@ == pre[j].room@,
                forall|j: int| 0 <= j < pre.len() ==> (#[trigger] self.rooms@[j]).members@.no_duplicates(),
                forall|j: int, x: ClientId|
                    0 <= j < i ==> #[trigger] self.rooms@[j].members@.contains(x) == (
                    pre[j].members@.contains(x) && x != clientId),
                forall|j: int| i <= j < pre.len() ==> #[trigger] self.rooms@[j] == pre[j],
            decreases pre.len() - i,
        {
            let ghost mid = self.rooms@;
            let mut entry = self.rooms.remove(i);
            remove_id(&mut entry.members, clientId);
            self.rooms.insert(i, entry);
            proof {
                assert(self.rooms@ =~= mid.update(i as int, entry));
            }
            i = i + 1;
        }
        proof {
            lemma_listed_without(pre, self.rooms@, clientId);
        }
        let ghost clients_pre = self.clients@;
        let removed = self.clients.remove(&clientId.0);
        proof {
            assert(self.sessions() =~= old(self).sessions().remove(clientId.0));
            assert forall|a: int, c: ClientId|
                0 <= a < self.rooms@.len() && #[trigger] self.rooms@[a].members@.contains(c)
                implies self.clients@.contains_key(c.0) by {
                assert(pre[a].members@.contains(c));
                assert(c.0 != clientId.0);
            }
            assert(names_distinct(self.rooms@)) by {
                assert forall|a: int| 0 <= a < self.rooms@.len()
                    implies #[trigger] self.rooms@[a].room@ == pre[a].room@ by {}
            }
        }
        removed.is_some()
    }
}

} // verus!
