//! The relay server: the session registry behind its admission rule.
//!
//! The server keeps two tables.  The forward table has one row per session,
//! with the members of the session; the reverse table has one row per
//! registered endpoint, with the identifier of its session.  Both are
//! vectors in which no key occurs twice, read as maps (see `table`); the
//! pair of maps is the server's view, a [`Registry`].  Every operation says
//! which function of the registry it computes, and keeps the tables
//! well-formed.

use vstd::prelude::*;
use vstd::slice::slice_to_vec;
use vstd::utf8::encode_utf8;
use crate::command::{bytes_eq, check_for_command, receive_window, Message, Packet};
use crate::endpoint::Endpoint;
use crate::registry::{
    casualties, expired, lemma_deregister_consistent, lemma_refresh_consistent,
    lemma_register_consistent, lemma_stale_members, lemma_survivors_insert, lemma_sweep_consistent,
    lemma_sweep_sessions_insert, stale_members, survivors, sweep_sessions, Admission, Members,
    Reaction, Registry, Rejection, SessionId,
};
use crate::table::{
    as_map, at, distinct_keys, has_key, lemma_empty, lemma_entry, lemma_len, lemma_push,
    lemma_remove, lemma_submap, lemma_take, lemma_update, Keyed,
};

verus! {

/// A member of a session: where it is, and when it was last heard from.
#[derive(Clone, Copy)]
struct ClientSession {
    addr: Endpoint,
    last_seen: u64,
}

impl Keyed for ClientSession {
    type Key = Endpoint;

    type Value = u64;

    closed spec fn key(&self) -> Endpoint {
        self.addr
    }

    closed spec fn value(&self) -> u64 {
        self.last_seen
    }
}

/// A row of the forward table: a session and its members.
struct Session {
    name: Vec<u8>,
    members: Vec<ClientSession>,
}

impl Keyed for Session {
    type Key = SessionId;

    type Value = Members;

    closed spec fn key(&self) -> SessionId {
        self.name@
    }

    closed spec fn value(&self) -> Members {
        as_map(self.members@)
    }
}

impl Session {
    /// The members are distinct endpoints, and there is at least one.
    spec fn wf(&self) -> bool {
        distinct_keys(self.members@) && self.members.len() > 0
    }
}

/// A row of the reverse table: an endpoint and the session it belongs to.
struct Connection {
    addr: Endpoint,
    session: Vec<u8>,
}

impl Keyed for Connection {
    type Key = Endpoint;

    type Value = SessionId;

    closed spec fn key(&self) -> Endpoint {
        self.addr
    }

    closed spec fn value(&self) -> SessionId {
        self.session@
    }
}

/// Whether an endpoint last heard from at `last_seen` has been silent for
/// more than `horizon` at time `now`.
pub fn is_expired(last_seen: u64, now: u64, horizon: u64) -> (b: bool)
    ensures
        b == expired(last_seen, now, horizon),
{
    now > last_seen && now - last_seen > horizon
}

/// Drops the stale members from `members` and appends them to `evicted`.
fn evict_stale(
    members: &mut Vec<ClientSession>,
    now: u64,
    horizon: u64,
    evicted: &mut Vec<Endpoint>,
)
    requires
        distinct_keys(old(members)@),
        old(evicted)@.no_duplicates(),
        forall|e: Endpoint| #[trigger]
            old(evicted)@.contains(e) ==> !as_map(old(members)@).contains_key(e),
    ensures
        distinct_keys(final(members)@),
        as_map(final(members)@) == survivors(as_map(old(members)@), now, horizon),
        final(evicted)@.no_duplicates(),
        final(evicted)@.to_set() == old(evicted)@.to_set().union(
            casualties(as_map(old(members)@), now, horizon),
        ),
{
    let ghost all = members@;
    let ghost before = evicted@;
    let ghost mut done: int = 0;
    let mut j: usize = 0;
    proof {
        lemma_empty::<ClientSession>();
        assert(members@.take(0) =~= Seq::<ClientSession>::empty());
        assert(survivors(Map::<Endpoint, u64>::empty(), now, horizon) =~= Map::<
            Endpoint,
            u64,
        >::empty());
        assert(casualties(Map::<Endpoint, u64>::empty(), now, horizon) =~= Set::<
            Endpoint,
        >::empty());
        assert(evicted@.to_set() =~= before.to_set().union(Set::<Endpoint>::empty()));
        assert(members@.skip(0) =~= all.skip(0));
    }
    while j < members.len()
        invariant
            distinct_keys(all),
            distinct_keys(members@),
            0 <= done <= all.len(),
            j <= members.len(),
            members.len() - j == all.len() - done,
            members@.skip(j as int) == all.skip(done),
            as_map(members@.take(j as int)) == survivors(as_map(all.take(done)), now, horizon),
            evicted@.no_duplicates(),
            evicted@.to_set() == before.to_set().union(
                casualties(as_map(all.take(done)), now, horizon),
            ),
            forall|e: Endpoint| #[trigger] before.contains(e) ==> !as_map(all).contains_key(e),
        decreases members.len() - j,
    {
        let ghost cur = members@;
        let m = members[j];
        proof {
            assert(cur.skip(j as int)[0] == all.skip(done)[0]);
            assert(m == all[done]);
            lemma_take(all, done);
            lemma_push(all.take(done), all[done]);
            lemma_survivors_insert(
                as_map(all.take(done)),
                m.addr,
                m.last_seen,
                now,
                horizon,
            );
            lemma_entry(all, done);
        }
        if is_expired(m.last_seen, now, horizon) {
            members.remove(j);
            proof {
                lemma_remove(cur, j as int);
                assert(members@.take(j as int) =~= cur.take(j as int));
                assert(members@.skip(j as int) =~= cur.skip(j as int).skip(1));
                assert(all.skip(done + 1) =~= all.skip(done).skip(1));
                let gone = evicted@;
                // The member is new to the list: it is neither one of those
                // that were there at the start, nor an earlier casualty.
                assert(!gone.contains(m.addr)) by {
                    if gone.contains(m.addr) {
                        assert(gone.to_set().contains(m.addr));
                        if before.to_set().contains(m.addr) {
                            assert(before.contains(m.addr));
                        }
                    }
                }
                assert(gone.push(m.addr).no_duplicates());
                gone.lemma_push_to_set_commute(m.addr);
                assert(gone.to_set().insert(m.addr) =~= before.to_set().union(
                    casualties(as_map(all.take(done + 1)), now, horizon),
                ));
            }
            evicted.push(m.addr);
            proof {
                done = done + 1;
            }
        } else {
            proof {
                lemma_take(cur, j as int);
                lemma_push(cur.take(j as int), cur[j as int]);
                assert(cur.skip(j as int + 1) =~= cur.skip(j as int).skip(1));
                assert(all.skip(done + 1) =~= all.skip(done).skip(1));
                done = done + 1;
            }
            j = j + 1;
        }
    }
    proof {
        assert(members@.take(j as int) =~= members@);
        assert(all.take(done) =~= all);
    }
}


/// The row of `members` that holds `addr`, if there is one.
fn find_member(members: &Vec<ClientSession>, addr: Endpoint) -> (found: Option<usize>)
    ensures
        match found {
            Some(i) => at(members@, addr, i as int),
            None => !has_key(members@, addr),
        },
{
    let mut i: usize = 0;
    while i < members.len()
        invariant
            i <= members.len(),
            forall|j: int| 0 <= j < i ==> !at(members@, addr, j),
        decreases members.len() - i,
    {
        if members[i].addr == addr {
            return Some(i);
        }
        i = i + 1;
    }
    None
}

/// The row of `sessions` that holds the session named `key`, if there is
/// one.
fn find_session(sessions: &Vec<Session>, key: &[u8]) -> (found: Option<usize>)
    ensures
        match found {
            Some(i) => at(sessions@, key@, i as int),
            None => !has_key(sessions@, key@),
        },
{
    let mut i: usize = 0;
    while i < sessions.len()
        invariant
            i <= sessions.len(),
            forall|j: int| 0 <= j < i ==> !at(sessions@, key@, j),
        decreases sessions.len() - i,
    {
        if bytes_eq(sessions[i].name.as_slice(), key) {
            return Some(i);
        }
        i = i + 1;
    }
    None
}

/// The row of `connections` that holds `addr`, if there is one.
fn find_connection(connections: &Vec<Connection>, addr: Endpoint) -> (found: Option<usize>)
    ensures
        match found {
            Some(i) => at(connections@, addr, i as int),
            None => !has_key(connections@, addr),
        },
{
    let mut i: usize = 0;
    while i < connections.len()
        invariant
            i <= connections.len(),
            forall|j: int| 0 <= j < i ==> !at(connections@, addr, j),
        decreases connections.len() - i,
    {
        if connections[i].addr == addr {
            return Some(i);
        }
        i = i + 1;
    }
    None
}

/// The endpoints of `members` other than `addr`, in the order of the table.
fn others(members: &Vec<ClientSession>, addr: Endpoint) -> (list: Vec<Endpoint>)
    requires
        distinct_keys(members@),
    ensures
        list@.no_duplicates(),
        list@.to_set() == as_map(members@).dom().remove(addr),
        list.len() == if has_key(members@, addr) {
            members.len() - 1
        } else {
            members.len() as int
        },
{
    let mut list: Vec<Endpoint> = Vec::new();
    let mut j: usize = 0;
    proof {
        assert(!has_key(members@.take(0), addr)) by {
            if has_key(members@.take(0), addr) {
                let x = choose|x: int| at(members@.take(0), addr, x);
                assert(at(members@.take(0), addr, x));
            }
        }
    }
    while j < members.len()
        invariant
            distinct_keys(members@),
            j <= members.len(),
            forall|x: int| 0 <= x < list.len() ==> list@[x] != addr && has_key(
                members@.take(j as int),
                #[trigger] list@[x],
            ),
            forall|x: int|
                0 <= x < j && members@[x].addr != addr ==> list@.contains(
                    #[trigger] members@[x].addr,
                ),
            list@.no_duplicates(),
            list.len() == if has_key(members@.take(j as int), addr) {
                j - 1
            } else {
                j as int
            },
        decreases members.len() - j,
    {
        let m = members[j];
        let ghost seen = members@.take(j as int);
        let ghost grown = members@.take(j as int + 1);
        let ghost before = list@;
        proof {
            lemma_take(members@, j as int);
            assert(at(grown, m.addr, j as int));
            assert forall|e: Endpoint| has_key(seen, e) implies has_key(grown, e) by {
                let x = choose|x: int| at(seen, e, x);
                assert(at(seen, e, x));
                assert(at(grown, e, x));
            }
            assert(has_key(grown, addr) <==> (m.addr == addr || has_key(seen, addr))) by {
                if has_key(grown, addr) {
                    let x = choose|x: int| at(grown, addr, x);
                    assert(at(grown, addr, x));
                    if x < j {
                        assert(at(seen, addr, x));
                    }
                }
            }
        }
        if m.addr != addr {
            proof {
                assert(!before.contains(m.addr)) by {
                    if before.contains(m.addr) {
                        let x = choose|x: int| 0 <= x < before.len() && before[x] == m.addr;
                        assert(has_key(seen, before[x]));
                    }
                }
            }
            list.push(m.addr);
            proof {
                assert forall|x: int|
                    0 <= x < j + 1 && members@[x].addr != addr implies list@.contains(
                    #[trigger] members@[x].addr,
                ) by {
                    if x < j {
                        let y = choose|y: int|
                            0 <= y < before.len() && before[y] == members@[x].addr;
                        assert(list@[y] == members@[x].addr);
                    } else {
                        assert(list@[before.len() as int] == m.addr);
                    }
                }
            }
        } else {
            proof {
                assert forall|x: int|
                    0 <= x < j + 1 && members@[x].addr != addr implies list@.contains(
                    #[trigger] members@[x].addr,
                ) by {
                    assert(x < j);
                }
            }
        }
        j = j + 1;
    }
    proof {
        assert(members@.take(j as int) =~= members@);
        assert forall|e: Endpoint|
            list@.to_set().contains(e) <==> as_map(members@).dom().remove(addr).contains(e) by {
            if list@.contains(e) {
                let x = choose|x: int| 0 <= x < list.len() && list@[x] == e;
                assert(has_key(members@, list@[x]));
            }
            if e != addr && has_key(members@, e) {
                let x = choose|x: int| at(members@, e, x);
                assert(at(members@, e, x));
                assert(list@.contains(members@[x].addr));
            }
        }
        assert(list@.to_set() =~= as_map(members@).dom().remove(addr));
    }
    list
}

/// What is to be done about a datagram, once the registry is up to date.
#[derive(Debug, PartialEq, Eq)]
pub enum Outcome {
    /// The datagram asked to join a session; this was the answer.  Nothing
    /// is sent back either way.
    Admission(Admission),
    /// The datagram asked to leave a session; `removed` says whether the
    /// sender was a member of it, and so left.  Nothing is sent back.
    Departure { removed: bool },
    /// The datagram is data from a registered endpoint: `payload` is to be
    /// sent to each of `peers`, once.
    Forward { payload: Packet, peers: Vec<Endpoint> },
    /// The datagram is data from an endpoint that is not registered, and
    /// goes nowhere.
    Drop,
}

impl View for Outcome {
    type V = Reaction;

    open spec fn view(&self) -> Reaction {
        match *self {
            Outcome::Admission(admission) => Reaction::Admission(admission),
            Outcome::Departure { removed } => Reaction::Departure { removed },
            Outcome::Forward { payload, peers } => Reaction::Forward {
                payload: payload@,
                peers: peers@.to_set(),
            },
            Outcome::Drop => Reaction::Drop,
        }
    }
}

/// The endpoints of `members`, in the order of the table.
fn addresses(members: &Vec<ClientSession>) -> (list: Vec<Endpoint>)
    requires
        distinct_keys(members@),
    ensures
        list@.no_duplicates(),
        list@.to_set() == as_map(members@).dom(),
        list.len() == members.len(),
{
    let mut list: Vec<Endpoint> = Vec::new();
    let mut j: usize = 0;
    while j < members.len()
        invariant
            j <= members.len(),
            list.len() == j,
            forall|x: int| 0 <= x < j ==> list@[x] == members@[x].addr,
        decreases members.len() - j,
    {
        list.push(members[j].addr);
        j = j + 1;
    }
    proof {
        assert forall|e: Endpoint| list@.to_set().contains(e) <==> as_map(
            members@,
        ).dom().contains(e) by {
            if list@.contains(e) {
                let x = choose|x: int| 0 <= x < list.len() && list@[x] == e;
                assert(at(members@, e, x));
            }
            if has_key(members@, e) {
                let x = choose|x: int| at(members@, e, x);
                assert(at(members@, e, x));
                assert(list@[x] == e);
            }
        }
        assert(list@.to_set() =~= as_map(members@).dom());
    }
    list
}

/// The relay server: the admission secret, the address to listen on, and
/// the two tables of the registry.
pub struct Server {
    api_key: String,
    addr: String,
    clients: Vec<Session>,
    connections: Vec<Connection>,
}

impl View for Server {
    type V = Registry;

    closed spec fn view(&self) -> Registry {
        Registry { clients: as_map(self.clients@), connections: as_map(self.connections@) }
    }
}

impl Server {
    /// The tables are well-formed: no key occurs twice in either, no
    /// session is without members, and the registry they denote is
    /// consistent.
    pub closed spec fn wf(&self) -> bool {
        &&& distinct_keys(self.clients@)
        &&& forall|i: int| 0 <= i < self.clients.len() ==> (#[trigger] self.clients[i]).wf()
        &&& distinct_keys(self.connections@)
        &&& self@.consistent()
    }

    /// The registry of a well-formed server is consistent.
    pub proof fn lemma_consistent(&self)
        requires
            self.wf(),
        ensures
            self@.consistent(),
    {
    }

    /// The admission secret: the bytes that a request to join must present.
    pub closed spec fn secret(&self) -> Seq<u8> {
        encode_utf8(self.api_key@)
    }

    /// The address that the server is to listen on.
    pub closed spec fn bind_addr(&self) -> Seq<char> {
        self.addr@
    }

    /// A server with the admission secret `api_key`, to listen on `addr`,
    /// that has admitted nobody yet.
    pub fn new(api_key: String, addr: String) -> (server: Server)
        ensures
            server.wf(),
            server@ == Registry::empty(),
            server.secret() == encode_utf8(api_key@),
            server.bind_addr() == addr@,
    {
        proof {
            lemma_empty::<Session>();
            lemma_empty::<Connection>();
        }
        Server { api_key, addr, clients: Vec::new(), connections: Vec::new() }
    }

    /// Registers `addr` as a member of the session named `key`, last seen
    /// at `now`, and says whether it did: an endpoint that is registered
    /// already, in this session or another, stays as it is.
    pub fn register_client(&mut self, key: Vec<u8>, addr: Endpoint, now: u64) -> (registered: bool)
        requires
            old(self).wf(),
        ensures
            final(self).wf(),
            final(self).secret() == old(self).secret(),
            final(self).bind_addr() == old(self).bind_addr(),
            final(self)@ == old(self)@.register(key@, addr, now),
            registered == !old(self)@.connections.contains_key(addr),
    {
        let ghost start = self@;
        let ghost rows = self.clients@;
        if find_connection(&self.connections, addr).is_some() {
            return false;
        }
        let member = ClientSession { addr, last_seen: now };
        match find_session(&self.clients, key.as_slice()) {
            Some(i) => {
                let ghost row = rows[i as int];
                proof {
                    lemma_entry(rows, i as int);
                    assert(row.wf());
                    // An endpoint that is no key of the reverse table is a
                    // member of no session.
                    if has_key(row.members@, addr) {
                        assert(start.is_member(row.name@, addr));
                    }
                    lemma_push(row.members@, member);
                }
                self.clients[i].members.push(member);
                proof {
                    let grown = self.clients@[i as int];
                    assert(grown.name == row.name);
                    assert(self.clients@ =~= rows.update(i as int, grown));
                    lemma_update(rows, i as int, grown);
                    assert forall|k: int| 0 <= k < self.clients.len() implies (
                    #[trigger] self.clients[k]).wf() by {
                        if k != i {
                            assert(self.clients[k] == rows[k]);
                        }
                    }
                }
            },
            None => {
                let mut members: Vec<ClientSession> = Vec::new();
                members.push(member);
                let row = Session { name: slice_to_vec(key.as_slice()), members };
                proof {
                    lemma_empty::<ClientSession>();
                    lemma_push(Seq::<ClientSession>::empty(), member);
                    assert(row.members@ =~= Seq::<ClientSession>::empty().push(member));
                    lemma_push(rows, row);
                    assert forall|k: int| 0 <= k < rows.push(row).len() implies (
                    #[trigger] rows.push(row)[k]).wf() by {
                        if k < rows.len() {
                            assert(rows.push(row)[k] == rows[k]);
                        }
                    }
                }
                self.clients.push(row);
            },
        }
        let connection = Connection { addr, session: key };
        proof {
            lemma_push(self.connections@, connection);
            lemma_register_consistent(start, key@, addr, now);
        }
        self.connections.push(connection);
        true
    }

    /// Takes `addr` out of the session named `key`, and the session out of
    /// the registry if it was the last member, and says whether it did:
    /// nothing changes unless `addr` is registered under exactly that
    /// name.
    pub fn deregister_client(&mut self, key: &[u8], addr: Endpoint) -> (removed: bool)
        requires
            old(self).wf(),
        ensures
            final(self).wf(),
            final(self).secret() == old(self).secret(),
            final(self).bind_addr() == old(self).bind_addr(),
            final(self)@ == old(self)@.deregister(key@, addr),
            removed == (old(self)@.connections.contains_key(addr) && old(self)@.connections[addr]
                == key@),
    {
        let ghost start = self@;
        let ghost rows = self.clients@;
        let c = match find_connection(&self.connections, addr) {
            Some(c) => c,
            None => {
                return false;
            },
        };
        proof {
            lemma_entry(self.connections@, c as int);
        }
        if !bytes_eq(self.connections[c].session.as_slice(), key) {
            return false;
        }
        // The reverse table names the session, so the forward table has it,
        // with this endpoint among its members.
        let found = find_session(&self.clients, key);
        proof {
            assert(start.is_member(key@, addr));
        }
        let i = found.unwrap();
        let ghost row = rows[i as int];
        proof {
            lemma_entry(rows, i as int);
            assert(row.wf());
        }
        let found = find_member(&self.clients[i].members, addr);
        let j = found.unwrap();
        proof {
            lemma_remove(row.members@, j as int);
        }
        self.clients[i].members.remove(j);
        let ghost rest = self.clients@[i as int];
        proof {
            assert(rest.name == row.name);
            assert(self.clients@ =~= rows.update(i as int, rest));
            lemma_update(rows, i as int, rest);
        }
        if self.clients[i].members.len() == 0 {
            proof {
                assert(rest.members@ =~= Seq::<ClientSession>::empty());
                lemma_empty::<ClientSession>();
                lemma_remove(self.clients@, i as int);
                assert(as_map(rows).insert(key@, as_map(rest.members@)).remove(key@) =~= as_map(
                    rows,
                ).remove(key@));
            }
            self.clients.remove(i);
            proof {
                assert forall|k: int| 0 <= k < self.clients.len() implies (
                #[trigger] self.clients[k]).wf() by {
                    if k < i {
                        assert(self.clients[k] == rows[k]);
                    } else {
                        assert(self.clients[k] == rows[k + 1]);
                    }
                }
            }
        } else {
            proof {
                lemma_entry(rest.members@, 0);
                assert forall|k: int| 0 <= k < self.clients.len() implies (
                #[trigger] self.clients[k]).wf() by {
                    if k != i {
                        assert(self.clients[k] == rows[k]);
                    }
                }
            }
        }
        proof {
            lemma_remove(self.connections@, c as int);
            lemma_deregister_consistent(start, key@, addr);
        }
        self.connections.remove(c);
        true
    }

    /// Notes that `addr` was heard from at `now`, and returns the endpoints
    /// that its datagram goes to: the other members of its session, each
    /// once.  Returns `None`, and changes nothing, where `addr` is not
    /// registered.
    pub fn forward_packet(&mut self, addr: Endpoint, now: u64) -> (peers: Option<Vec<Endpoint>>)
        requires
            old(self).wf(),
        ensures
            final(self).wf(),
            final(self).secret() == old(self).secret(),
            final(self).bind_addr() == old(self).bind_addr(),
            final(self)@ == old(self)@.refresh(addr, now),
            peers is Some <==> old(self)@.connections.contains_key(addr),
            peers matches Some(list) ==> {
                &&& list@.no_duplicates()
                &&& list@.to_set() == old(self)@.peers(addr)
                &&& !list@.contains(addr)
                &&& list.len() == old(self)@.members(old(self)@.connections[addr]).len() - 1
            },
    {
        let ghost start = self@;
        let ghost rows = self.clients@;
        let c = match find_connection(&self.connections, addr) {
            Some(c) => c,
            None => {
                return None;
            },
        };
        proof {
            lemma_entry(self.connections@, c as int);
            assert(start.is_member(start.connections[addr], addr));
        }
        let found = find_session(&self.clients, self.connections[c].session.as_slice());
        let i = found.unwrap();
        let ghost row = rows[i as int];
        proof {
            lemma_entry(rows, i as int);
            assert(row.wf());
        }
        let found = find_member(&self.clients[i].members, addr);
        let j = found.unwrap();
        let peers = others(&self.clients[i].members, addr);
        let seen = ClientSession { addr, last_seen: now };
        proof {
            lemma_update(row.members@, j as int, seen);
        }
        self.clients[i].members[j].last_seen = now;
        proof {
            let touched = self.clients@[i as int];
            assert(touched.name == row.name);
            assert(touched.members@ =~= row.members@.update(j as int, seen));
            assert(self.clients@ =~= rows.update(i as int, touched));
            lemma_update(rows, i as int, touched);
            assert forall|k: int| 0 <= k < self.clients.len() implies (
            #[trigger] self.clients[k]).wf() by {
                if k != i {
                    assert(self.clients[k] == rows[k]);
                }
            }
            lemma_refresh_consistent(start, addr, now);
            lemma_len(row.members@);
            assert(peers@.contains(addr) ==> peers@.to_set().contains(addr));
        }
        Some(peers)
    }

    /// Answers a request of `addr` to join the session named `session`
    /// with the secret `secret`, and registers it where the answer is yes.
    pub fn handle_connect_command(
        &mut self,
        addr: Endpoint,
        secret: &[u8],
        session: Vec<u8>,
        now: u64,
    ) -> (admission: Admission)
        requires
            old(self).wf(),
        ensures
            final(self).wf(),
            final(self).secret() == old(self).secret(),
            final(self).bind_addr() == old(self).bind_addr(),
            admission == old(self)@.admission(old(self).secret(), secret@, addr),
            final(self)@ == if admission == Admission::Accepted {
                old(self)@.register(session@, addr, now)
            } else {
                old(self)@
            },
    {
        if !bytes_eq(secret, self.api_key.as_str().as_bytes()) {
            return Admission::Rejected(Rejection::BadSecret);
        }
        if self.register_client(session, addr, now) {
            Admission::Accepted
        } else {
            Admission::Rejected(Rejection::AlreadyRegistered)
        }
    }

    /// Handles one datagram: `buf` is its payload, `addr` is where it came
    /// from, `now` is when.  A request to join or to leave is carried out; data
    /// from a registered endpoint refreshes its last-seen time, and is
    /// handed back with the endpoints to send it to; other data is dropped.
    pub fn handle_datagram(&mut self, buf: &[u8], addr: Endpoint, now: u64) -> (outcome: Outcome)
        requires
            old(self).wf(),
        ensures
            final(self).wf(),
            final(self).secret() == old(self).secret(),
            final(self).bind_addr() == old(self).bind_addr(),
            final(self)@ == old(self)@.handle(old(self).secret(), buf@, addr, now),
            outcome@ == old(self)@.reaction(old(self).secret(), buf@, addr),
            outcome matches Outcome::Forward { peers, .. } ==> {
                &&& peers@.no_duplicates()
                &&& !peers@.contains(addr)
                &&& peers.len() == old(self)@.members(old(self)@.connections[addr]).len() - 1
            },
    {
        let payload = receive_window(buf);
        match check_for_command(payload) {
            Message::Connect { secret, session } => {
                Outcome::Admission(
                    self.handle_connect_command(addr, secret.as_slice(), session, now),
                )
            },
            Message::Disconnect { session } => {
                Outcome::Departure { removed: self.deregister_client(session.as_slice(), addr) }
            },
            Message::Data => {
                match self.forward_packet(addr, now) {
                    Some(peers) => Outcome::Forward { payload: slice_to_vec(payload), peers },
                    None => Outcome::Drop,
                }
            },
        }
    }

    /// The address that the server is to listen on.
    pub fn addr(&self) -> (addr: &str)
        ensures
            addr@ == self.bind_addr(),
    {
        self.addr.as_str()
    }

    /// The name of the session that `addr` belongs to, if it is registered.
    pub fn session_of(&self, addr: Endpoint) -> (session: Option<Vec<u8>>)
        requires
            self.wf(),
        ensures
            match session {
                Some(key) => self@.connections.contains_key(addr) && key@
                    == self@.connections[addr],
                None => !self@.connections.contains_key(addr),
            },
    {
        match find_connection(&self.connections, addr) {
            Some(c) => {
                proof {
                    lemma_entry(self.connections@, c as int);
                }
                Some(slice_to_vec(self.connections[c].session.as_slice()))
            },
            None => None,
        }
    }

    /// When `addr` was last heard from, if it is registered.
    pub fn last_seen(&self, addr: Endpoint) -> (seen: Option<u64>)
        requires
            self.wf(),
        ensures
            match seen {
                Some(t) => self@.connections.contains_key(addr) && t
                    == self@.clients[self@.connections[addr]][addr],
                None => !self@.connections.contains_key(addr),
            },
    {
        let c = match find_connection(&self.connections, addr) {
            Some(c) => c,
            None => {
                return None;
            },
        };
        proof {
            lemma_entry(self.connections@, c as int);
            assert(self@.is_member(self@.connections[addr], addr));
        }
        let found = find_session(&self.clients, self.connections[c].session.as_slice());
        let i = found.unwrap();
        proof {
            lemma_entry(self.clients@, i as int);
            assert(self.clients[i as int].wf());
        }
        let found = find_member(&self.clients[i].members, addr);
        let j = found.unwrap();
        proof {
            lemma_entry(self.clients[i as int].members@, j as int);
        }
        Some(self.clients[i].members[j].last_seen)
    }

    /// The members of the session named `key`, each once; none where there
    /// is no such session.
    pub fn members(&self, key: &[u8]) -> (list: Vec<Endpoint>)
        requires
            self.wf(),
        ensures
            list@.no_duplicates(),
            list@.to_set() == self@.members(key@).dom(),
            list.len() == self@.members(key@).len(),
    {
        match find_session(&self.clients, key) {
            Some(i) => {
                proof {
                    lemma_entry(self.clients@, i as int);
                    assert(self.clients[i as int].wf());
                    lemma_len(self.clients[i as int].members@);
                }
                addresses(&self.clients[i].members)
            },
            None => {
                let list: Vec<Endpoint> = Vec::new();
                proof {
                    assert(list@.to_set() =~= Set::<Endpoint>::empty());
                }
                list
            },
        }
    }

    /// How many sessions there are.
    pub fn session_count(&self) -> (n: usize)
        requires
            self.wf(),
        ensures
            n == self@.clients.len(),
    {
        proof {
            lemma_len(self.clients@);
        }
        self.clients.len()
    }

    /// How many endpoints are registered.
    pub fn client_count(&self) -> (n: usize)
        requires
            self.wf(),
        ensures
            n == self@.connections.len(),
    {
        proof {
            lemma_len(self.connections@);
        }
        self.connections.len()
    }

    /// Evicts every endpoint that has been silent for more than `horizon`
    /// at time `now`, and the sessions that this empties.  Returns the
    /// evicted endpoints.
    pub fn gc_inactive_clients(&mut self, now: u64, horizon: u64) -> (evicted: Vec<Endpoint>)
        requires
            old(self).wf(),
        ensures
            final(self).wf(),
            final(self).secret() == old(self).secret(),
            final(self).bind_addr() == old(self).bind_addr(),
            final(self)@ == old(self)@.sweep(now, horizon),
            evicted@.no_duplicates(),
            evicted@.to_set() == old(self)@.stale(now, horizon),
    {
        let ghost start = self@;
        let ghost rows = self.clients@;
        let ghost mut done: int = 0;
        let mut evicted: Vec<Endpoint> = Vec::new();
        let mut i: usize = 0;
        proof {
            lemma_empty::<Session>();
            assert(self.clients@.take(0) =~= Seq::<Session>::empty());
            assert(rows.take(0) =~= Seq::<Session>::empty());
            assert(sweep_sessions(Map::<SessionId, Members>::empty(), now, horizon) =~= Map::<
                SessionId,
                Members,
            >::empty());
            assert(stale_members(Map::<SessionId, Members>::empty(), now, horizon) =~= Set::<
                Endpoint,
            >::empty());
            assert(evicted@.to_set() =~= Set::<Endpoint>::empty());
            assert(self.clients@.skip(0) =~= rows.skip(0));
        }
        while i < self.clients.len()
            invariant
                self.secret() == old(self).secret(),
                self.bind_addr() == old(self).bind_addr(),
                start.consistent(),
                start.clients == as_map(rows),
                start.connections == as_map(self.connections@),
                distinct_keys(self.connections@),
                distinct_keys(rows),
                distinct_keys(self.clients@),
                forall|k: int| 0 <= k < self.clients.len() ==> (#[trigger] self.clients[k]).wf(),
                0 <= done <= rows.len(),
                i <= self.clients.len(),
                self.clients.len() - i == rows.len() - done,
                self.clients@.skip(i as int) == rows.skip(done),
                as_map(self.clients@.take(i as int)) == sweep_sessions(
                    as_map(rows.take(done)),
                    now,
                    horizon,
                ),
                evicted@.no_duplicates(),
                evicted@.to_set() == stale_members(as_map(rows.take(done)), now, horizon),
            decreases self.clients.len() - i,
        {
            let ghost cur = self.clients@;
            let ghost row = cur[i as int];
            proof {
                assert(cur.skip(i as int)[0] == rows.skip(done)[0]);
                assert(row == rows[done]);
                assert(row.wf());
                lemma_take(rows, done);
                lemma_push(rows.take(done), row);
                lemma_entry(rows, done);
                lemma_sweep_sessions_insert(
                    as_map(rows.take(done)),
                    row.name@,
                    as_map(row.members@),
                    now,
                    horizon,
                );
                // Nobody evicted so far belongs to this session: such an
                // endpoint would be a member of two sessions.
                assert forall|e: Endpoint| #[trigger] evicted@.contains(e) implies !as_map(
                    row.members@,
                ).contains_key(e) by {
                    assert(evicted@.to_set().contains(e));
                    let part = as_map(rows.take(done));
                    let s = choose|s: SessionId|
                        part.contains_key(s) && #[trigger] casualties(
                            part[s],
                            now,
                            horizon,
                        ).contains(e);
                    lemma_submap(rows, done, s);
                    assert(start.is_member(s, e));
                    if as_map(row.members@).contains_key(e) {
                        assert(start.is_member(row.name@, e));
                    }
                }
            }
            evict_stale(&mut self.clients[i].members, now, horizon, &mut evicted);
            let ghost kept = self.clients@[i as int];
            proof {
                assert(kept.name == row.name);
                assert(self.clients@ =~= cur.update(i as int, kept));
                lemma_update(cur, i as int, kept);
            }
            if self.clients[i].members.len() == 0 {
                proof {
                    assert(kept.members@ =~= Seq::<ClientSession>::empty());
                    lemma_empty::<ClientSession>();
                    lemma_remove(self.clients@, i as int);
                }
                self.clients.remove(i);
                proof {
                    assert(self.clients@.take(i as int) =~= cur.take(i as int));
                    assert(self.clients@.skip(i as int) =~= cur.skip(i as int).skip(1));
                    assert(rows.skip(done + 1) =~= rows.skip(done).skip(1));
                    assert forall|k: int| 0 <= k < self.clients.len() implies (
                    #[trigger] self.clients[k]).wf() by {
                        if k < i {
                            assert(self.clients[k] == cur[k]);
                        } else {
                            assert(self.clients[k] == cur[k + 1]);
                        }
                    }
                }
            } else {
                proof {
                    let now_rows = self.clients@;
                    lemma_entry(kept.members@, 0);
                    lemma_take(now_rows, i as int);
                    lemma_push(now_rows.take(i as int), kept);
                    assert(now_rows.take(i as int) =~= cur.take(i as int));
                    assert(now_rows.skip(i as int + 1) =~= cur.skip(i as int).skip(1));
                    assert(rows.skip(done + 1) =~= rows.skip(done).skip(1));
                    assert forall|k: int| 0 <= k < self.clients.len() implies (
                    #[trigger] self.clients[k]).wf() by {
                        if k != i {
                            assert(self.clients[k] == cur[k]);
                        }
                    }
                }
                i = i + 1;
            }
            proof {
                done = done + 1;
            }
        }
        proof {
            assert(self.clients@.take(i as int) =~= self.clients@);
            assert(rows.take(done) =~= rows);
            lemma_stale_members(start, now, horizon);
            assert(evicted@.take(0).to_set() =~= Set::<Endpoint>::empty());
            assert(start.connections.remove_keys(Set::<Endpoint>::empty()) =~= start.connections);
        }
        let mut k: usize = 0;
        while k < evicted.len()
            invariant
                self.secret() == old(self).secret(),
                self.bind_addr() == old(self).bind_addr(),
                k <= evicted.len(),
                evicted@.no_duplicates(),
                evicted@.to_set() == start.stale(now, horizon),
                distinct_keys(self.clients@),
                forall|x: int| 0 <= x < self.clients.len() ==> (#[trigger] self.clients[x]).wf(),
                as_map(self.clients@) == sweep_sessions(start.clients, now, horizon),
                distinct_keys(self.connections@),
                as_map(self.connections@) == start.connections.remove_keys(
                    evicted@.take(k as int).to_set(),
                ),
            decreases evicted.len() - k,
        {
            let e = evicted[k];
            proof {
                let seen = evicted@.take(k as int);
                assert(evicted@.take(k as int + 1) =~= seen.push(e));
                seen.lemma_push_to_set_commute(e);
            }
            // A stale endpoint is registered, and is on the list once.
            let found = find_connection(&self.connections, e);
            proof {
                assert(evicted@.to_set().contains(e));
                assert(!evicted@.take(k as int).to_set().contains(e)) by {
                    if evicted@.take(k as int).contains(e) {
                        let x = choose|x: int|
                            0 <= x < k && evicted@.take(k as int)[x] == e;
                        assert(evicted@[x] == evicted@[k as int]);
                    }
                }
                assert(as_map(self.connections@).contains_key(e));
            }
            let c = found.unwrap();
            proof {
                lemma_remove(self.connections@, c as int);
            }
            self.connections.remove(c);
            proof {
                assert(as_map(self.connections@) =~= start.connections.remove_keys(
                    evicted@.take(k as int + 1).to_set(),
                ));
            }
            k = k + 1;
        }
        proof {
            assert(evicted@.take(k as int) =~= evicted@);
            lemma_sweep_consistent(start, now, horizon);
        }
        evicted
    }
}

} // verus!
