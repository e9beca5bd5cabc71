//! The session registry as a mathematical object.
//!
//! A registry is a pair of maps.  The forward map takes a session
//! identifier to the members of that session, each with the time it was
//! last heard from; the reverse map takes an endpoint to the identifier of
//! the session it belongs to.  Every operation of the relay is a function
//! from registries to registries, defined here; the executable server is
//! specified by these functions.

use vstd::prelude::*;
use crate::command::{classify, received, MessageView};
use crate::endpoint::Endpoint;

verus! {

/// A session identifier: the bytes of the token that named the session.
/// Identifiers are equal when their bytes are.
pub type SessionId = Seq<u8>;

/// The members of one session, each with its last-seen time.
pub type Members = Map<Endpoint, u64>;

/// An endpoint last heard from at `last_seen` has been silent for more than
/// `horizon` at time `now`.  A clock that ran backwards makes nobody stale.
pub open spec fn expired(last_seen: u64, now: u64, horizon: u64) -> bool {
    now - last_seen > horizon
}

/// The members of `m` that are not stale at `now`.
pub open spec fn survivors(m: Members, now: u64, horizon: u64) -> Members {
    Map::new(|e: Endpoint| m.contains_key(e) && !expired(m[e], now, horizon), |e: Endpoint| m[e])
}

/// The members of `m` that are stale at `now`.
pub open spec fn casualties(m: Members, now: u64, horizon: u64) -> Set<Endpoint> {
    Set::new(|e: Endpoint| m.contains_key(e) && expired(m[e], now, horizon))
}

/// A forward map after the stale members were dropped from every session,
/// and the sessions that this emptied with them.
pub open spec fn sweep_sessions(
    clients: Map<SessionId, Members>,
    now: u64,
    horizon: u64,
) -> Map<SessionId, Members> {
    Map::new(
        |s: SessionId|
            clients.contains_key(s) && !survivors(clients[s], now, horizon).is_empty(),
        |s: SessionId| survivors(clients[s], now, horizon),
    )
}

/// The stale members of all the sessions of a forward map.
pub open spec fn stale_members(
    clients: Map<SessionId, Members>,
    now: u64,
    horizon: u64,
) -> Set<Endpoint> {
    Set::new(
        |e: Endpoint|
            exists|s: SessionId|
                clients.contains_key(s) && #[trigger] casualties(clients[s], now, horizon).contains(
                    e,
                ),
    )
}

/// Why a request to join was not carried out.
#[derive(Clone, Copy, Debug, PartialEq, Eq, Structural)]
pub enum Rejection {
    /// The request did not present the admission secret.
    BadSecret,
    /// The endpoint is registered already.  This is no error: the endpoint
    /// is in a session, and the registry stays as it is.
    AlreadyRegistered,
}

/// The answer to a request to join a session.
#[derive(Clone, Copy, Debug, PartialEq, Eq, Structural)]
pub enum Admission {
    Accepted,
    Rejected(Rejection),
}

/// What the relay does about a datagram, besides updating the registry.
pub ghost enum Reaction {
    /// The datagram asked to join a session; this was the answer.
    Admission(Admission),
    /// The datagram asked to leave a session; `removed` says whether the
    /// sender was a member of it, and so left.
    Departure { removed: bool },
    /// The datagram is data from a registered endpoint: `payload` goes to
    /// each of `peers`.
    Forward { payload: Seq<u8>, peers: Set<Endpoint> },
    /// The datagram is data from an endpoint that is not registered: it is
    /// dropped.
    Drop,
}

/// The registry: who is in which session, told both ways.
pub ghost struct Registry {
    /// Session identifier to members.
    pub clients: Map<SessionId, Members>,
    /// Endpoint to the identifier of its session.
    pub connections: Map<Endpoint, SessionId>,
}

impl Registry {
    /// The registry of a server that has admitted nobody.
    pub open spec fn empty() -> Registry {
        Registry { clients: Map::empty(), connections: Map::empty() }
    }

    /// `e` is a member of session `s`.
    pub open spec fn is_member(self, s: SessionId, e: Endpoint) -> bool {
        self.clients.contains_key(s) && self.clients[s].contains_key(e)
    }

    /// The members of session `s`; none where there is no such session.
    pub open spec fn members(self, s: SessionId) -> Members {
        if self.clients.contains_key(s) {
            self.clients[s]
        } else {
            Map::empty()
        }
    }

    /// The two maps agree, and no session is empty.
    pub open spec fn consistent(self) -> bool {
        &&& self.clients.dom().finite()
        &&& self.connections.dom().finite()
        &&& forall|e: Endpoint| #[trigger]
            self.connections.contains_key(e) ==> self.is_member(self.connections[e], e)
        &&& forall|s: SessionId, e: Endpoint| #[trigger]
            self.is_member(s, e) ==> self.connections.contains_key(e) && self.connections[e] == s
        &&& forall|s: SessionId| #[trigger]
            self.clients.contains_key(s) ==> self.clients[s].dom().finite()
                && !self.clients[s].is_empty()
    }

    /// The answer to `e` asking to join a session with the secret
    /// `offered`, where the admission secret is `secret`.
    pub open spec fn admission(self, secret: Seq<u8>, offered: Seq<u8>, e: Endpoint) -> Admission {
        if offered != secret {
            Admission::Rejected(Rejection::BadSecret)
        } else if self.connections.contains_key(e) {
            Admission::Rejected(Rejection::AlreadyRegistered)
        } else {
            Admission::Accepted
        }
    }

    /// The registry after `e` asked to join `session` at time `now`: an
    /// endpoint that is registered already stays where it is, untouched.
    pub open spec fn register(self, session: SessionId, e: Endpoint, now: u64) -> Registry {
        if self.connections.contains_key(e) {
            self
        } else {
            Registry {
                clients: self.clients.insert(session, self.members(session).insert(e, now)),
                connections: self.connections.insert(e, session),
            }
        }
    }

    /// The registry after `e` asked to leave `session`: nothing changes
    /// unless `e` is registered under exactly that identifier; a session
    /// that loses its last member goes with it.
    pub open spec fn deregister(self, session: SessionId, e: Endpoint) -> Registry {
        if self.connections.contains_key(e) && self.connections[e] == session {
            let rest = self.members(session).remove(e);
            Registry {
                clients: if rest.is_empty() {
                    self.clients.remove(session)
                } else {
                    self.clients.insert(session, rest)
                },
                connections: self.connections.remove(e),
            }
        } else {
            self
        }
    }

    /// The registry after `e` was heard from at time `now`: its last-seen
    /// time is `now`; nothing changes where `e` is not registered.
    pub open spec fn refresh(self, e: Endpoint, now: u64) -> Registry {
        if self.connections.contains_key(e) {
            let s = self.connections[e];
            Registry { clients: self.clients.insert(s, self.members(s).insert(e, now)), ..self }
        } else {
            self
        }
    }

    /// The endpoints that a datagram from `e` is forwarded to: the other
    /// members of its session.
    pub open spec fn peers(self, e: Endpoint) -> Set<Endpoint> {
        if self.connections.contains_key(e) {
            self.members(self.connections[e]).dom().remove(e)
        } else {
            Set::empty()
        }
    }

    /// `e` is registered and stale at `now`.
    pub open spec fn is_stale(self, e: Endpoint, now: u64, horizon: u64) -> bool {
        self.connections.contains_key(e) && expired(
            self.members(self.connections[e])[e],
            now,
            horizon,
        )
    }

    /// The registered endpoints that are stale at `now`.
    pub open spec fn stale(self, now: u64, horizon: u64) -> Set<Endpoint> {
        Set::new(|e: Endpoint| self.is_stale(e, now, horizon))
    }

    /// The registry after the datagram `datagram` came from `sender` at
    /// time `now`, where the admission secret is `secret`.
    pub open spec fn handle(
        self,
        secret: Seq<u8>,
        datagram: Seq<u8>,
        sender: Endpoint,
        now: u64,
    ) -> Registry {
        match classify(received(datagram)) {
            MessageView::Connect { secret: offered, session } => {
                if self.admission(secret, offered, sender) == Admission::Accepted {
                    self.register(session, sender, now)
                } else {
                    self
                }
            },
            MessageView::Disconnect { session } => self.deregister(session, sender),
            MessageView::Data => self.refresh(sender, now),
        }
    }

    /// What the relay does about the datagram `datagram` from `sender`,
    /// where the admission secret is `secret`.
    pub open spec fn reaction(
        self,
        secret: Seq<u8>,
        datagram: Seq<u8>,
        sender: Endpoint,
    ) -> Reaction {
        match classify(received(datagram)) {
            MessageView::Connect { secret: offered, session } => Reaction::Admission(
                self.admission(secret, offered, sender),
            ),
            MessageView::Disconnect { session } => Reaction::Departure {
                removed: self.connections.contains_key(sender) && self.connections[sender]
                    == session,
            },
            MessageView::Data => {
                if self.connections.contains_key(sender) {
                    Reaction::Forward { payload: received(datagram), peers: self.peers(sender) }
                } else {
                    Reaction::Drop
                }
            },
        }
    }

    /// The registry after the stale endpoints were evicted at `now`: each
    /// session keeps its members that are not stale, a session with none
    /// left is gone, and the reverse map loses the evicted endpoints.
    pub open spec fn sweep(self, now: u64, horizon: u64) -> Registry {
        Registry {
            clients: sweep_sessions(self.clients, now, horizon),
            connections: self.connections.remove_keys(self.stale(now, horizon)),
        }
    }
}

/// A map with a key is not empty, and a finite one then has at least one
/// entry.
pub proof fn lemma_inhabited<K, V>(m: Map<K, V>, k: K)
    requires
        m.contains_key(k),
    ensures
        !m.is_empty(),
        m.dom().finite() ==> m.len() >= 1,
{
    if m.dom().finite() && m.len() == 0 {
        assert(m.dom() =~= Set::empty());
    }
}

/// Registration keeps a registry consistent.
pub proof fn lemma_register_consistent(r: Registry, session: SessionId, e: Endpoint, now: u64)
    requires
        r.consistent(),
    ensures
        r.register(session, e, now).consistent(),
{
    let q = r.register(session, e, now);
    if !r.connections.contains_key(e) {
        let joined = r.members(session).insert(e, now);
        assert(q.clients[session] == joined);
        if r.clients.contains_key(session) {
            assert(r.clients[session].dom().finite());
        }
        assert(joined.dom().finite());
        lemma_inhabited(joined, e);
        assert forall|x: Endpoint| #[trigger] q.connections.contains_key(x) implies q.is_member(
            q.connections[x],
            x,
        ) by {
            if x != e {
                assert(r.is_member(r.connections[x], x));
            }
        }
        assert forall|s: SessionId, x: Endpoint| #[trigger] q.is_member(s, x) implies (
        q.connections.contains_key(x) && q.connections[x] == s) by {
            if x == e {
                if s != session {
                    assert(r.is_member(s, x));
                }
            } else {
                assert(r.is_member(s, x));
            }
        }
        assert forall|s: SessionId| #[trigger] q.clients.contains_key(s) implies (
        q.clients[s].dom().finite() && !q.clients[s].is_empty()) by {
            if s != session {
                assert(r.clients.contains_key(s));
            }
        }
    }
}

/// Deregistration keeps a registry consistent.
pub proof fn lemma_deregister_consistent(r: Registry, session: SessionId, e: Endpoint)
    requires
        r.consistent(),
    ensures
        r.deregister(session, e).consistent(),
{
    let q = r.deregister(session, e);
    if r.connections.contains_key(e) && r.connections[e] == session {
        assert(r.is_member(session, e));
        let rest = r.members(session).remove(e);
        assert(rest.dom().finite());
        assert forall|x: Endpoint| #[trigger] q.connections.contains_key(x) implies q.is_member(
            q.connections[x],
            x,
        ) by {
            assert(r.is_member(r.connections[x], x));
            if r.connections[x] == session {
                assert(rest.contains_key(x));
                lemma_inhabited(rest, x);
            }
        }
        assert forall|s: SessionId, x: Endpoint| #[trigger] q.is_member(s, x) implies (
        q.connections.contains_key(x) && q.connections[x] == s) by {
            assert(r.is_member(s, x));
        }
        assert forall|s: SessionId| #[trigger] q.clients.contains_key(s) implies (
        q.clients[s].dom().finite() && !q.clients[s].is_empty()) by {
            if s != session {
                assert(r.clients.contains_key(s));
            }
        }
    }
}

/// Refreshing a last-seen time keeps a registry consistent.
pub proof fn lemma_refresh_consistent(r: Registry, e: Endpoint, now: u64)
    requires
        r.consistent(),
    ensures
        r.refresh(e, now).consistent(),
{
    let q = r.refresh(e, now);
    if r.connections.contains_key(e) {
        let s0 = r.connections[e];
        assert(r.is_member(s0, e));
        let touched = r.members(s0).insert(e, now);
        assert(touched.dom() =~= r.clients[s0].dom());
        lemma_inhabited(touched, e);
        assert forall|x: Endpoint| #[trigger] q.connections.contains_key(x) implies q.is_member(
            q.connections[x],
            x,
        ) by {
            assert(r.is_member(r.connections[x], x));
        }
        assert forall|s: SessionId, x: Endpoint| #[trigger] q.is_member(s, x) implies (
        q.connections.contains_key(x) && q.connections[x] == s) by {
            assert(r.is_member(s, x));
        }
        assert forall|s: SessionId| #[trigger] q.clients.contains_key(s) implies (
        q.clients[s].dom().finite() && !q.clients[s].is_empty()) by {
            if s != s0 {
                assert(r.clients.contains_key(s));
            }
        }
    }
}

/// The survivors of a finite member map are finitely many.
pub proof fn lemma_survivors_finite(m: Members, now: u64, horizon: u64)
    requires
        m.dom().finite(),
    ensures
        survivors(m, now, horizon).dom().finite(),
{
    vstd::set_lib::lemma_len_subset(survivors(m, now, horizon).dom(), m.dom());
}

/// What a member that joins does to the survivors and to the casualties of
/// its session.
pub proof fn lemma_survivors_insert(m: Members, e: Endpoint, t: u64, now: u64, horizon: u64)
    requires
        !m.contains_key(e),
    ensures
        survivors(m.insert(e, t), now, horizon) == if expired(t, now, horizon) {
            survivors(m, now, horizon)
        } else {
            survivors(m, now, horizon).insert(e, t)
        },
        casualties(m.insert(e, t), now, horizon) == if expired(t, now, horizon) {
            casualties(m, now, horizon).insert(e)
        } else {
            casualties(m, now, horizon)
        },
{
    if expired(t, now, horizon) {
        assert(survivors(m.insert(e, t), now, horizon) =~= survivors(m, now, horizon));
        assert(casualties(m.insert(e, t), now, horizon) =~= casualties(m, now, horizon).insert(e));
    } else {
        assert(survivors(m.insert(e, t), now, horizon) =~= survivors(m, now, horizon).insert(e, t));
        assert(casualties(m.insert(e, t), now, horizon) =~= casualties(m, now, horizon));
    }
}

/// What a new session does to a swept forward map and to the stale members.
pub proof fn lemma_sweep_sessions_insert(
    clients: Map<SessionId, Members>,
    s: SessionId,
    m: Members,
    now: u64,
    horizon: u64,
)
    requires
        !clients.contains_key(s),
    ensures
        sweep_sessions(clients.insert(s, m), now, horizon) == if survivors(
            m,
            now,
            horizon,
        ).is_empty() {
            sweep_sessions(clients, now, horizon)
        } else {
            sweep_sessions(clients, now, horizon).insert(s, survivors(m, now, horizon))
        },
        stale_members(clients.insert(s, m), now, horizon) == stale_members(
            clients,
            now,
            horizon,
        ).union(casualties(m, now, horizon)),
{
    let grown = clients.insert(s, m);
    if survivors(m, now, horizon).is_empty() {
        assert(sweep_sessions(grown, now, horizon) =~= sweep_sessions(clients, now, horizon));
    } else {
        assert(sweep_sessions(grown, now, horizon) =~= sweep_sessions(
            clients,
            now,
            horizon,
        ).insert(s, survivors(m, now, horizon)));
    }
    assert forall|e: Endpoint|
        stale_members(grown, now, horizon).contains(e) <==> stale_members(
            clients,
            now,
            horizon,
        ).union(casualties(m, now, horizon)).contains(e) by {
        if stale_members(grown, now, horizon).contains(e) {
            let x = choose|x: SessionId|
                grown.contains_key(x) && #[trigger] casualties(grown[x], now, horizon).contains(e);
            if x != s {
                assert(clients.contains_key(x) && casualties(clients[x], now, horizon).contains(e));
            }
        }
        if stale_members(clients, now, horizon).contains(e) {
            let x = choose|x: SessionId|
                clients.contains_key(x) && #[trigger] casualties(clients[x], now, horizon).contains(
                    e,
                );
            assert(grown.contains_key(x) && casualties(grown[x], now, horizon).contains(e));
        }
        if casualties(m, now, horizon).contains(e) {
            assert(grown.contains_key(s) && casualties(grown[s], now, horizon).contains(e));
        }
    }
    assert(stale_members(grown, now, horizon) =~= stale_members(clients, now, horizon).union(
        casualties(m, now, horizon),
    ));
}

/// In a consistent registry the stale members of the sessions are the stale
/// registered endpoints.
pub proof fn lemma_stale_members(r: Registry, now: u64, horizon: u64)
    requires
        r.consistent(),
    ensures
        stale_members(r.clients, now, horizon) == r.stale(now, horizon),
{
    assert forall|e: Endpoint|
        stale_members(r.clients, now, horizon).contains(e) <==> r.stale(now, horizon).contains(
            e,
        ) by {
        if stale_members(r.clients, now, horizon).contains(e) {
            let x = choose|x: SessionId|
                r.clients.contains_key(x) && #[trigger] casualties(
                    r.clients[x],
                    now,
                    horizon,
                ).contains(e);
            assert(r.is_member(x, e));
        }
        if r.is_stale(e, now, horizon) {
            let x = r.connections[e];
            assert(r.is_member(x, e));
            assert(casualties(r.clients[x], now, horizon).contains(e));
        }
    }
    assert(stale_members(r.clients, now, horizon) =~= r.stale(now, horizon));
}

/// Evicting the stale endpoints keeps a registry consistent.
pub proof fn lemma_sweep_consistent(r: Registry, now: u64, horizon: u64)
    requires
        r.consistent(),
    ensures
        r.sweep(now, horizon).consistent(),
{
    let q = r.sweep(now, horizon);
    vstd::set_lib::lemma_len_subset(q.clients.dom(), r.clients.dom());
    vstd::set_lib::lemma_len_subset(q.connections.dom(), r.connections.dom());
    assert forall|x: Endpoint| #[trigger] q.connections.contains_key(x) implies q.is_member(
        q.connections[x],
        x,
    ) by {
        let s = r.connections[x];
        assert(r.is_member(s, x));
        assert(survivors(r.clients[s], now, horizon).contains_key(x));
        lemma_inhabited(survivors(r.clients[s], now, horizon), x);
    }
    assert forall|s: SessionId, x: Endpoint| #[trigger] q.is_member(s, x) implies (
    q.connections.contains_key(x) && q.connections[x] == s) by {
        assert(r.is_member(s, x));
    }
    assert forall|s: SessionId| #[trigger] q.clients.contains_key(s) implies (
    q.clients[s].dom().finite() && !q.clients[s].is_empty()) by {
        assert(r.clients.contains_key(s));
        lemma_survivors_finite(r.clients[s], now, horizon);
    }
}

} // verus!
