//! What holds of the relay, whatever it has been through.
//!
//! The first three laws are the invariants of the registry, stated of every
//! well-formed server; every operation of the server keeps it well-formed.
//! The others relate the operations to each other, over the registry that a
//! server denotes.

use vstd::prelude::*;
use vstd::utf8::{encode_utf8_valid_utf8, valid_utf8, valid_utf8_concat};
use crate::command::{
    classify, connect_word, disconnect_word, is_word, lemma_command_words,
    lemma_tokens_after_space, lemma_tokens_after_word, lemma_tokens_are_words, lemma_trimmed,
    received, tokens, trimmed, MessageView, CONNECT_STR, DISCONNECT_STR, MAX_PACKET_LEN,
};
use crate::endpoint::Endpoint;
use crate::registry::{
    expired, lemma_deregister_consistent, lemma_inhabited, lemma_refresh_consistent,
    lemma_register_consistent, lemma_sweep_consistent, survivors, Admission, Reaction, Registry,
    Rejection, SessionId,
};
use crate::server::Server;

verus! {

/// Every endpoint of the reverse map is a member of the session that the
/// map gives for it.
pub proof fn reverse_entries_are_members(server: &Server, e: Endpoint)
    requires
        server.wf(),
        server@.connections.contains_key(e),
    ensures
        server@.clients.contains_key(server@.connections[e]),
        server@.clients[server@.connections[e]].contains_key(e),
{
    server.lemma_consistent();
    assert(server@.is_member(server@.connections[e], e));
}

/// Every session has finitely many members and at least one, and the
/// reverse map takes each of them to the session.
pub proof fn sessions_are_inhabited(server: &Server, s: SessionId)
    requires
        server.wf(),
        server@.clients.contains_key(s),
    ensures
        server@.clients[s].dom().finite(),
        server@.clients[s].len() >= 1,
        forall|e: Endpoint| #[trigger]
            server@.clients[s].contains_key(e) ==> server@.connections.contains_key(e)
                && server@.connections[e] == s,
{
    server.lemma_consistent();
    let r = server@;
    assert(!r.clients[s].is_empty());
    if r.clients[s].len() == 0 {
        assert(r.clients[s].dom() =~= Set::empty());
    }
    assert forall|e: Endpoint| #[trigger] r.clients[s].contains_key(e) implies (
    r.connections.contains_key(e) && r.connections[e] == s) by {
        assert(r.is_member(s, e));
    }
}

/// No endpoint is a member of two sessions.
pub proof fn one_session_per_endpoint(server: &Server, e: Endpoint, s1: SessionId, s2: SessionId)
    requires
        server.wf(),
        server@.is_member(s1, e),
        server@.is_member(s2, e),
    ensures
        s1 == s2,
{
    server.lemma_consistent();
}

/// Whatever datagram comes, from whomever and whenever, a consistent
/// registry stays consistent; and so it does when it is swept.
pub proof fn registry_stays_consistent(
    r: Registry,
    secret: Seq<u8>,
    datagram: Seq<u8>,
    sender: Endpoint,
    now: u64,
    horizon: u64,
)
    requires
        r.consistent(),
    ensures
        r.handle(secret, datagram, sender, now).consistent(),
        r.sweep(now, horizon).consistent(),
{
    match classify(received(datagram)) {
        MessageView::Connect { secret: offered, session } => {
            lemma_register_consistent(r, session, sender, now);
        },
        MessageView::Disconnect { session } => {
            lemma_deregister_consistent(r, session, sender);
        },
        MessageView::Data => {
            lemma_refresh_consistent(r, sender, now);
        },
    }
    lemma_sweep_consistent(r, now, horizon);
}

/// What is forwarded is what was received: the payload of the datagram, whole
/// where it is no longer than [`MAX_PACKET_LEN`], else its first
/// [`MAX_PACKET_LEN`] bytes.
pub proof fn forwarded_payload_is_received(
    r: Registry,
    secret: Seq<u8>,
    datagram: Seq<u8>,
    sender: Endpoint,
)
    ensures
        r.reaction(secret, datagram, sender) matches Reaction::Forward { payload, .. } ==> {
            &&& payload == received(datagram)
            &&& datagram.len() <= MAX_PACKET_LEN ==> payload == datagram
            &&& datagram.len() > MAX_PACKET_LEN ==> payload == datagram.take(
                MAX_PACKET_LEN as int,
            )
        },
{
}

/// Nothing is forwarded to the endpoint that it came from.
pub proof fn sender_is_no_peer(r: Registry, secret: Seq<u8>, datagram: Seq<u8>, sender: Endpoint)
    ensures
        !r.peers(sender).contains(sender),
        r.reaction(secret, datagram, sender) matches Reaction::Forward { peers, .. }
            ==> !peers.contains(sender),
{
}

/// Data from a member of a session of `k` members goes to `k - 1`
/// endpoints: the other members.
pub proof fn fan_out_is_all_but_one(r: Registry, sender: Endpoint)
    requires
        r.consistent(),
        r.connections.contains_key(sender),
    ensures
        r.peers(sender).finite(),
        r.peers(sender).len() == r.clients[r.connections[sender]].len() - 1,
        forall|e: Endpoint|
            r.peers(sender).contains(e) <==> e != sender && r.is_member(r.connections[sender], e),
{
    assert(r.is_member(r.connections[sender], sender));
}

/// A request to join that comes twice leaves the registry as the first one
/// left it, whenever the second comes.
pub proof fn reconnect_changes_nothing(
    r: Registry,
    secret: Seq<u8>,
    datagram: Seq<u8>,
    sender: Endpoint,
    first: u64,
    second: u64,
)
    requires
        classify(received(datagram)) is Connect,
    ensures
        r.handle(secret, datagram, sender, first).handle(secret, datagram, sender, second)
            == r.handle(secret, datagram, sender, first),
{
}

/// Leaving undoes joining: where an endpoint that is not registered joins a
/// session and then leaves it, the registry is what it was before.
pub proof fn leaving_undoes_joining(r: Registry, session: SessionId, e: Endpoint, now: u64)
    requires
        r.consistent(),
        !r.connections.contains_key(e),
    ensures
        r.register(session, e, now).deregister(session, e) == r,
{
    let joined = r.register(session, e, now);
    let left = joined.deregister(session, e);
    if r.clients.contains_key(session) {
        if r.clients[session].contains_key(e) {
            assert(r.is_member(session, e));
        }
        assert(joined.members(session).remove(e) =~= r.clients[session]);
        assert(!r.clients[session].is_empty());
    } else {
        assert(joined.members(session).remove(e) =~= Map::<Endpoint, u64>::empty());
    }
    assert(left.clients =~= r.clients);
    assert(left.connections =~= r.connections);
}

/// The same, of the datagrams: a request to join that is accepted, followed
/// by a request of the same endpoint to leave the same session, leaves the
/// registry as it was.
pub proof fn disconnect_undoes_connect(
    r: Registry,
    secret: Seq<u8>,
    connect: Seq<u8>,
    disconnect: Seq<u8>,
    sender: Endpoint,
    first: u64,
    second: u64,
)
    requires
        r.consistent(),
        classify(received(connect)) matches MessageView::Connect { secret: offered, session }
            && offered == secret && classify(received(disconnect)) == (MessageView::Disconnect {
            session,
        }),
        !r.connections.contains_key(sender),
    ensures
        r.reaction(secret, connect, sender) == Reaction::Admission(Admission::Accepted),
        r.handle(secret, connect, sender, first).handle(secret, disconnect, sender, second) == r,
{
    let session = classify(received(connect))->Connect_session;
    leaving_undoes_joining(r, session, sender, first);
}

/// The sweep spares the live: an endpoint that is not stale stays in its
/// session, with its last-seen time.
pub proof fn sweep_spares_the_live(r: Registry, now: u64, horizon: u64, e: Endpoint)
    requires
        r.consistent(),
        r.connections.contains_key(e),
        !expired(r.clients[r.connections[e]][e], now, horizon),
    ensures
        !r.stale(now, horizon).contains(e),
        r.sweep(now, horizon).connections.contains_key(e),
        r.sweep(now, horizon).connections[e] == r.connections[e],
        r.sweep(now, horizon).is_member(r.connections[e], e),
        r.sweep(now, horizon).clients[r.connections[e]][e] == r.clients[r.connections[e]][e],
{
    let s = r.connections[e];
    assert(r.is_member(s, e));
    lemma_inhabited(survivors(r.clients[s], now, horizon), e);
}

/// The sweep takes the stale, and nobody else: what is left of the reverse
/// map are the endpoints that are not stale.
pub proof fn sweep_takes_the_stale(r: Registry, now: u64, horizon: u64, e: Endpoint)
    requires
        r.consistent(),
    ensures
        r.sweep(now, horizon).connections.contains_key(e) <==> r.connections.contains_key(e)
            && !expired(r.clients[r.connections[e]][e], now, horizon),
{
    if r.connections.contains_key(e) {
        assert(r.is_member(r.connections[e], e));
    }
}

/// A request to join with another secret than the admission secret is
/// rejected, and changes nothing.
pub proof fn wrong_secret_changes_nothing(
    r: Registry,
    secret: Seq<u8>,
    datagram: Seq<u8>,
    sender: Endpoint,
    now: u64,
)
    requires
        classify(received(datagram)) matches MessageView::Connect { secret: offered, .. }
            && offered != secret,
    ensures
        r.handle(secret, datagram, sender, now) == r,
        r.reaction(secret, datagram, sender) == Reaction::Admission(
            Admission::Rejected(Rejection::BadSecret),
        ),
{
}

/// The secret and the session name of a request are words: neither is
/// empty, and neither holds white space.
pub proof fn requests_carry_words(payload: Seq<u8>)
    ensures
        classify(payload) matches MessageView::Connect { secret, session } ==> is_word(secret)
            && is_word(session),
        classify(payload) matches MessageView::Disconnect { session } ==> is_word(session),
{
    let words = tokens(trimmed(payload));
    if words.len() >= 2 {
        lemma_tokens_are_words(trimmed(payload), 1);
    }
    if words.len() >= 3 {
        lemma_tokens_are_words(trimmed(payload), 2);
    }
}

/// A single byte below 0x80 is UTF-8.
proof fn lemma_ascii_byte_is_utf8(b: u8)
    requires
        b < 0x80,
    ensures
        valid_utf8(seq![b]),
{
    reveal_with_fuel(valid_utf8, 2);
    let s = seq![b];
    assert(vstd::utf8::pop_first_scalar(s) =~= Seq::<u8>::empty());
}

/// `CONNECT`, a secret and a session name, each a word of UTF-8, with a
/// space between them, ask to join that session with that secret; any
/// number of line feeds may follow.
pub proof fn connect_is_understood(secret: Seq<u8>, session: Seq<u8>, feeds: Seq<u8>)
    requires
        is_word(secret),
        is_word(session),
        valid_utf8(secret),
        valid_utf8(session),
        forall|k: int| 0 <= k < feeds.len() ==> feeds[k] == 0x0a,
    ensures
        classify(connect_word() + seq![0x20u8] + secret + seq![0x20u8] + session + feeds) == (
        MessageView::Connect { secret, session }),
{
    let space = seq![0x20u8];
    let body = connect_word() + space + secret + space + session;
    assert(valid_utf8(body + feeds)) by {
        lemma_command_words();
        encode_utf8_valid_utf8(CONNECT_STR@);
        lemma_ascii_byte_is_utf8(0x20);
        valid_utf8_concat(connect_word(), space);
        valid_utf8_concat(connect_word() + space, secret);
        valid_utf8_concat(connect_word() + space + secret, space);
        valid_utf8_concat(connect_word() + space + secret + space, session);
        lemma_line_feeds_are_utf8(feeds);
        valid_utf8_concat(body, feeds);
    }
    assert(tokens(body) == seq![connect_word(), secret, session]) by {
        assert(is_word(connect_word()));
        let tail3 = space + secret + space + session;
        let tail2 = secret + space + session;
        let tail1 = space + session;
        assert(body =~= connect_word() + tail3);
        assert(tail3 =~= space + tail2);
        assert(tail2 =~= secret + tail1);
        lemma_tokens_after_word(connect_word(), tail3);
        lemma_tokens_after_space(0x20, tail2);
        lemma_tokens_after_word(secret, tail1);
        lemma_tokens_after_space(0x20, session);
        assert(session =~= session + Seq::<u8>::empty());
        lemma_tokens_after_word(session, Seq::<u8>::empty());
        assert(seq![connect_word()] + (seq![secret] + (seq![session] + Seq::<
            Seq<u8>,
        >::empty())) =~= seq![connect_word(), secret, session]);
    }
    assert(body.last() == session.last());
    lemma_trimmed(body, feeds);
}

/// `DISCONNECT` and a session name, a word of UTF-8, with a space between
/// them, ask to leave that session; any number of line feeds may follow.
pub proof fn disconnect_is_understood(session: Seq<u8>, feeds: Seq<u8>)
    requires
        is_word(session),
        valid_utf8(session),
        forall|k: int| 0 <= k < feeds.len() ==> feeds[k] == 0x0a,
    ensures
        classify(disconnect_word() + seq![0x20u8] + session + feeds) == (MessageView::Disconnect {
            session,
        }),
{
    let space = seq![0x20u8];
    let body = disconnect_word() + space + session;
    assert(valid_utf8(body + feeds)) by {
        lemma_command_words();
        encode_utf8_valid_utf8(DISCONNECT_STR@);
        lemma_ascii_byte_is_utf8(0x20);
        valid_utf8_concat(disconnect_word(), space);
        valid_utf8_concat(disconnect_word() + space, session);
        lemma_line_feeds_are_utf8(feeds);
        valid_utf8_concat(body, feeds);
    }
    assert(tokens(body) == seq![disconnect_word(), session]) by {
        assert(is_word(disconnect_word()));
        let tail = space + session;
        assert(body =~= disconnect_word() + tail);
        lemma_tokens_after_word(disconnect_word(), tail);
        lemma_tokens_after_space(0x20, session);
        assert(session =~= session + Seq::<u8>::empty());
        lemma_tokens_after_word(session, Seq::<u8>::empty());
        assert(seq![disconnect_word()] + (seq![session] + Seq::<Seq<u8>>::empty()) =~= seq![
            disconnect_word(),
            session,
        ]);
    }
    assert(body.last() == session.last());
    lemma_trimmed(body, feeds);
}

/// Line feeds are UTF-8.
proof fn lemma_line_feeds_are_utf8(feeds: Seq<u8>)
    requires
        forall|k: int| 0 <= k < feeds.len() ==> feeds[k] == 0x0a,
    ensures
        valid_utf8(feeds),
    decreases feeds.len(),
{
    if feeds.len() > 0 {
        lemma_ascii_byte_is_utf8(0x0a);
        lemma_line_feeds_are_utf8(feeds.drop_first());
        assert(feeds =~= seq![0x0au8] + feeds.drop_first());
        valid_utf8_concat(seq![0x0au8], feeds.drop_first());
    }
}

/// A payload of no bytes is data.
pub proof fn empty_payload_is_data()
    ensures
        classify(Seq::<u8>::empty()) == MessageView::Data,
{
}

/// A payload that is not UTF-8 is data, whatever it starts with.
pub proof fn binary_is_data(payload: Seq<u8>)
    requires
        !valid_utf8(payload),
    ensures
        classify(payload) == MessageView::Data,
{
}

/// Data from an endpoint that is not registered is dropped, and changes
/// nothing.
pub proof fn stranger_is_dropped(
    r: Registry,
    secret: Seq<u8>,
    datagram: Seq<u8>,
    sender: Endpoint,
    now: u64,
)
    requires
        classify(received(datagram)) is Data,
        !r.connections.contains_key(sender),
    ensures
        r.handle(secret, datagram, sender, now) == r,
        r.reaction(secret, datagram, sender) == Reaction::Drop,
{
}

/// Data from the only member of a session goes nowhere, and refreshes the
/// member's last-seen time.
pub proof fn alone_in_session(
    r: Registry,
    secret: Seq<u8>,
    datagram: Seq<u8>,
    sender: Endpoint,
    now: u64,
)
    requires
        r.consistent(),
        classify(received(datagram)) is Data,
        r.connections.contains_key(sender),
        r.clients[r.connections[sender]].len() == 1,
    ensures
        r.reaction(secret, datagram, sender) == (Reaction::Forward {
            payload: received(datagram),
            peers: Set::empty(),
        }),
        r.handle(secret, datagram, sender, now).connections == r.connections,
        r.handle(secret, datagram, sender, now).clients[r.connections[sender]][sender] == now,
{
    fan_out_is_all_but_one(r, sender);
    assert(r.peers(sender) =~= Set::empty());
}

} // verus!
