use udp_relay::endpoint::{Endpoint, Host};
use udp_relay::registry::{Admission, Rejection};
use udp_relay::server::{is_expired, Outcome, Server};

const T0: u64 = 1_000_000;

fn server() -> Server {
    Server::new("S".to_string(), "0.0.0.0:8080".to_string())
}

fn a() -> Endpoint {
    Endpoint::v4(1, 2, 3, 4, 10)
}

fn b() -> Endpoint {
    Endpoint::v4(5, 6, 7, 8, 20)
}

fn c() -> Endpoint {
    Endpoint::v4(9, 10, 11, 12, 30)
}

/// The two tables agree: each registered endpoint is a member of the
/// session it is registered under, and each member of each of the given
/// sessions is registered under that session.
fn tables_agree(server: &Server, endpoints: &[Endpoint], sessions: &[&[u8]]) {
    let mut registered = 0;
    for e in endpoints {
        if let Some(session) = server.session_of(*e) {
            registered += 1;
            assert!(server.members(&session).contains(e));
            assert!(server.last_seen(*e).is_some());
        } else {
            assert!(server.last_seen(*e).is_none());
        }
    }
    assert_eq!(server.client_count(), registered);
    let mut live = 0;
    for s in sessions {
        let members = server.members(s);
        if !members.is_empty() {
            live += 1;
        }
        for m in members {
            assert_eq!(server.session_of(m), Some(s.to_vec()));
        }
    }
    assert_eq!(server.session_count(), live);
}

#[test]
fn a_new_server_is_empty() {
    let s = server();
    assert_eq!(s.session_count(), 0);
    assert_eq!(s.client_count(), 0);
    assert_eq!(s.session_of(a()), None);
    assert_eq!(s.last_seen(a()), None);
    assert!(s.members(b"room1").is_empty());
    assert_eq!(s.addr(), "0.0.0.0:8080");
}

#[test]
fn registering_creates_the_session() {
    let mut s = server();
    assert!(s.register_client(b"room1".to_vec(), a(), T0));
    assert_eq!(s.session_count(), 1);
    assert_eq!(s.client_count(), 1);
    assert_eq!(s.session_of(a()), Some(b"room1".to_vec()));
    assert_eq!(s.last_seen(a()), Some(T0));
    assert_eq!(s.members(b"room1"), vec![a()]);
    tables_agree(&s, &[a(), b(), c()], &[b"room1"]);
}

#[test]
fn registering_joins_an_existing_session() {
    let mut s = server();
    assert!(s.register_client(b"room1".to_vec(), a(), T0));
    assert!(s.register_client(b"room1".to_vec(), b(), T0 + 1));
    assert!(s.register_client(b"room2".to_vec(), c(), T0 + 2));
    assert_eq!(s.session_count(), 2);
    assert_eq!(s.client_count(), 3);
    let room1 = s.members(b"room1");
    assert_eq!(room1.len(), 2);
    assert!(room1.contains(&a()) && room1.contains(&b()));
    assert_eq!(s.members(b"room2"), vec![c()]);
    assert_eq!(s.last_seen(b()), Some(T0 + 1));
    tables_agree(&s, &[a(), b(), c()], &[b"room1", b"room2"]);
}

#[test]
fn an_endpoint_is_in_one_session_only() {
    let mut s = server();
    assert!(s.register_client(b"room1".to_vec(), a(), T0));
    assert!(!s.register_client(b"room2".to_vec(), a(), T0 + 5));
    assert_eq!(s.session_of(a()), Some(b"room1".to_vec()));
    assert!(s.members(b"room2").is_empty());
    assert_eq!(s.session_count(), 1);
    assert_eq!(s.last_seen(a()), Some(T0));
    tables_agree(&s, &[a()], &[b"room1", b"room2"]);
}

#[test]
fn registering_twice_is_registering_once() {
    let mut once = server();
    let mut twice = server();
    assert!(once.register_client(b"room1".to_vec(), a(), T0));
    assert!(twice.register_client(b"room1".to_vec(), a(), T0));
    assert!(!twice.register_client(b"room1".to_vec(), a(), T0 + 60));
    assert_eq!(twice.session_count(), once.session_count());
    assert_eq!(twice.client_count(), once.client_count());
    assert_eq!(twice.members(b"room1"), once.members(b"room1"));
    assert_eq!(twice.session_of(a()), once.session_of(a()));
    assert_eq!(twice.last_seen(a()), once.last_seen(a()));
}

#[test]
fn session_names_are_compared_byte_by_byte() {
    let mut s = server();
    assert!(s.register_client(b"room1".to_vec(), a(), T0));
    assert!(s.register_client(b"Room1".to_vec(), b(), T0));
    assert!(s.register_client(b"room1 ".to_vec(), c(), T0));
    assert_eq!(s.session_count(), 3);
    assert_eq!(s.members(b"room1"), vec![a()]);
    assert_eq!(s.members(b"Room1"), vec![b()]);
    assert_eq!(s.members(b"room1 "), vec![c()]);
}

#[test]
fn endpoints_differ_by_port_and_by_host() {
    let mut s = server();
    let same_host = Endpoint::v4(1, 2, 3, 4, 11);
    let v6 = Endpoint::v6(0x0102_0304, 10);
    assert!(s.register_client(b"room1".to_vec(), a(), T0));
    assert!(s.register_client(b"room1".to_vec(), same_host, T0));
    assert!(s.register_client(b"room1".to_vec(), v6, T0));
    assert_eq!(s.members(b"room1").len(), 3);
    assert_eq!(a().host, Host::V4(0x0102_0304));
    assert_eq!(a().port, 10);
    assert_eq!(v6.host, Host::V6 { address: 0x0102_0304, flowinfo: 0, scope_id: 0 });
    assert_eq!(Endpoint::v4(255, 255, 255, 255, 65535).host, Host::V4(u32::MAX));
    assert_eq!(Endpoint::v4(0, 0, 0, 0, 0), Endpoint { host: Host::V4(0), port: 0 });
}

#[test]
fn deregistering_the_last_member_removes_the_session() {
    let mut s = server();
    assert!(s.register_client(b"room1".to_vec(), a(), T0));
    assert!(s.deregister_client(b"room1", a()));
    assert_eq!(s.session_count(), 0);
    assert_eq!(s.client_count(), 0);
    assert_eq!(s.session_of(a()), None);
    assert!(s.members(b"room1").is_empty());
}

#[test]
fn deregistering_undoes_registering() {
    let mut s = server();
    assert!(s.register_client(b"room1".to_vec(), a(), T0));
    assert!(s.register_client(b"room2".to_vec(), b(), T0 + 1));
    // c joins a session that has a member, and leaves it
    assert!(s.register_client(b"room1".to_vec(), c(), T0 + 2));
    assert!(s.deregister_client(b"room1", c()));
    assert_eq!(s.session_count(), 2);
    assert_eq!(s.client_count(), 2);
    assert_eq!(s.members(b"room1"), vec![a()]);
    assert_eq!(s.members(b"room2"), vec![b()]);
    assert_eq!(s.last_seen(a()), Some(T0));
    assert_eq!(s.last_seen(b()), Some(T0 + 1));
    assert_eq!(s.session_of(c()), None);
    // c opens a session of its own, and leaves it
    assert!(s.register_client(b"room3".to_vec(), c(), T0 + 3));
    assert!(s.deregister_client(b"room3", c()));
    assert_eq!(s.session_count(), 2);
    assert_eq!(s.client_count(), 2);
    assert!(s.members(b"room3").is_empty());
    tables_agree(&s, &[a(), b(), c()], &[b"room1", b"room2", b"room3"]);
}

#[test]
fn deregistering_from_another_session_changes_nothing() {
    let mut s = server();
    assert!(s.register_client(b"room1".to_vec(), a(), T0));
    assert!(s.register_client(b"room2".to_vec(), b(), T0));
    assert!(!s.deregister_client(b"room2", a()));
    assert!(!s.deregister_client(b"nowhere", a()));
    assert_eq!(s.session_of(a()), Some(b"room1".to_vec()));
    assert_eq!(s.members(b"room1"), vec![a()]);
    assert_eq!(s.members(b"room2"), vec![b()]);
    assert_eq!(s.client_count(), 2);
}

#[test]
fn deregistering_a_stranger_changes_nothing() {
    let mut s = server();
    assert!(s.register_client(b"room1".to_vec(), a(), T0));
    assert!(!s.deregister_client(b"room1", b()));
    assert_eq!(s.members(b"room1"), vec![a()]);
    assert_eq!(s.client_count(), 1);
}

#[test]
fn forwarding_goes_to_the_others() {
    let mut s = server();
    assert!(s.register_client(b"chat".to_vec(), a(), T0));
    assert!(s.register_client(b"chat".to_vec(), b(), T0));
    assert!(s.register_client(b"chat".to_vec(), c(), T0));
    assert!(s.register_client(b"other".to_vec(), Endpoint::v4(7, 7, 7, 7, 7), T0));
    let peers = s.forward_packet(b(), T0 + 9).expect("b is registered");
    assert_eq!(peers.len(), 2);
    assert!(peers.contains(&a()) && peers.contains(&c()));
    assert!(!peers.contains(&b()));
    assert_eq!(s.last_seen(b()), Some(T0 + 9));
    assert_eq!(s.last_seen(a()), Some(T0));
    assert_eq!(s.last_seen(c()), Some(T0));
    tables_agree(&s, &[a(), b(), c(), Endpoint::v4(7, 7, 7, 7, 7)], &[b"chat", b"other"]);
}

#[test]
fn fan_out_is_one_less_than_the_session() {
    let mut s = server();
    for k in 1u8..=20 {
        assert!(s.register_client(b"big".to_vec(), Endpoint::v4(10, 0, 0, k, 4000), T0));
        let peers = s.forward_packet(Endpoint::v4(10, 0, 0, 1, 4000), T0).expect("registered");
        assert_eq!(peers.len(), k as usize - 1);
        let mut seen = peers.clone();
        seen.dedup();
        assert_eq!(seen.len(), peers.len());
    }
}

#[test]
fn forwarding_from_a_stranger_goes_nowhere() {
    let mut s = server();
    assert!(s.register_client(b"room1".to_vec(), a(), T0));
    assert_eq!(s.forward_packet(b(), T0 + 1), None);
    assert_eq!(s.last_seen(a()), Some(T0));
    assert_eq!(s.client_count(), 1);
}

#[test]
fn forwarding_alone_refreshes_last_seen() {
    let mut s = server();
    assert!(s.register_client(b"alone".to_vec(), a(), T0));
    assert_eq!(s.forward_packet(a(), T0 + 77), Some(Vec::new()));
    assert_eq!(s.last_seen(a()), Some(T0 + 77));
    assert_eq!(s.members(b"alone"), vec![a()]);
}

#[test]
fn admission_takes_the_secret() {
    let mut s = server();
    assert_eq!(
        s.handle_connect_command(a(), b"S", b"room1".to_vec(), T0),
        Admission::Accepted
    );
    assert_eq!(s.session_of(a()), Some(b"room1".to_vec()));
}

#[test]
fn admission_rejects_a_wrong_secret() {
    let mut s = server();
    for wrong in [&b"WRONG"[..], b"", b"s", b"S ", b"SS"] {
        assert_eq!(
            s.handle_connect_command(a(), wrong, b"room1".to_vec(), T0),
            Admission::Rejected(Rejection::BadSecret)
        );
    }
    assert_eq!(s.session_count(), 0);
    assert_eq!(s.client_count(), 0);
}

#[test]
fn admission_of_a_member_changes_nothing() {
    let mut s = server();
    assert_eq!(s.handle_connect_command(a(), b"S", b"room1".to_vec(), T0), Admission::Accepted);
    assert_eq!(
        s.handle_connect_command(a(), b"S", b"room1".to_vec(), T0 + 1),
        Admission::Rejected(Rejection::AlreadyRegistered)
    );
    assert_eq!(
        s.handle_connect_command(a(), b"S", b"room2".to_vec(), T0 + 2),
        Admission::Rejected(Rejection::AlreadyRegistered)
    );
    // the secret is looked at first
    assert_eq!(
        s.handle_connect_command(a(), b"nope", b"room1".to_vec(), T0 + 3),
        Admission::Rejected(Rejection::BadSecret)
    );
    assert_eq!(s.last_seen(a()), Some(T0));
    assert_eq!(s.session_count(), 1);
}

#[test]
fn the_secret_may_be_any_text() {
    let mut s = Server::new("pa\u{df}wort".to_string(), "[::]:9".to_string());
    assert_eq!(
        s.handle_connect_command(a(), "pa\u{df}wort".as_bytes(), b"r".to_vec(), T0),
        Admission::Accepted
    );
    assert_eq!(
        s.handle_connect_command(b(), b"passwort", b"r".to_vec(), T0),
        Admission::Rejected(Rejection::BadSecret)
    );
    assert_eq!(s.addr(), "[::]:9");
}

#[test]
fn silence_is_measured_against_the_horizon() {
    assert!(!is_expired(T0, T0, 43200));
    assert!(!is_expired(T0, T0 + 43200, 43200));
    assert!(is_expired(T0, T0 + 43201, 43200));
    assert!(is_expired(0, u64::MAX, 43200));
    assert!(is_expired(5, 6, 0));
    assert!(!is_expired(5, 5, 0));
    assert!(!is_expired(0, u64::MAX, u64::MAX));
}

#[test]
fn a_clock_that_ran_backwards_makes_nobody_stale() {
    assert!(!is_expired(T0, T0 - 1, 0));
    assert!(!is_expired(u64::MAX, 0, 0));
    let mut s = server();
    assert!(s.register_client(b"room1".to_vec(), a(), T0));
    assert!(s.gc_inactive_clients(T0 - 50_000, 43200).is_empty());
    assert_eq!(s.session_of(a()), Some(b"room1".to_vec()));
}

#[test]
fn the_sweep_evicts_the_stale_and_spares_the_live() {
    let mut s = server();
    assert!(s.register_client(b"room1".to_vec(), a(), T0));
    assert!(s.register_client(b"room1".to_vec(), b(), T0 + 100));
    assert!(s.register_client(b"room2".to_vec(), c(), T0));
    let evicted = s.gc_inactive_clients(T0 + 43201, 43200);
    assert_eq!(evicted.len(), 2);
    assert!(evicted.contains(&a()) && evicted.contains(&c()));
    assert_eq!(s.members(b"room1"), vec![b()]);
    assert!(s.members(b"room2").is_empty());
    assert_eq!(s.session_count(), 1);
    assert_eq!(s.client_count(), 1);
    assert_eq!(s.session_of(a()), None);
    assert_eq!(s.session_of(c()), None);
    assert_eq!(s.last_seen(b()), Some(T0 + 100));
    tables_agree(&s, &[a(), b(), c()], &[b"room1", b"room2"]);
}

#[test]
fn the_sweep_of_the_live_changes_nothing() {
    let mut s = server();
    assert!(s.register_client(b"room1".to_vec(), a(), T0));
    assert!(s.register_client(b"room1".to_vec(), b(), T0 + 100));
    assert!(s.register_client(b"room2".to_vec(), c(), T0 + 200));
    assert!(s.gc_inactive_clients(T0 + 43200, 43200).is_empty());
    assert_eq!(s.session_count(), 2);
    assert_eq!(s.client_count(), 3);
    assert_eq!(s.last_seen(a()), Some(T0));
    assert_eq!(s.last_seen(b()), Some(T0 + 100));
    assert_eq!(s.last_seen(c()), Some(T0 + 200));
}

#[test]
fn the_sweep_of_many_sessions() {
    let mut s = server();
    for k in 0u8..30 {
        let session = vec![b'r', k];
        // two members per session: one heard from early, one late
        assert!(s.register_client(session.clone(), Endpoint::v4(10, 0, k, 1, 1), T0 + k as u64));
        if k % 3 != 0 {
            assert!(s.register_client(session, Endpoint::v4(10, 0, k, 2, 1), T0 + 1000));
        }
    }
    assert_eq!(s.session_count(), 30);
    assert_eq!(s.client_count(), 50);
    // stale: last seen before T0 + 15
    let evicted = s.gc_inactive_clients(T0 + 14 + 43201, 43200);
    assert_eq!(evicted.len(), 15);
    for k in 0u8..30 {
        let early = Endpoint::v4(10, 0, k, 1, 1);
        let late = Endpoint::v4(10, 0, k, 2, 1);
        assert_eq!(evicted.contains(&early), k < 15);
        assert!(!evicted.contains(&late));
        assert_eq!(s.session_of(early).is_some(), k >= 15);
        assert_eq!(s.session_of(late).is_some(), k % 3 != 0);
        let expected = (if k >= 15 { 1 } else { 0 }) + (if k % 3 != 0 { 1 } else { 0 });
        assert_eq!(s.members(&[b'r', k]).len(), expected);
    }
    // sessions 0, 3, 6, 9, 12 had one member, and it is gone
    assert_eq!(s.session_count(), 25);
    assert_eq!(s.client_count(), 35);
}

#[test]
fn a_datagram_is_classified_after_it_is_cut() {
    let mut s = server();
    assert!(s.register_client(b"room1".to_vec(), a(), T0));
    assert!(s.register_client(b"room1".to_vec(), b(), T0));
    let long: Vec<u8> = (0..2000u32).map(|i| (i % 200) as u8 + 33).collect();
    match s.handle_datagram(&long, a(), T0 + 1) {
        Outcome::Forward { payload, peers } => {
            assert_eq!(payload, long[..1500].to_vec());
            assert_eq!(peers, vec![b()]);
        }
        other => panic!("{:?}", other),
    }
    // the command ends where the buffer ends: the name of the session is
    // what fits
    let mut padded = vec![b' '; 1500 - 13];
    padded.extend_from_slice(b"CONNECT S abcdefgh");
    assert_eq!(s.handle_datagram(&padded, c(), T0 + 2), Outcome::Admission(Admission::Accepted));
    assert_eq!(s.session_of(c()), Some(b"abc".to_vec()));
}
