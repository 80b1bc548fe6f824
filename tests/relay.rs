use matchbox_server::frame::{encode, parse_request};
use matchbox_server::ids::PeerIdAllocator;
use matchbox_server::lobby::WorldGenSettings;
use matchbox_server::messages::{notify_all, Delivery, Outbound};
use matchbox_server::registry::RoomRegistry;
use matchbox_server::session::PeerSession;
use matchbox_server::state::{room_key, ServerState};

fn key(s: &str) -> String {
    s.to_string()
}

fn to(peer: u64, msg: Outbound) -> Delivery {
    Delivery { to: peer, msg }
}

#[test]
fn allocator_counts_from_one() {
    let mut ids = PeerIdAllocator::new();
    assert_eq!(ids.allocate(), Some(1));
    assert_eq!(ids.allocate(), Some(2));
    assert_eq!(ids.allocate(), Some(3));
}

#[test]
fn two_peers_join_relay_and_leave() {
    let mut state = ServerState::new();
    let r1 = key("r1");
    let (p1, d1) = state.connect(&r1).unwrap();
    assert_eq!(p1, 1);
    assert_eq!(d1, vec![to(1, Outbound::IdAssigned(1))]);
    let (p2, d2) = state.connect(&r1).unwrap();
    assert_eq!(p2, 2);
    assert_eq!(
        d2,
        vec![
            to(2, Outbound::IdAssigned(2)),
            to(2, Outbound::PeerJoined(1)),
            to(1, Outbound::PeerJoined(2)),
        ]
    );
    let d = state.handle_request(&r1, 1, b"2:offer-x").unwrap();
    assert_eq!(
        d,
        to(2, Outbound::Relay { from: 1, payload: b"offer-x".to_vec() })
    );
    let left = state.disconnect(&r1, 1);
    assert_eq!(left, vec![to(2, Outbound::PeerLeft(1))]);
    let (p3, d3) = state.connect(&r1).unwrap();
    assert_eq!(p3, 3);
    assert_eq!(
        d3,
        vec![
            to(3, Outbound::IdAssigned(3)),
            to(3, Outbound::PeerJoined(2)),
            to(2, Outbound::PeerJoined(3)),
        ]
    );
}

#[test]
fn relay_to_unknown_peer_reports_error() {
    let mut state = ServerState::new();
    let r1 = key("r1");
    state.connect(&r1).unwrap();
    state.connect(&r1).unwrap();
    let d = state.handle_request(&r1, 1, b"999:x").unwrap();
    assert_eq!(d, to(1, Outbound::RelayError { target: 999 }));
    assert_eq!(state.members(&r1), vec![1, 2]);
}

#[test]
fn joiner_sees_exactly_live_members() {
    let mut reg = RoomRegistry::new();
    let r = key("room");
    let (e1, n1) = reg.join(&r, 10);
    assert!(e1.is_empty());
    assert!(n1.is_empty());
    reg.join(&r, 11);
    reg.join(&r, 12);
    reg.leave(&r, 11);
    let (e4, n4) = reg.join(&r, 13);
    assert_eq!(e4, vec![10, 12]);
    assert_eq!(
        n4,
        vec![to(10, Outbound::PeerJoined(13)), to(12, Outbound::PeerJoined(13))]
    );
    let (other, _) = reg.join(&key("elsewhere"), 14);
    assert!(other.is_empty());
}

#[test]
fn leave_notifies_each_remaining_member_once() {
    let mut reg = RoomRegistry::new();
    let r = key("room");
    reg.join(&r, 1);
    reg.join(&r, 2);
    reg.join(&r, 3);
    let notices = reg.leave(&r, 2);
    assert_eq!(
        notices,
        vec![to(1, Outbound::PeerLeft(2)), to(3, Outbound::PeerLeft(2))]
    );
    let d = reg.relay(&r, 3, 2, b"late".to_vec());
    assert_eq!(d, to(3, Outbound::RelayError { target: 2 }));
    assert!(reg.leave(&r, 2).is_empty());
    assert_eq!(reg.members(&r), vec![1, 3]);
}

#[test]
fn empty_room_is_removed_and_rejoin_is_fresh() {
    let mut reg = RoomRegistry::new();
    let r = key("room");
    reg.join(&r, 1);
    reg.join(&r, 2);
    reg.leave(&r, 1);
    assert!(reg.has_room(&r));
    reg.leave(&r, 2);
    assert!(!reg.has_room(&r));
    assert!(reg.members(&r).is_empty());
    let (existing, notices) = reg.join(&r, 3);
    assert!(existing.is_empty());
    assert!(notices.is_empty());
    assert_eq!(reg.members(&r), vec![3]);
}

#[test]
fn leave_of_unknown_room_changes_nothing() {
    let mut reg = RoomRegistry::new();
    reg.join(&key("a"), 1);
    assert!(reg.leave(&key("b"), 1).is_empty());
    assert_eq!(reg.members(&key("a")), vec![1]);
}

#[test]
fn relays_arrive_in_order() {
    let mut state = ServerState::new();
    let r = key("r");
    state.connect(&r).unwrap();
    state.connect(&r).unwrap();
    let got: Vec<Delivery> = [&b"1:A"[..], &b"1:B"[..], &b"1:C"[..]]
        .iter()
        .map(|f| state.handle_request(&r, 2, f).unwrap())
        .collect();
    assert_eq!(
        got,
        vec![
            to(1, Outbound::Relay { from: 2, payload: b"A".to_vec() }),
            to(1, Outbound::Relay { from: 2, payload: b"B".to_vec() }),
            to(1, Outbound::Relay { from: 2, payload: b"C".to_vec() }),
        ]
    );
}

#[test]
fn relay_is_scoped_to_the_room() {
    let mut state = ServerState::new();
    state.connect(&key("a")).unwrap();
    state.connect(&key("b")).unwrap();
    let d = state.handle_request(&key("a"), 1, b"2:hi").unwrap();
    assert_eq!(d, to(1, Outbound::RelayError { target: 2 }));
}

#[test]
fn parse_request_accepts_target_and_payload() {
    assert_eq!(parse_request(b"42:hello"), Some((42, b"hello".to_vec())));
    assert_eq!(parse_request(b"7:"), Some((7, Vec::new())));
    assert_eq!(parse_request(b"0:a:b"), Some((0, b"a:b".to_vec())));
    assert_eq!(
        parse_request(b"18446744073709551615:x"),
        Some((u64::MAX, b"x".to_vec()))
    );
}

#[test]
fn parse_request_rejects_malformed_frames() {
    assert_eq!(parse_request(b""), None);
    assert_eq!(parse_request(b"12"), None);
    assert_eq!(parse_request(b":x"), None);
    assert_eq!(parse_request(b"1a:x"), None);
    assert_eq!(parse_request(b" 1:x"), None);
    assert_eq!(parse_request(b"18446744073709551616:x"), None);
    assert_eq!(parse_request(b"99999999999999999999999:x"), None);
}

#[test]
fn encode_writes_tag_and_fields() {
    assert_eq!(encode(&Outbound::IdAssigned(1)), b"id:1".to_vec());
    assert_eq!(encode(&Outbound::PeerJoined(20)), b"joined:20".to_vec());
    assert_eq!(encode(&Outbound::PeerLeft(0)), b"left:0".to_vec());
    assert_eq!(
        encode(&Outbound::Relay { from: 305, payload: b"sdp:x".to_vec() }),
        b"relay:305:sdp:x".to_vec()
    );
    assert_eq!(
        encode(&Outbound::RelayError { target: u64::MAX }),
        b"error:18446744073709551615".to_vec()
    );
}

#[test]
fn notify_all_addresses_every_recipient() {
    assert_eq!(
        notify_all(&vec![4, 5], 9, false),
        vec![to(4, Outbound::PeerLeft(9)), to(5, Outbound::PeerLeft(9))]
    );
    assert!(notify_all(&Vec::new(), 9, true).is_empty());
}

#[test]
fn room_key_defaults_to_empty() {
    assert_eq!(room_key(None), "");
    assert_eq!(room_key(Some(key("r1"))), "r1");
}

#[test]
fn session_relays_then_closes_once() {
    let mut state = ServerState::new();
    let (mut s1, d1) = PeerSession::start(&mut state, key("r")).unwrap();
    assert_eq!(d1, vec![to(1, Outbound::IdAssigned(1))]);
    let (mut s2, _) = PeerSession::start(&mut state, key("r")).unwrap();
    assert_eq!(s2.id(), 2);
    let out = s1.on_frame(&mut state, b"2:candidate");
    assert_eq!(
        out,
        vec![to(2, Outbound::Relay { from: 1, payload: b"candidate".to_vec() })]
    );
    assert!(s1.is_open());
    let out = s1.close(&mut state);
    assert_eq!(out, vec![to(2, Outbound::PeerLeft(1))]);
    assert!(!s1.is_open());
    assert!(s1.close(&mut state).is_empty());
    assert!(s1.on_frame(&mut state, b"2:x").is_empty());
    assert_eq!(state.members(&key("r")), vec![2]);
    s2.close(&mut state);
    assert!(!state.has_room(&key("r")));
}

#[test]
fn malformed_frame_ends_session() {
    let mut state = ServerState::new();
    let (mut s1, _) = PeerSession::start(&mut state, key("r")).unwrap();
    let (s2, _) = PeerSession::start(&mut state, key("r")).unwrap();
    let out = s1.on_frame(&mut state, b"not a request");
    assert_eq!(out, vec![to(s2.id(), Outbound::PeerLeft(1))]);
    assert!(!s1.is_open());
    assert_eq!(s1.room(), "r");
    assert_eq!(state.members(&key("r")), vec![2]);
}

#[test]
fn world_gen_settings_compare() {
    assert_eq!(WorldGenSettings::Normal, WorldGenSettings::Normal);
    assert_ne!(WorldGenSettings::Normal, WorldGenSettings::PracticeRange);
}

#[test]
fn default_state_starts_empty() {
    let mut state = ServerState::default();
    assert!(!state.has_room(&key("")));
    let (id, _) = state.connect(&room_key(None)).unwrap();
    assert_eq!(id, 1);
    assert_eq!(state.members(&key("")), vec![1]);
}
