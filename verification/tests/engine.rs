use pigeonvc2::protocol::{
    new_accepted, new_alive, new_alived, new_disconnect, new_event, new_join, new_joined,
    new_leave, new_ping, new_pong, new_rooms, new_rooms_list, new_switch, new_talk,
    new_talked_audio, parse_from_server_packet, ErrMalformed, PacketType,
};
use pigeonvc2::server::{Effect, Endpoint, Server};

const A: Endpoint = (0x7f00_0001, 5001);
const B: Endpoint = (0x7f00_0001, 5002);
const C: Endpoint = (0x0a00_0003, 5001);

fn catalog() -> Server {
    let mut server = Server::new();
    server.add_room_with_id(1, "Lobby");
    server.add_room_with_id(2, "Gaming");
    server.add_room_with_id(3, "Music");
    server
}

fn join(
    server: &mut Server,
    addr: Endpoint,
    name: &str,
    hwid: &str,
    room: u16,
    now: u64,
) -> Vec<Effect> {
    let asked = server.handle(addr, &new_join(name, hwid, room), now).unwrap();
    assert_eq!(
        asked,
        vec![Effect::Authorize {
            addr,
            name: name.to_string(),
            hwid: hwid.to_string(),
            room_id: room
        }]
    );
    server.complete_join(addr, name.to_string(), hwid.to_string(), room, Ok(()), now)
}

fn send(to: Endpoint, data: Vec<u8>) -> Effect {
    Effect::Send { to, data }
}

fn fanout(recipients: &[Endpoint], data: Vec<u8>) -> Effect {
    Effect::Fanout { recipients: recipients.to_vec(), data }
}

fn sorted_greetings(effects: &[Effect], to: Endpoint) -> Vec<(u16, Vec<(u64, String)>)> {
    let mut seen = Vec::new();
    for effect in effects {
        match effect {
            Effect::Send { to: addr, data } => {
                assert_eq!(*addr, to);
                match parse_from_server_packet(data) {
                    Ok(PacketType::Joined { room_id, users }) => seen.push((room_id, users)),
                    other => panic!("not a Joined frame: {:?}", other),
                }
            }
            other => panic!("not a Send: {:?}", other),
        }
    }
    seen.sort();
    seen
}

#[test]
fn ping_is_answered_with_pong() {
    let mut server = Server::new();
    let effects = server.handle(A, &[0xde, 0xad, 0xc0, 0xde, 0, 0, 0, 1], 100).unwrap();
    assert_eq!(effects, vec![send(A, vec![0xde, 0xad, 0xc0, 0xde, 0, 0, 0, 2])]);
    assert_eq!(server.handle(A, &new_ping(), 100), Ok(vec![send(A, new_pong())]));
}

#[test]
fn malformed_datagrams_are_dropped_without_a_change() {
    let mut server = catalog();
    join(&mut server, A, "alice", "HW1", 1, 100);
    assert_eq!(server.handle(A, &[1, 2, 3], 100), Err(ErrMalformed::TooShort));
    assert_eq!(server.handle(A, &new_pong(), 100), Err(ErrMalformed::UnknownOpcode));
    assert_eq!(
        server.handle(B, &[0, 0, 0, 0, 0, 0, 0, 13], 100),
        Err(ErrMalformed::BadMagic)
    );
    assert!(server.has_user(A));
    assert_eq!(server.user_count(), 1);
    assert_eq!(server.next_seq(), 2);
}

#[test]
fn rooms_with_offset_zero_lists_the_catalog() {
    let mut server = catalog();
    let effects = server.handle(A, &new_rooms(0), 100).unwrap();
    let mut expected = vec![0xde, 0xad, 0xc0, 0xde, 0, 0, 0, 10, 0];
    expected.extend_from_slice(&[0, 1]);
    expected.extend_from_slice(b"Lobby\0");
    expected.extend_from_slice(&[0, 2]);
    expected.extend_from_slice(b"Gaming\0");
    expected.extend_from_slice(&[0, 3]);
    expected.extend_from_slice(b"Music\0");
    assert_eq!(effects, vec![send(A, expected)]);
}

#[test]
fn rooms_listing_stops_at_the_first_gap() {
    let mut server = Server::new();
    server.add_room_with_id(1, "one");
    server.add_room_with_id(2, "two");
    server.add_room_with_id(4, "four");
    assert_eq!(
        server.handle(A, &new_rooms(1), 0),
        Ok(vec![send(
            A,
            new_rooms_list(false, vec![(1, "one".to_string()), (2, "two".to_string())])
        )])
    );
    assert_eq!(
        server.handle(A, &new_rooms(3), 0),
        Ok(vec![send(A, new_rooms_list(false, vec![]))])
    );
    assert_eq!(
        server.handle(A, &new_rooms(4), 0),
        Ok(vec![send(A, new_rooms_list(false, vec![(4, "four".to_string())]))])
    );
}

#[test]
fn rooms_listing_pages_by_ten() {
    let mut server = Server::new();
    for id in 1..=11u16 {
        server.add_room_with_id(id, &format!("r{}", id));
    }
    assert_eq!(server.room_count(), 11);
    let first: Vec<(u16, String)> = (1..=10u16).map(|id| (id, format!("r{}", id))).collect();
    assert_eq!(
        server.handle(A, &new_rooms(0), 0),
        Ok(vec![send(A, new_rooms_list(true, first.clone()))])
    );
    assert_eq!(
        server.handle(A, &new_rooms(1), 0),
        Ok(vec![send(A, new_rooms_list(true, first))])
    );
    let second: Vec<(u16, String)> = (2..=11u16).map(|id| (id, format!("r{}", id))).collect();
    assert_eq!(
        server.handle(A, &new_rooms(2), 0),
        Ok(vec![send(A, new_rooms_list(false, second))])
    );
    assert_eq!(
        server.handle(A, &new_rooms(11), 0),
        Ok(vec![send(A, new_rooms_list(false, vec![(11, "r11".to_string())]))])
    );
}

#[test]
fn rooms_listing_at_the_last_id_does_not_overflow() {
    let mut server = Server::new();
    server.add_room_with_id(65535, "last");
    server.add_room_with_id(65534, "before");
    assert_eq!(
        server.handle(A, &new_rooms(65534), 0),
        Ok(vec![send(
            A,
            new_rooms_list(false, vec![(65534, "before".to_string()), (65535, "last".to_string())])
        )])
    );
    assert_eq!(
        server.handle(A, &new_rooms(65535), 0),
        Ok(vec![send(A, new_rooms_list(false, vec![(65535, "last".to_string())]))])
    );
}

#[test]
fn join_success_greets_announces_and_accepts() {
    let mut server = catalog();
    let effects = join(&mut server, A, "alice", "HW1", 1, 100);
    assert_eq!(effects.len(), 5);
    assert_eq!(
        sorted_greetings(&effects[..3], A),
        vec![(1, vec![(1, "alice".to_string())]), (2, vec![]), (3, vec![])]
    );
    assert_eq!(effects[3], fanout(&[A], new_event(1, true, 1, 1, "alice")));
    assert_eq!(effects[4], send(A, new_accepted(1, 1)));
    assert!(server.has_user(A));
    assert_eq!(server.user_count(), 1);
    assert_eq!(server.next_seq(), 2);
    assert_eq!(server.next_user_id(), 2);
    assert_eq!(server.history_len(), 1);
    assert_eq!(server.room_snapshot(1), Some(vec![(1, "alice".to_string())]));
    assert_eq!(server.room_addrs(1), Some(vec![A]));
}

#[test]
fn second_join_is_told_to_everyone_in_join_order() {
    let mut server = catalog();
    join(&mut server, A, "alice", "HW1", 1, 100);
    let effects = join(&mut server, B, "bob", "HW2", 1, 101);
    assert_eq!(
        sorted_greetings(&effects[..3], B),
        vec![
            (1, vec![(1, "alice".to_string()), (2, "bob".to_string())]),
            (2, vec![]),
            (3, vec![])
        ]
    );
    assert_eq!(effects[3], fanout(&[A, B], new_event(2, true, 1, 2, "bob")));
    assert_eq!(effects[4], send(B, new_accepted(2, 2)));
}

#[test]
fn join_from_a_known_endpoint_is_dropped() {
    let mut server = catalog();
    join(&mut server, A, "alice", "HW1", 1, 100);
    assert_eq!(server.handle(A, &new_join("again", "HW9", 2), 100), Ok(vec![]));
    assert_eq!(
        server.complete_join(A, "again".to_string(), "HW9".to_string(), 2, Ok(()), 100),
        vec![]
    );
    assert_eq!(server.user_count(), 1);
    assert_eq!(server.next_user_id(), 2);
    assert_eq!(server.room_snapshot(1), Some(vec![(1, "alice".to_string())]));
    assert_eq!(server.room_snapshot(2), Some(vec![]));
}

#[test]
fn join_ban_sends_the_reason_and_changes_nothing() {
    let mut server = catalog();
    let asked = server.handle(A, &new_join("alice", "HW1", 1), 100).unwrap();
    assert_eq!(asked.len(), 1);
    let effects = server.complete_join(
        A,
        "alice".to_string(),
        "HW1".to_string(),
        1,
        Err("banned".to_string()),
        100,
    );
    assert_eq!(effects, vec![Effect::Notify { to: A, data: new_disconnect("banned") }]);
    assert!(!server.has_user(A));
    assert_eq!(server.user_count(), 0);
    assert_eq!(server.next_seq(), 1);
    assert_eq!(server.next_user_id(), 1);
    assert_eq!(server.history_len(), 0);
}

#[test]
fn join_with_an_unknown_room_tracks_the_user_without_a_room() {
    let mut server = catalog();
    let effects = join(&mut server, A, "alice", "HW1", 9, 100);
    assert_eq!(
        sorted_greetings(&effects[..3], A),
        vec![(1, vec![]), (2, vec![]), (3, vec![])]
    );
    assert_eq!(effects[3], fanout(&[A], new_event(1, true, 9, 1, "alice")));
    assert!(server.has_user(A));
    assert_eq!(server.handle(A, &new_talk(&[1]), 100), Ok(vec![]));
    let switched = server.handle(A, &new_switch(2), 100).unwrap();
    assert_eq!(
        switched,
        vec![
            send(A, new_joined(2, vec![(1, "alice".to_string())])),
            fanout(&[A], new_event(2, false, 9, 1, "alice")),
            fanout(&[A], new_event(3, true, 2, 1, "alice")),
        ]
    );
    assert_eq!(server.room_addrs(2), Some(vec![A]));
}

#[test]
fn switch_moves_the_user_and_tells_everyone_leave_then_join() {
    let mut server = catalog();
    join(&mut server, A, "alice", "HW1", 1, 100);
    join(&mut server, B, "bob", "HW2", 1, 100);
    let effects = server.handle(A, &new_switch(2), 101).unwrap();
    assert_eq!(
        effects,
        vec![
            send(A, new_joined(2, vec![(1, "alice".to_string())])),
            fanout(&[A, B], new_event(3, false, 1, 1, "alice")),
            fanout(&[A, B], new_event(4, true, 2, 1, "alice")),
        ]
    );
    assert_eq!(server.room_snapshot(1), Some(vec![(2, "bob".to_string())]));
    assert_eq!(server.room_addrs(1), Some(vec![B]));
    assert_eq!(server.room_snapshot(2), Some(vec![(1, "alice".to_string())]));
    assert_eq!(server.room_addrs(2), Some(vec![A]));
    assert_eq!(server.keepalive_user_arc(A, 101).unwrap().room_id, 2);
    assert_eq!(server.next_seq(), 5);
}

#[test]
fn switch_to_the_same_or_an_unknown_room_only_refreshes() {
    let mut server = catalog();
    join(&mut server, A, "alice", "HW1", 1, 100);
    assert_eq!(server.handle(A, &new_switch(1), 103), Ok(vec![]));
    assert_eq!(server.handle(A, &new_switch(7), 104), Ok(vec![]));
    assert_eq!(server.handle(B, &new_switch(2), 104), Ok(vec![]));
    assert_eq!(server.next_seq(), 2);
    assert_eq!(server.room_addrs(1), Some(vec![A]));
    assert_eq!(server.routine(108), vec![]);
    assert!(server.has_user(A));
}

#[test]
fn swap_remove_keeps_snapshot_and_addresses_in_step() {
    let mut server = catalog();
    join(&mut server, A, "alice", "HW1", 1, 100);
    join(&mut server, B, "bob", "HW2", 1, 100);
    join(&mut server, C, "carol", "HW3", 1, 100);
    server.handle(A, &new_leave(), 100).unwrap();
    assert_eq!(
        server.room_snapshot(1),
        Some(vec![(3, "carol".to_string()), (2, "bob".to_string())])
    );
    assert_eq!(server.room_addrs(1), Some(vec![C, B]));
}

#[test]
fn talk_goes_to_the_room_but_not_to_the_sender() {
    let mut server = catalog();
    join(&mut server, A, "alice", "HW1", 1, 100);
    join(&mut server, B, "bob", "HW2", 1, 100);
    join(&mut server, C, "carol", "HW3", 2, 100);
    let effects = server.handle(A, &new_talk(&[7, 7, 7]), 101).unwrap();
    assert_eq!(effects, vec![fanout(&[B], new_talked_audio(1, &[7, 7, 7]))]);
    let effects = server.handle(C, &new_talk(&[1]), 101).unwrap();
    assert_eq!(effects, vec![fanout(&[], new_talked_audio(3, &[1]))]);
    assert_eq!(server.handle((1, 1), &new_talk(&[1]), 101), Ok(vec![]));
    assert_eq!(server.next_seq(), 4);
    assert_eq!(server.history_len(), 3);
}

#[test]
fn batch_send_room_sends_to_all_or_all_but_one() {
    let mut server = catalog();
    join(&mut server, A, "alice", "HW1", 1, 100);
    join(&mut server, B, "bob", "HW2", 1, 100);
    assert_eq!(server.batch_send_room(&[1, 2], 1, None), vec![fanout(&[A, B], vec![1, 2])]);
    assert_eq!(server.batch_send_room(&[1, 2], 1, Some(B)), vec![fanout(&[A], vec![1, 2])]);
    assert_eq!(server.batch_send_room(&[1, 2], 1, Some(C)), vec![fanout(&[A, B], vec![1, 2])]);
    assert_eq!(server.batch_send_room(&[1, 2], 8, None), vec![]);
    assert_eq!(server.batch_send(&[3], &[C, A]), fanout(&[C, A], vec![3]));
}

#[test]
fn alive_refreshes_and_answers_known_users_only() {
    let mut server = catalog();
    join(&mut server, A, "alice", "HW1", 1, 100);
    assert_eq!(server.handle(B, &new_alive(0), 100), Ok(vec![]));
    assert_eq!(server.handle(A, &new_alive(0), 104), Ok(vec![send(A, new_alived())]));
    assert_eq!(server.routine(108), vec![]);
    assert!(server.has_user(A));
    assert_eq!(server.keepalive_user_arc(A, 200).unwrap().last_seen, 205);
    assert!(server.keepalive_user_arc(B, 200).is_none());
}

#[test]
fn leave_removes_the_user_and_tells_the_rest() {
    let mut server = catalog();
    join(&mut server, A, "alice", "HW1", 1, 100);
    join(&mut server, B, "bob", "HW2", 2, 100);
    let effects = server.handle(A, &new_leave(), 101).unwrap();
    assert_eq!(
        effects,
        vec![
            fanout(&[B], new_event(3, false, 1, 1, "alice")),
            Effect::Released { hwid: "HW1".to_string() },
        ]
    );
    assert!(!server.has_user(A));
    assert_eq!(server.room_snapshot(1), Some(vec![]));
    assert_eq!(server.room_addrs(1), Some(vec![]));
    assert_eq!(server.next_seq(), 4);
    assert_eq!(server.next_user_id(), 3);
    assert_eq!(server.handle(A, &new_leave(), 101), Ok(vec![]));
}

#[test]
fn last_leave_drains_and_numbering_starts_over() {
    let mut server = catalog();
    join(&mut server, A, "alice", "HW1", 1, 100);
    join(&mut server, B, "bob", "HW2", 1, 100);
    server.handle(A, &new_leave(), 101).unwrap();
    let effects = server.handle(B, &new_leave(), 101).unwrap();
    assert_eq!(effects, vec![Effect::Released { hwid: "HW2".to_string() }]);
    assert_eq!(server.user_count(), 0);
    assert_eq!(server.next_seq(), 1);
    assert_eq!(server.next_user_id(), 0);
    assert_eq!(server.history_len(), 0);
    let effects = join(&mut server, C, "carol", "HW3", 1, 102);
    assert_eq!(effects[3], fanout(&[C], new_event(1, true, 1, 0, "carol")));
    assert_eq!(effects[4], send(C, new_accepted(1, 0)));
    assert_eq!(server.next_user_id(), 1);
}

#[test]
fn timeout_disconnects_after_five_seconds() {
    let mut server = catalog();
    join(&mut server, A, "alice", "HW1", 1, 100);
    join(&mut server, B, "bob", "HW2", 1, 103);
    assert_eq!(server.routine(104), vec![]);
    let effects = server.routine(105);
    assert_eq!(
        effects,
        vec![
            Effect::Notify { to: A, data: new_disconnect("Inactivity timeout") },
            fanout(&[B], new_event(3, false, 1, 1, "alice")),
            Effect::Released { hwid: "HW1".to_string() },
        ]
    );
    assert!(!server.has_user(A));
    assert!(server.has_user(B));
    let effects = server.routine(108);
    assert_eq!(
        effects,
        vec![
            Effect::Notify { to: B, data: new_disconnect("Inactivity timeout") },
            Effect::Released { hwid: "HW2".to_string() },
        ]
    );
    assert_eq!(server.user_count(), 0);
    let effects = join(&mut server, A, "alice", "HW1", 1, 200);
    assert_eq!(effects[3], fanout(&[A], new_event(1, true, 1, 0, "alice")));
}

#[test]
fn sweep_disconnects_every_expired_user() {
    let mut server = catalog();
    join(&mut server, A, "alice", "HW1", 1, 100);
    join(&mut server, B, "bob", "HW2", 2, 100);
    join(&mut server, C, "carol", "HW3", 3, 200);
    let effects = server.routine(150);
    let released: Vec<&Effect> =
        effects.iter().filter(|e| matches!(e, Effect::Released { .. })).collect();
    assert_eq!(released.len(), 2);
    let notified: Vec<&Effect> =
        effects.iter().filter(|e| matches!(e, Effect::Notify { .. })).collect();
    assert_eq!(notified.len(), 2);
    assert_eq!(server.user_count(), 1);
    assert!(server.has_user(C));
    assert_eq!(server.next_seq(), 6);
    assert_eq!(server.room_addrs(1), Some(vec![]));
    assert_eq!(server.room_addrs(2), Some(vec![]));
    assert_eq!(server.room_addrs(3), Some(vec![C]));
}

#[test]
fn disconnect_of_an_unknown_endpoint_only_notifies() {
    let mut server = catalog();
    join(&mut server, A, "alice", "HW1", 1, 100);
    assert_eq!(
        server.disconnect_user(B, Some("go away")),
        vec![Effect::Notify { to: B, data: new_disconnect("go away") }]
    );
    assert_eq!(server.disconnect_user(B, None), vec![]);
    assert_eq!(server.user_count(), 1);
    assert_eq!(server.next_seq(), 2);
}

#[test]
fn sync_behind_resends_the_missed_events_in_order() {
    let mut server = catalog();
    join(&mut server, A, "alice", "HW1", 1, 100);
    join(&mut server, B, "bob", "HW2", 1, 100);
    server.handle(B, &new_switch(2), 100).unwrap();
    server.handle(B, &new_leave(), 100).unwrap();
    assert_eq!(server.next_seq(), 6);
    let effects = server.handle(A, &new_alive(1), 101).unwrap();
    assert_eq!(
        effects,
        vec![
            send(A, new_alived()),
            send(A, new_event(2, true, 1, 2, "bob")),
            send(A, new_event(3, false, 1, 2, "bob")),
            send(A, new_event(4, true, 2, 2, "bob")),
            send(A, new_event(5, false, 2, 2, "bob")),
        ]
    );
    assert_eq!(server.keepalive_user_arc(A, 101).unwrap().consecutive_behind, 1);
    assert_eq!(server.handle(A, &new_alive(5), 101), Ok(vec![send(A, new_alived())]));
    assert_eq!(server.keepalive_user_arc(A, 101).unwrap().consecutive_behind, 0);
    assert_eq!(server.handle(A, &new_alive(9), 101), Ok(vec![send(A, new_alived())]));
}

#[test]
fn sync_behind_three_times_in_a_row_disconnects() {
    let mut server = catalog();
    join(&mut server, A, "alice", "HW1", 1, 100);
    join(&mut server, B, "bob", "HW2", 1, 100);
    assert_eq!(server.handle(A, &new_alive(1), 101).unwrap().len(), 2);
    assert_eq!(server.handle(A, &new_alive(1), 101).unwrap().len(), 2);
    let effects = server.handle(A, &new_alive(1), 101).unwrap();
    assert_eq!(
        effects,
        vec![
            send(A, new_alived()),
            Effect::Notify {
                to: A,
                data: new_disconnect("Sync failure: Behind 3 consecutive times")
            },
            fanout(&[B], new_event(3, false, 1, 1, "alice")),
            Effect::Released { hwid: "HW1".to_string() },
        ]
    );
    assert!(!server.has_user(A));
}

#[test]
fn too_far_behind_disconnects_with_the_count() {
    let mut server = catalog();
    join(&mut server, A, "alice", "HW1", 1, 100);
    join(&mut server, B, "bob", "HW2", 1, 100);
    for _ in 0..25 {
        server.handle(B, &new_switch(2), 100).unwrap();
        server.handle(B, &new_switch(1), 100).unwrap();
    }
    assert_eq!(server.next_seq(), 103);
    assert_eq!(server.history_len(), 100);
    let effects = server.handle(A, &new_alive(1), 101).unwrap();
    assert_eq!(effects.len(), 4);
    assert_eq!(effects[0], send(A, new_alived()));
    assert_eq!(
        effects[1],
        Effect::Notify {
            to: A,
            data: new_disconnect("Sync failure: Too far behind (101 events)")
        }
    );
    assert_eq!(effects[2], fanout(&[B], new_event(103, false, 1, 1, "alice")));
    assert_eq!(effects[3], Effect::Released { hwid: "HW1".to_string() });
    assert!(!server.has_user(A));
}

#[test]
fn behind_by_exactly_the_history_is_replayed() {
    let mut server = catalog();
    join(&mut server, A, "alice", "HW1", 1, 100);
    join(&mut server, B, "bob", "HW2", 1, 100);
    for _ in 0..25 {
        server.handle(B, &new_switch(2), 100).unwrap();
        server.handle(B, &new_switch(1), 100).unwrap();
    }
    let effects = server.handle_alive_sync(A, 2);
    assert_eq!(effects.len(), 100);
    assert_eq!(effects[0], send(A, new_event(3, false, 1, 2, "bob")));
    assert_eq!(effects[1], send(A, new_event(4, true, 2, 2, "bob")));
    assert_eq!(effects[99], send(A, new_event(102, true, 1, 2, "bob")));
    assert_eq!(server.handle_alive_sync(C, 2), vec![]);
}

#[test]
fn broadcast_event_numbers_stores_and_fans_out() {
    let mut server = Server::new();
    assert_eq!(server.broadcast_event(|seq| vec![seq as u8], &[]), vec![]);
    assert_eq!(server.next_seq(), 1);
    assert_eq!(
        server.broadcast_event(|seq| vec![seq as u8, 9], &[A, B]),
        vec![fanout(&[A, B], vec![1, 9])]
    );
    assert_eq!(
        server.broadcast_event(|seq| vec![seq as u8, 9], &[B]),
        vec![fanout(&[B], vec![2, 9])]
    );
    assert_eq!(server.next_seq(), 3);
    assert_eq!(server.history_len(), 2);
}

#[test]
fn headroom_is_there_on_a_fresh_server() {
    let server = Server::new();
    assert!(server.has_headroom(0));
    assert!(server.has_headroom(u64::MAX - 5));
    assert!(!server.has_headroom(u64::MAX - 4));
}

#[test]
fn add_room_replaces_an_empty_room() {
    let mut server = Server::new();
    server.add_room_with_id(1, "Lobby");
    server.add_room_with_id(1, "Hall");
    assert_eq!(server.room_count(), 1);
    assert_eq!(server.room_name(1), Some("Hall".to_string()));
    assert_eq!(server.room_name(2), None);
    assert!(server.has_room(1));
    assert!(!server.has_room(2));
}

fn broadcast_events(effects: &[Effect]) -> Vec<(u64, Vec<u8>)> {
    let mut seen = Vec::new();
    for effect in effects {
        if let Effect::Fanout { data, .. } = effect {
            if let Ok(PacketType::Event { seq, .. }) = parse_from_server_packet(data) {
                seen.push((seq, data.clone()));
            }
        }
    }
    seen
}

#[test]
fn event_numbers_strictly_increase_while_users_remain() {
    let mut server = catalog();
    let mut events = Vec::new();
    events.extend(broadcast_events(&join(&mut server, A, "alice", "HW1", 1, 100)));
    events.extend(broadcast_events(&join(&mut server, B, "bob", "HW2", 2, 100)));
    events.extend(broadcast_events(&server.handle(A, &new_switch(3), 101).unwrap()));
    events.extend(broadcast_events(&server.handle(B, &new_talk(&[1]), 101).unwrap()));
    events.extend(broadcast_events(&join(&mut server, C, "carol", "HW3", 1, 102)));
    events.extend(broadcast_events(&server.handle(B, &new_leave(), 102).unwrap()));
    events.extend(broadcast_events(&server.routine(106)));
    let numbers: Vec<u64> = events.iter().map(|e| e.0).collect();
    assert_eq!(numbers, vec![1, 2, 3, 4, 5, 6, 7]);
    assert_eq!(server.user_count(), 1);
    assert_eq!(server.next_seq(), 8);
}

#[test]
fn accepted_carries_the_number_of_the_join_event() {
    let mut server = catalog();
    join(&mut server, A, "alice", "HW1", 1, 100);
    server.handle(A, &new_switch(2), 100).unwrap();
    let effects = join(&mut server, B, "bob", "HW2", 1, 100);
    assert_eq!(broadcast_events(&effects)[0].0, 4);
    assert_eq!(effects[4], send(B, new_accepted(4, 2)));
}

#[test]
fn replayed_bytes_are_the_bytes_that_were_broadcast() {
    let mut server = catalog();
    join(&mut server, A, "alice", "HW1", 1, 100);
    let mut events = Vec::new();
    events.extend(broadcast_events(&join(&mut server, B, "bob", "HW2", 2, 100)));
    events.extend(broadcast_events(&server.handle(B, &new_switch(3), 100).unwrap()));
    events.extend(broadcast_events(&join(&mut server, C, "carol", "HW3", 1, 100)));
    assert_eq!(events.len(), 4);
    let effects = server.handle(A, &new_alive(1), 100).unwrap();
    let resent: Vec<Vec<u8>> = effects[1..]
        .iter()
        .map(|e| match e {
            Effect::Send { to, data } => {
                assert_eq!(*to, A);
                data.clone()
            }
            other => panic!("not a Send: {:?}", other),
        })
        .collect();
    let broadcast: Vec<Vec<u8>> = events.into_iter().map(|e| e.1).collect();
    assert_eq!(resent, broadcast);
}

#[test]
fn rooms_and_connection_table_agree_after_a_mixed_run() {
    let mut server = catalog();
    let peers: Vec<Endpoint> = (0..12u16).map(|i| (0x0a00_0000 + i as u128, 6000 + i)).collect();
    for (i, peer) in peers.iter().enumerate() {
        join(&mut server, *peer, &format!("u{}", i), &format!("HW{}", i), 1 + (i % 3) as u16, 100);
    }
    for (i, peer) in peers.iter().enumerate() {
        if i % 2 == 0 {
            server.handle(*peer, &new_switch(1 + ((i + 1) % 3) as u16), 101).unwrap();
        }
        if i % 5 == 0 {
            server.handle(*peer, &new_leave(), 101).unwrap();
        }
    }
    let mut seated = 0;
    let mut ids = Vec::new();
    for room in 1..=3u16 {
        let snapshot = server.room_snapshot(room).unwrap();
        let addrs = server.room_addrs(room).unwrap();
        assert_eq!(snapshot.len(), addrs.len());
        for (entry, addr) in snapshot.iter().zip(addrs.iter()) {
            let user = server.keepalive_user_arc(*addr, 101).unwrap();
            assert_eq!(user.room_id, room);
            assert_eq!((user.id, user.name), *entry);
            ids.push(user.id);
        }
        seated += addrs.len();
    }
    assert_eq!(seated, server.user_count());
    assert_eq!(server.user_count(), 9);
    ids.sort();
    ids.dedup();
    assert_eq!(ids.len(), 9);
    assert!(ids.iter().all(|id| *id < server.next_user_id()));
    assert!(server.history_len() <= 100);
    assert_eq!(server.history_len() as u64, server.next_seq() - 1);
}
