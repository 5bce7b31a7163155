use pigeonvc2::server::model::copy_names;
use pigeonvc2::server::reasons::{
    behind_repeatedly_reason, inactivity_reason, inconsistent_history_reason,
    too_far_behind_reason,
};
use pigeonvc2::server::rooms::{position_of_addr, position_of_id, remove_addr, remove_id};
use pigeonvc2::server::{Endpoint, EventSystem, Server, User};

#[test]
fn a_new_log_numbers_from_one() {
    let log = EventSystem::new();
    assert_eq!(log.next_seq, 1);
    assert_eq!(log.history.len(), 0);
    assert_eq!(log.last_seq(), 0);
}

#[test]
fn record_numbers_in_order_and_keeps_the_bytes() {
    let mut log = EventSystem::new();
    assert_eq!(log.record(|seq| vec![seq as u8, 7]), vec![1, 7]);
    assert_eq!(log.record(|seq| vec![seq as u8, 8]), vec![2, 8]);
    assert_eq!(log.next_seq, 3);
    assert_eq!(log.last_seq(), 2);
    assert_eq!(log.history[0].seq, 1);
    assert_eq!(log.history[0].data, vec![1, 7]);
    assert_eq!(log.history[1].seq, 2);
    assert_eq!(log.history[1].data, vec![2, 8]);
}

#[test]
fn the_history_keeps_the_last_hundred() {
    let mut log = EventSystem::new();
    for _ in 0..105 {
        log.record(|seq| vec![seq as u8]);
    }
    assert_eq!(log.next_seq, 106);
    assert_eq!(log.history.len(), 100);
    assert_eq!(log.history[0].seq, 6);
    assert_eq!(log.history[99].seq, 105);
    for i in 0..100 {
        assert_eq!(log.history[i].seq, 6 + i as u64);
        assert_eq!(log.history[i].data, vec![(6 + i) as u8]);
    }
}

#[test]
fn collect_after_returns_the_stored_bytes_after_a_number() {
    let mut log = EventSystem::new();
    for _ in 0..5 {
        log.record(|seq| vec![seq as u8, 0xee]);
    }
    assert_eq!(log.collect_after(3), vec![vec![4, 0xee], vec![5, 0xee]]);
    assert_eq!(log.collect_after(5), Vec::<Vec<u8>>::new());
    assert_eq!(log.collect_after(0).len(), 5);
}

#[test]
fn reset_starts_over() {
    let mut log = EventSystem::new();
    log.record(|_| vec![1]);
    log.reset();
    assert_eq!(log.next_seq, 1);
    assert_eq!(log.history.len(), 0);
    assert_eq!(log.record(|seq| vec![seq as u8]), vec![1]);
}

#[test]
fn reasons_are_spelled_out() {
    assert_eq!(inactivity_reason(), "Inactivity timeout");
    assert_eq!(too_far_behind_reason(101), "Sync failure: Too far behind (101 events)");
    assert_eq!(too_far_behind_reason(0), "Sync failure: Too far behind (0 events)");
    assert_eq!(
        too_far_behind_reason(u64::MAX),
        "Sync failure: Too far behind (18446744073709551615 events)"
    );
    assert_eq!(behind_repeatedly_reason(3), "Sync failure: Behind 3 consecutive times");
    assert_eq!(behind_repeatedly_reason(10), "Sync failure: Behind 10 consecutive times");
    assert_eq!(
        inconsistent_history_reason(),
        "Internal server error: Event history inconsistency"
    );
}

#[test]
fn positions_are_first_occurrences() {
    let a: Endpoint = (1, 1);
    let b: Endpoint = (1, 2);
    let c: Endpoint = (2, 1);
    let list = vec![a, b, a];
    assert_eq!(position_of_addr(&list, &a), Some(0));
    assert_eq!(position_of_addr(&list, &b), Some(1));
    assert_eq!(position_of_addr(&list, &c), None);
    let names = vec![(5u64, "x".to_string()), (6, "y".to_string()), (5, "z".to_string())];
    assert_eq!(position_of_id(&names, 5), Some(0));
    assert_eq!(position_of_id(&names, 6), Some(1));
    assert_eq!(position_of_id(&names, 7), None);
}

#[test]
fn removal_swaps_the_last_element_in() {
    let a: Endpoint = (1, 1);
    let b: Endpoint = (1, 2);
    let c: Endpoint = (2, 1);
    let mut list = vec![a, b, c];
    remove_addr(&mut list, &a);
    assert_eq!(list, vec![c, b]);
    remove_addr(&mut list, &a);
    assert_eq!(list, vec![c, b]);
    remove_addr(&mut list, &b);
    assert_eq!(list, vec![c]);
    remove_addr(&mut list, &c);
    assert_eq!(list, vec![]);
    let mut names = vec![(5u64, "x".to_string()), (6, "y".to_string()), (7, "z".to_string())];
    remove_id(&mut names, 5);
    assert_eq!(names, vec![(7, "z".to_string()), (6, "y".to_string())]);
    remove_id(&mut names, 9);
    assert_eq!(names.len(), 2);
}

#[test]
fn a_room_keeps_its_three_collections_in_step() {
    let a: Endpoint = (1, 1);
    let b: Endpoint = (1, 2);
    let mut room = Server::make_room("Lobby");
    assert_eq!(room.name, "Lobby");
    assert_eq!(room.users.len(), 0);
    room.seat(a, 1, "alice".to_string());
    room.seat(b, 2, "bob".to_string());
    assert_eq!(room.users.len(), 2);
    assert_eq!(*room.users.get(&a).unwrap(), 1);
    assert_eq!(*room.users.get(&b).unwrap(), 2);
    assert_eq!(room.joined_snapshot, vec![(1, "alice".to_string()), (2, "bob".to_string())]);
    assert_eq!(room.addr_list, vec![a, b]);
    room.unseat(&a, 1);
    assert_eq!(room.users.len(), 1);
    assert!(room.users.get(&a).is_none());
    assert_eq!(room.joined_snapshot, vec![(2, "bob".to_string())]);
    assert_eq!(room.addr_list, vec![b]);
}

#[test]
fn copies_are_equal_to_what_they_copy() {
    let user = User {
        id: 4,
        name: "dave".to_string(),
        hwid: "HW4".to_string(),
        last_seen: 77,
        room_id: 3,
        flags: 0,
        consecutive_behind: 2,
    };
    let copy = user.duplicate();
    assert_eq!(format!("{:?}", copy), format!("{:?}", user));
    let names = vec![(1u64, "a".to_string()), (2, "b".to_string())];
    assert_eq!(copy_names(&names), names);
}
