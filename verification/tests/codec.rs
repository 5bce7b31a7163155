use pigeonvc2::protocol::wire::take_cstring;
use pigeonvc2::protocol::{
    new_accepted, new_alive, new_alived, new_disconnect, new_event, new_join, new_joined,
    new_leave, new_ping, new_pong, new_rooms, new_rooms_list, new_switch, new_talk,
    new_talked_audio, parse_from_client_packet, parse_from_server_packet, ErrMalformed,
    PacketType, MAGIC, PING,
};

fn framed(opcode: u8, payload: &[u8]) -> Vec<u8> {
    let mut bytes = vec![0xde, 0xad, 0xc0, 0xde, 0, 0, 0, opcode];
    bytes.extend_from_slice(payload);
    bytes
}

#[test]
fn magic_and_opcodes_are_as_on_the_wire() {
    assert_eq!(MAGIC, [0xde, 0xad, 0xc0, 0xde]);
    assert_eq!(PING, 1);
}

#[test]
fn ping_is_magic_and_opcode_one() {
    assert_eq!(new_ping(), vec![0xde, 0xad, 0xc0, 0xde, 0, 0, 0, 1]);
}

#[test]
fn pong_is_magic_and_opcode_two() {
    assert_eq!(new_pong(), vec![0xde, 0xad, 0xc0, 0xde, 0, 0, 0, 2]);
}

#[test]
fn empty_frames_have_their_opcodes() {
    assert_eq!(new_alived(), framed(8, &[]));
    assert_eq!(new_leave(), framed(13, &[]));
}

#[test]
fn ping_decodes_on_the_server_side_only() {
    assert_eq!(parse_from_client_packet(&new_ping()), Ok(PacketType::Ping));
    assert_eq!(parse_from_server_packet(&new_ping()), Err(ErrMalformed::UnknownOpcode));
}

#[test]
fn pong_decodes_on_the_client_side_only() {
    assert_eq!(parse_from_server_packet(&new_pong()), Ok(PacketType::Pong));
    assert_eq!(parse_from_client_packet(&new_pong()), Err(ErrMalformed::UnknownOpcode));
}

#[test]
fn join_bytes_are_exact() {
    let bytes = new_join("alice", "HW1", 1);
    assert_eq!(
        bytes,
        vec![
            0xde, 0xad, 0xc0, 0xde, 0, 0, 0, 3, b'a', b'l', b'i', b'c', b'e', 0, b'H', b'W',
            b'1', 0, 0, 1
        ]
    );
}

#[test]
fn join_round_trips() {
    assert_eq!(
        parse_from_client_packet(&new_join("alice", "HW1", 0x1234)),
        Ok(PacketType::Join {
            name: "alice".to_string(),
            hwid: "HW1".to_string(),
            room_id: 0x1234
        })
    );
}

#[test]
fn join_with_non_ascii_name_round_trips() {
    let name = "Zoë \u{1F426} 鳩";
    assert_eq!(
        parse_from_client_packet(&new_join(name, "", 7)),
        Ok(PacketType::Join { name: name.to_string(), hwid: String::new(), room_id: 7 })
    );
}

#[test]
fn talk_round_trips_with_any_bytes() {
    let audio = vec![0u8, 255, 0, 1, 2, 0];
    assert_eq!(new_talk(&audio), framed(5, &audio));
    assert_eq!(
        parse_from_client_packet(&new_talk(&audio)),
        Ok(PacketType::Talk { audio_data: audio })
    );
    assert_eq!(
        parse_from_client_packet(&new_talk(&[])),
        Ok(PacketType::Talk { audio_data: vec![] })
    );
}

#[test]
fn alive_is_big_endian() {
    assert_eq!(new_alive(0x0102030405060708), framed(7, &[1, 2, 3, 4, 5, 6, 7, 8]));
    assert_eq!(
        parse_from_client_packet(&new_alive(u64::MAX)),
        Ok(PacketType::Alive { seq: u64::MAX })
    );
    assert_eq!(parse_from_client_packet(&new_alive(0)), Ok(PacketType::Alive { seq: 0 }));
}

#[test]
fn rooms_and_switch_round_trip() {
    assert_eq!(new_rooms(0x0a0b), framed(9, &[0x0a, 0x0b]));
    assert_eq!(new_switch(2), framed(12, &[0, 2]));
    assert_eq!(
        parse_from_client_packet(&new_rooms(65535)),
        Ok(PacketType::Rooms { offset: 65535 })
    );
    assert_eq!(parse_from_client_packet(&new_switch(2)), Ok(PacketType::Switch { room_id: 2 }));
    assert_eq!(parse_from_client_packet(&new_leave()), Ok(PacketType::Leave));
}

#[test]
fn joined_bytes_and_round_trip() {
    let users = vec![(1u64, "alice".to_string()), (0x0100u64, "bob".to_string())];
    let bytes = new_joined(2, users.clone());
    let mut payload = vec![0, 2];
    payload.extend_from_slice(&[0, 0, 0, 0, 0, 0, 0, 1]);
    payload.extend_from_slice(b"alice\0");
    payload.extend_from_slice(&[0, 0, 0, 0, 0, 0, 1, 0]);
    payload.extend_from_slice(b"bob\0");
    assert_eq!(bytes, framed(4, &payload));
    assert_eq!(parse_from_server_packet(&bytes), Ok(PacketType::Joined { room_id: 2, users }));
}

#[test]
fn joined_without_users_round_trips() {
    let bytes = new_joined(9, vec![]);
    assert_eq!(bytes, framed(4, &[0, 9]));
    assert_eq!(
        parse_from_server_packet(&bytes),
        Ok(PacketType::Joined { room_id: 9, users: vec![] })
    );
}

#[test]
fn talked_keeps_its_leading_zero_byte() {
    let bytes = new_talked_audio(0x0102, &[9, 8, 7]);
    assert_eq!(bytes, framed(6, &[0, 0, 0, 0, 0, 0, 0, 1, 2, 9, 8, 7]));
    assert_eq!(
        parse_from_server_packet(&bytes),
        Ok(PacketType::Talked { talker_id: 0x0102, audio_data: vec![9, 8, 7] })
    );
}

#[test]
fn rooms_list_bytes_and_round_trip() {
    let list = vec![(1u16, "Lobby".to_string()), (2u16, "Gaming".to_string())];
    let bytes = new_rooms_list(true, list.clone());
    let mut payload = vec![1, 0, 1];
    payload.extend_from_slice(b"Lobby\0");
    payload.extend_from_slice(&[0, 2]);
    payload.extend_from_slice(b"Gaming\0");
    assert_eq!(bytes, framed(10, &payload));
    assert_eq!(
        parse_from_server_packet(&bytes),
        Ok(PacketType::RoomsList { remaining: true, list })
    );
}

#[test]
fn event_bytes_and_round_trip() {
    let bytes = new_event(1, true, 1, 1, "alice");
    let mut payload = vec![0, 0, 0, 0, 0, 0, 0, 1, 0, 1, 0, 0, 0, 0, 0, 0, 0, 1];
    payload.extend_from_slice(b"alice\0");
    payload.push(1);
    assert_eq!(bytes, framed(11, &payload));
    assert_eq!(
        parse_from_server_packet(&bytes),
        Ok(PacketType::Event {
            seq: 1,
            joined: true,
            room_id: 1,
            user_id: 1,
            name: "alice".to_string()
        })
    );
    assert_eq!(
        parse_from_server_packet(&new_event(u64::MAX, false, 65535, 0, "")),
        Ok(PacketType::Event {
            seq: u64::MAX,
            joined: false,
            room_id: 65535,
            user_id: 0,
            name: String::new()
        })
    );
}

#[test]
fn disconnect_and_accepted_round_trip() {
    assert_eq!(new_disconnect("banned"), framed(14, b"banned\0"));
    assert_eq!(
        parse_from_server_packet(&new_disconnect("banned")),
        Ok(PacketType::Disconnect { reason: "banned".to_string() })
    );
    assert_eq!(
        new_accepted(1, 2),
        framed(15, &[0, 0, 0, 0, 0, 0, 0, 1, 0, 0, 0, 0, 0, 0, 0, 2])
    );
    assert_eq!(
        parse_from_server_packet(&new_accepted(7, 9)),
        Ok(PacketType::Accepted { latest_seq: 7, user_id: 9 })
    );
}

#[test]
fn into_bytes_agrees_with_the_encoders_and_round_trips() {
    let frames = vec![
        PacketType::Ping,
        PacketType::Join { name: "a".to_string(), hwid: "b".to_string(), room_id: 3 },
        PacketType::Talk { audio_data: vec![1, 2] },
        PacketType::Alive { seq: 5 },
        PacketType::Rooms { offset: 0 },
        PacketType::Switch { room_id: 4 },
        PacketType::Leave,
    ];
    for frame in frames {
        let expected = format!("{:?}", frame);
        let decoded = parse_from_client_packet(&frame.into_bytes()).unwrap();
        assert_eq!(format!("{:?}", decoded), expected);
    }
    let frames = vec![
        PacketType::Pong,
        PacketType::Joined { room_id: 1, users: vec![(1, "x".to_string())] },
        PacketType::Talked { talker_id: 1, audio_data: vec![0] },
        PacketType::Alived,
        PacketType::RoomsList { remaining: false, list: vec![(1, "Lobby".to_string())] },
        PacketType::Event { seq: 1, joined: false, room_id: 1, user_id: 1, name: "n".to_string() },
        PacketType::Disconnect { reason: "bye".to_string() },
        PacketType::Accepted { latest_seq: 3, user_id: 4 },
    ];
    for frame in frames {
        let expected = format!("{:?}", frame);
        let decoded = parse_from_server_packet(&frame.into_bytes()).unwrap();
        assert_eq!(format!("{:?}", decoded), expected);
    }
}

#[test]
fn short_datagrams_are_too_short() {
    assert_eq!(parse_from_client_packet(&[]), Err(ErrMalformed::TooShort));
    assert_eq!(
        parse_from_client_packet(&[0xde, 0xad, 0xc0, 0xde, 0, 0, 0]),
        Err(ErrMalformed::TooShort)
    );
    assert_eq!(parse_from_server_packet(&[0xde, 0xad, 0xc0]), Err(ErrMalformed::TooShort));
}

#[test]
fn wrong_magic_is_refused() {
    assert_eq!(
        parse_from_client_packet(&[0xde, 0xad, 0xc0, 0xdf, 0, 0, 0, 1]),
        Err(ErrMalformed::BadMagic)
    );
    assert_eq!(
        parse_from_server_packet(&[0, 0xad, 0xc0, 0xde, 0, 0, 0, 2]),
        Err(ErrMalformed::BadMagic)
    );
}

#[test]
fn unknown_opcodes_are_refused() {
    assert_eq!(parse_from_client_packet(&framed(99, &[])), Err(ErrMalformed::UnknownOpcode));
    assert_eq!(parse_from_client_packet(&framed(0, &[])), Err(ErrMalformed::UnknownOpcode));
    assert_eq!(
        parse_from_client_packet(&[0xde, 0xad, 0xc0, 0xde, 1, 0, 0, 1]),
        Err(ErrMalformed::UnknownOpcode)
    );
    assert_eq!(parse_from_server_packet(&framed(16, &[])), Err(ErrMalformed::UnknownOpcode));
}

#[test]
fn fixed_payloads_of_the_wrong_length_are_refused() {
    assert_eq!(parse_from_client_packet(&framed(1, &[0])), Err(ErrMalformed::BadLength));
    assert_eq!(parse_from_client_packet(&framed(13, &[0])), Err(ErrMalformed::BadLength));
    assert_eq!(parse_from_client_packet(&framed(7, &[0; 7])), Err(ErrMalformed::BadLength));
    assert_eq!(parse_from_client_packet(&framed(7, &[0; 9])), Err(ErrMalformed::BadLength));
    assert_eq!(parse_from_client_packet(&framed(9, &[0])), Err(ErrMalformed::BadLength));
    assert_eq!(parse_from_client_packet(&framed(12, &[0, 0, 0])), Err(ErrMalformed::BadLength));
    assert_eq!(parse_from_client_packet(&framed(3, b"a\0b\0\x01")), Err(ErrMalformed::BadLength));
    assert_eq!(
        parse_from_client_packet(&framed(3, b"a\0b\0\x00\x01\x02")),
        Err(ErrMalformed::BadLength)
    );
    assert_eq!(parse_from_server_packet(&framed(2, &[1])), Err(ErrMalformed::BadLength));
    assert_eq!(parse_from_server_packet(&framed(8, &[1])), Err(ErrMalformed::BadLength));
    assert_eq!(parse_from_server_packet(&framed(4, &[1])), Err(ErrMalformed::BadLength));
    assert_eq!(parse_from_server_packet(&framed(4, &[0, 1, 2, 3])), Err(ErrMalformed::BadLength));
    assert_eq!(parse_from_server_packet(&framed(6, &[0; 8])), Err(ErrMalformed::BadLength));
    assert_eq!(parse_from_server_packet(&framed(10, &[])), Err(ErrMalformed::BadLength));
    assert_eq!(parse_from_server_packet(&framed(10, &[0, 1])), Err(ErrMalformed::BadLength));
    assert_eq!(parse_from_server_packet(&framed(11, &[0; 17])), Err(ErrMalformed::BadLength));
    assert_eq!(parse_from_server_packet(&framed(14, b"x\0y")), Err(ErrMalformed::BadLength));
    assert_eq!(parse_from_server_packet(&framed(15, &[0; 15])), Err(ErrMalformed::BadLength));
    let mut event = vec![0u8; 18];
    event.extend_from_slice(b"n\0");
    assert_eq!(parse_from_server_packet(&framed(11, &event)), Err(ErrMalformed::BadLength));
    event.extend_from_slice(&[1, 1]);
    assert_eq!(parse_from_server_packet(&framed(11, &event)), Err(ErrMalformed::BadLength));
}

#[test]
fn strings_without_terminator_are_refused() {
    assert_eq!(
        parse_from_client_packet(&framed(3, b"alice")),
        Err(ErrMalformed::MissingTerminator)
    );
    assert_eq!(
        parse_from_client_packet(&framed(3, b"alice\0HW1")),
        Err(ErrMalformed::MissingTerminator)
    );
    assert_eq!(parse_from_client_packet(&framed(3, b"")), Err(ErrMalformed::MissingTerminator));
    assert_eq!(
        parse_from_server_packet(&framed(14, b"reason")),
        Err(ErrMalformed::MissingTerminator)
    );
    assert_eq!(
        parse_from_server_packet(&framed(4, &[0, 1, 1, 2, 3, 4, 5, 6, 7, 8, b'a'])),
        Err(ErrMalformed::MissingTerminator)
    );
}

#[test]
fn strings_that_are_not_utf8_are_refused() {
    assert_eq!(
        parse_from_client_packet(&framed(3, &[0xff, 0, b'h', 0, 0, 1])),
        Err(ErrMalformed::InvalidUtf8)
    );
    assert_eq!(
        parse_from_client_packet(&framed(3, &[b'a', 0, 0xc3, 0, 0, 1])),
        Err(ErrMalformed::InvalidUtf8)
    );
    assert_eq!(
        parse_from_server_packet(&framed(14, &[0xed, 0xa0, 0x80, 0])),
        Err(ErrMalformed::InvalidUtf8)
    );
}

#[test]
fn a_nonzero_boolean_byte_reads_as_true() {
    let mut event = vec![0u8; 18];
    event.extend_from_slice(b"n\0");
    event.push(2);
    assert_eq!(
        parse_from_server_packet(&framed(11, &event)),
        Ok(PacketType::Event { seq: 0, joined: true, room_id: 0, user_id: 0, name: "n".to_string() })
    );
}

#[test]
fn take_cstring_splits_at_the_first_nul() {
    assert_eq!(take_cstring(b"ab\0cd\0"), Ok(("ab", &b"cd\0"[..])));
    assert_eq!(take_cstring(b"\0"), Ok(("", &b""[..])));
    assert_eq!(take_cstring(b"abc"), Err(ErrMalformed::MissingTerminator));
    assert_eq!(take_cstring(&[0x80, 0]), Err(ErrMalformed::InvalidUtf8));
}
