//! The codec's round-trip property: a well-formed frame, encoded and then
//! decoded in its own direction, comes back unchanged.

use vstd::prelude::*;

use crate::protocol::constants::{
    magic, ACCEPTED, ALIVE, ALIVED, DISCONNECT, EVENT, JOIN, JOINED, LEAVE, PING, PONG, ROOMS,
    ROOMSLIST, SWITCH, TALK, TALKED,
};
use crate::protocol::decode::{
    decode_client, decode_server, event_payload, join_payload, parse_rooms, parse_users,
    server_payload, split_frame,
};
use crate::protocol::encode::{frame_bytes, header, room_entries, user_entries};
use crate::protocol::packet::{names_nul_free, nul_free, ErrMalformed, Frame};
use crate::protocol::wire::{
    be_u16, be_u32, be_u64, bool_byte, cstr, lemma_cstr_round_trip, lemma_u16_round_trip,
    lemma_u32_round_trip, lemma_u64_round_trip, u16_from_be, u32_from_be, u64_from_be,
};

verus! {

/// A two-byte number in front of other bytes is read back, and skipping it
/// leaves the other bytes.
pub proof fn lemma_u16_in_front(v: u16, rest: Seq<u8>)
    ensures
        u16_from_be(be_u16(v) + rest) == v,
        (be_u16(v) + rest).len() == 2 + rest.len(),
        (be_u16(v) + rest).skip(2) == rest,
{
    lemma_u16_round_trip(v);
    let b = be_u16(v) + rest;
    assert(b[0] == be_u16(v)[0] && b[1] == be_u16(v)[1]);
    assert(b.skip(2) =~= rest);
}

/// A four-byte number in front of other bytes is read back, and skipping it
/// leaves the other bytes.
pub proof fn lemma_u32_in_front(v: u32, rest: Seq<u8>)
    ensures
        u32_from_be(be_u32(v) + rest) == v,
        (be_u32(v) + rest).len() == 4 + rest.len(),
        (be_u32(v) + rest).skip(4) == rest,
{
    lemma_u32_round_trip(v);
    let b = be_u32(v) + rest;
    let w = be_u32(v);
    assert(b[0] == w[0] && b[1] == w[1] && b[2] == w[2] && b[3] == w[3]);
    assert(b.skip(4) =~= rest);
}

/// An eight-byte number in front of other bytes is read back, and skipping
/// it leaves the other bytes.
pub proof fn lemma_u64_in_front(v: u64, rest: Seq<u8>)
    ensures
        u64_from_be(be_u64(v) + rest) == v,
        (be_u64(v) + rest).len() == 8 + rest.len(),
        (be_u64(v) + rest).skip(8) == rest,
{
    lemma_u64_round_trip(v);
    let b = be_u64(v) + rest;
    let w = be_u64(v);
    assert(b[0] == w[0] && b[1] == w[1] && b[2] == w[2] && b[3] == w[3]);
    assert(b[4] == w[4] && b[5] == w[5] && b[6] == w[6] && b[7] == w[7]);
    assert(b.skip(8) =~= rest);
}

/// A header in front of a payload splits into its opcode and that payload.
pub proof fn lemma_header_splits(opcode: u32, p: Seq<u8>)
    ensures
        split_frame(header(opcode) + p) == Ok::<_, ErrMalformed>((opcode, p)),
{
    let b = header(opcode) + p;
    lemma_u32_in_front(opcode, p);
    assert(b.subrange(0, 4) =~= magic());
    assert(b.skip(4) =~= be_u32(opcode) + p);
    assert(b.skip(8) =~= p);
}

/// The entries written for a list of users are read back as that list.
pub proof fn lemma_users_round_trip(list: Seq<(u64, Seq<char>)>)
    requires
        names_nul_free(list),
    ensures
        parse_users(user_entries(list)) == Ok::<_, ErrMalformed>(list),
    decreases list.len(),
{
    if list.len() > 0 {
        let tail = list.drop_first();
        let later = user_entries(tail);
        let b = user_entries(list);
        assert(names_nul_free(tail)) by {
            assert forall|i: int| 0 <= i < tail.len() implies nul_free(#[trigger] tail[i].1) by {
                assert(tail[i] == list[i + 1]);
            }
        }
        lemma_users_round_trip(tail);
        assert(b =~= be_u64(list[0].0) + (cstr(list[0].1) + later));
        lemma_u64_in_front(list[0].0, cstr(list[0].1) + later);
        assert(nul_free(list[0].1));
        lemma_cstr_round_trip(list[0].1, later);
        assert(seq![list[0]] + tail =~= list);
    } else {
        assert(list =~= Seq::empty());
    }
}

/// The entries written for a list of rooms are read back as that list.
pub proof fn lemma_rooms_round_trip(list: Seq<(u16, Seq<char>)>)
    requires
        names_nul_free(list),
    ensures
        parse_rooms(room_entries(list)) == Ok::<_, ErrMalformed>(list),
    decreases list.len(),
{
    if list.len() > 0 {
        let tail = list.drop_first();
        let later = room_entries(tail);
        let b = room_entries(list);
        assert(names_nul_free(tail)) by {
            assert forall|i: int| 0 <= i < tail.len() implies nul_free(#[trigger] tail[i].1) by {
                assert(tail[i] == list[i + 1]);
            }
        }
        lemma_rooms_round_trip(tail);
        assert(b =~= be_u16(list[0].0) + (cstr(list[0].1) + later));
        lemma_u16_in_front(list[0].0, cstr(list[0].1) + later);
        assert(nul_free(list[0].1));
        lemma_cstr_round_trip(list[0].1, later);
        assert(seq![list[0]] + tail =~= list);
    } else {
        assert(list =~= Seq::empty());
    }
}

proof fn lemma_join_round_trip(name: Seq<char>, hwid: Seq<char>, room_id: u16)
    requires
        nul_free(name),
        nul_free(hwid),
    ensures
        join_payload(cstr(name) + cstr(hwid) + be_u16(room_id)) == Ok::<_, ErrMalformed>(
            Frame::Join { name, hwid, room_id },
        ),
{
    let p = cstr(name) + cstr(hwid) + be_u16(room_id);
    assert(p =~= cstr(name) + (cstr(hwid) + be_u16(room_id)));
    lemma_cstr_round_trip(name, cstr(hwid) + be_u16(room_id));
    lemma_cstr_round_trip(hwid, be_u16(room_id));
    lemma_u16_round_trip(room_id);
}

proof fn lemma_event_round_trip(seq: u64, joined: bool, room_id: u16, user_id: u64, name: Seq<char>)
    requires
        nul_free(name),
    ensures
        event_payload(
            be_u64(seq) + be_u16(room_id) + be_u64(user_id) + cstr(name) + seq![bool_byte(joined)],
        ) == Ok::<_, ErrMalformed>(Frame::Event { seq, joined, room_id, user_id, name }),
{
    let last = seq![bool_byte(joined)];
    let p = be_u64(seq) + be_u16(room_id) + be_u64(user_id) + cstr(name) + last;
    let after_seq = be_u16(room_id) + (be_u64(user_id) + (cstr(name) + last));
    let after_room = be_u64(user_id) + (cstr(name) + last);
    assert(p =~= be_u64(seq) + after_seq);
    lemma_u64_in_front(seq, after_seq);
    lemma_u16_in_front(room_id, after_room);
    lemma_u64_in_front(user_id, cstr(name) + last);
    assert(p.skip(8) =~= after_seq);
    assert(p.skip(10) =~= after_room);
    assert(p.skip(18) =~= cstr(name) + last);
    lemma_cstr_round_trip(name, last);
}

/// A well-formed frame from a client, encoded and decoded by the server's
/// side, comes back unchanged.
pub proof fn lemma_client_round_trip(f: Frame)
    requires
        f.from_client(),
        f.well_formed(),
    ensures
        decode_client(frame_bytes(f)) == Ok::<_, ErrMalformed>(f),
{
    match f {
        Frame::Ping => {
            assert(frame_bytes(f) =~= header(PING) + Seq::empty());
            lemma_header_splits(PING, Seq::empty());
        },
        Frame::Join { name, hwid, room_id } => {
            let p = cstr(name) + cstr(hwid) + be_u16(room_id);
            assert(frame_bytes(f) =~= header(JOIN) + p);
            lemma_header_splits(JOIN, p);
            lemma_join_round_trip(name, hwid, room_id);
        },
        Frame::Talk { audio_data } => {
            lemma_header_splits(TALK, audio_data);
        },
        Frame::Alive { seq } => {
            lemma_header_splits(ALIVE, be_u64(seq));
            lemma_u64_round_trip(seq);
        },
        Frame::Rooms { offset } => {
            lemma_header_splits(ROOMS, be_u16(offset));
            lemma_u16_round_trip(offset);
        },
        Frame::Switch { room_id } => {
            lemma_header_splits(SWITCH, be_u16(room_id));
            lemma_u16_round_trip(room_id);
        },
        Frame::Leave => {
            assert(frame_bytes(f) =~= header(LEAVE) + Seq::empty());
            lemma_header_splits(LEAVE, Seq::empty());
        },
        _ => {},
    }
}

proof fn lemma_joined_round_trip(room_id: u16, users: Seq<(u64, Seq<char>)>)
    requires
        names_nul_free(users),
    ensures
        server_payload(JOINED, be_u16(room_id) + user_entries(users)) == Ok::<_, ErrMalformed>(
            Frame::Joined { room_id, users },
        ),
{
    lemma_u16_in_front(room_id, user_entries(users));
    lemma_users_round_trip(users);
}

proof fn lemma_rooms_list_round_trip(remaining: bool, list: Seq<(u16, Seq<char>)>)
    requires
        names_nul_free(list),
    ensures
        server_payload(ROOMSLIST, seq![bool_byte(remaining)] + room_entries(list)) == Ok::<
            _,
            ErrMalformed,
        >(Frame::RoomsList { remaining, list }),
{
    let p = seq![bool_byte(remaining)] + room_entries(list);
    assert(p.skip(1) =~= room_entries(list));
    assert(p[0] == bool_byte(remaining));
    lemma_rooms_round_trip(list);
}

proof fn lemma_talked_round_trip(talker_id: u64, audio_data: Seq<u8>)
    ensures
        server_payload(TALKED, seq![0u8] + be_u64(talker_id) + audio_data) == Ok::<_, ErrMalformed>(
            Frame::Talked { talker_id, audio_data },
        ),
{
    let p = seq![0u8] + be_u64(talker_id) + audio_data;
    lemma_u64_in_front(talker_id, audio_data);
    assert(p.skip(1) =~= be_u64(talker_id) + audio_data);
    assert(p.skip(9) =~= audio_data);
}

proof fn lemma_accepted_round_trip(latest_seq: u64, user_id: u64)
    ensures
        server_payload(ACCEPTED, be_u64(latest_seq) + be_u64(user_id)) == Ok::<_, ErrMalformed>(
            Frame::Accepted { latest_seq, user_id },
        ),
{
    lemma_u64_in_front(latest_seq, be_u64(user_id));
    lemma_u64_round_trip(user_id);
}

proof fn lemma_server_plain(f: Frame)
    requires
        f is Pong || f is Alived || f is Disconnect,
        f.well_formed(),
    ensures
        decode_server(frame_bytes(f)) == Ok::<_, ErrMalformed>(f),
{
    match f {
        Frame::Pong => {
            assert(frame_bytes(f) =~= header(PONG) + Seq::empty());
            lemma_header_splits(PONG, Seq::empty());
        },
        Frame::Alived => {
            assert(frame_bytes(f) =~= header(ALIVED) + Seq::empty());
            lemma_header_splits(ALIVED, Seq::empty());
        },
        Frame::Disconnect { reason } => {
            lemma_header_splits(DISCONNECT, cstr(reason));
            assert(cstr(reason) =~= cstr(reason) + Seq::empty());
            lemma_cstr_round_trip(reason, Seq::empty());
        },
        _ => {},
    }
}

proof fn lemma_server_lists(f: Frame)
    requires
        f is Joined || f is RoomsList,
        f.well_formed(),
    ensures
        decode_server(frame_bytes(f)) == Ok::<_, ErrMalformed>(f),
{
    match f {
        Frame::Joined { room_id, users } => {
            let p = be_u16(room_id) + user_entries(users);
            assert(frame_bytes(f) =~= header(JOINED) + p);
            lemma_header_splits(JOINED, p);
            lemma_joined_round_trip(room_id, users);
        },
        Frame::RoomsList { remaining, list } => {
            let p = seq![bool_byte(remaining)] + room_entries(list);
            assert(frame_bytes(f) =~= header(ROOMSLIST) + p);
            lemma_header_splits(ROOMSLIST, p);
            lemma_rooms_list_round_trip(remaining, list);
        },
        _ => {},
    }
}

proof fn lemma_server_fixed(f: Frame)
    requires
        f is Talked || f is Accepted,
    ensures
        decode_server(frame_bytes(f)) == Ok::<_, ErrMalformed>(f),
{
    match f {
        Frame::Talked { talker_id, audio_data } => {
            let p = seq![0u8] + be_u64(talker_id) + audio_data;
            assert(frame_bytes(f) =~= header(TALKED) + p);
            lemma_header_splits(TALKED, p);
            lemma_talked_round_trip(talker_id, audio_data);
        },
        Frame::Accepted { latest_seq, user_id } => {
            let p = be_u64(latest_seq) + be_u64(user_id);
            assert(frame_bytes(f) =~= header(ACCEPTED) + p);
            lemma_header_splits(ACCEPTED, p);
            lemma_accepted_round_trip(latest_seq, user_id);
        },
        _ => {},
    }
}

proof fn lemma_server_event(f: Frame)
    requires
        f is Event,
        f.well_formed(),
    ensures
        decode_server(frame_bytes(f)) == Ok::<_, ErrMalformed>(f),
{
    match f {
        Frame::Event { seq, joined, room_id, user_id, name } => {
            let p = be_u64(seq) + be_u16(room_id) + be_u64(user_id) + cstr(name) + seq![
                bool_byte(joined),
            ];
            assert(frame_bytes(f) =~= header(EVENT) + p);
            lemma_header_splits(EVENT, p);
            lemma_event_round_trip(seq, joined, room_id, user_id, name);
        },
        _ => {},
    }
}

/// A well-formed frame from the server, encoded and decoded by a client's
/// side, comes back unchanged.
pub proof fn lemma_server_round_trip(f: Frame)
    requires
        f.from_server(),
        f.well_formed(),
    ensures
        decode_server(frame_bytes(f)) == Ok::<_, ErrMalformed>(f),
{
    if f is Pong || f is Alived || f is Disconnect {
        lemma_server_plain(f);
    } else if f is Joined || f is RoomsList {
        lemma_server_lists(f);
    } else if f is Talked || f is Accepted {
        lemma_server_fixed(f);
    } else {
        lemma_server_event(f);
    }
}

/// The codec is direction-typed: what the server-side decoder accepts is a
/// frame that clients send, and what the client-side decoder accepts is a
/// frame that the server sends.
pub proof fn lemma_decoders_keep_direction(b: Seq<u8>)
    ensures
        decode_client(b) matches Ok(f) ==> f.from_client(),
        decode_server(b) matches Ok(f) ==> f.from_server(),
{
}

} // verus!
