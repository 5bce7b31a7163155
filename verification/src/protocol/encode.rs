//! Encoders: one function per frame, each proved to write exactly the bytes
//! that `frame_bytes` assigns to the frame.

use vstd::prelude::*;

use crate::protocol::constants::{
    magic, ACCEPTED, ALIVE, ALIVED, DISCONNECT, EVENT, JOIN, JOINED, LEAVE, MAGIC, PING, PONG,
    ROOMS, ROOMSLIST, SWITCH, TALK, TALKED,
};
use crate::protocol::packet::{tagged_names, Frame, PacketType};
use crate::protocol::wire::{be_u16, be_u32, be_u64, bool_byte, cstr, put_u16, put_u32, put_u64};

verus! {

/// The eight bytes that open a frame with the given opcode.
pub open spec fn header(opcode: u32) -> Seq<u8> {
    magic() + be_u32(opcode)
}

/// One entry of a `Joined` payload: the user's id, then the user's name.
pub open spec fn user_entry(e: (u64, Seq<char>)) -> Seq<u8> {
    be_u64(e.0) + cstr(e.1)
}

/// One entry of a `RoomsList` payload: the room's id, then the room's name.
pub open spec fn room_entry(e: (u16, Seq<char>)) -> Seq<u8> {
    be_u16(e.0) + cstr(e.1)
}

/// The entries of a `Joined` payload, one after the other.
pub open spec fn user_entries(list: Seq<(u64, Seq<char>)>) -> Seq<u8>
    decreases list.len(),
{
    if list.len() == 0 {
        Seq::empty()
    } else {
        user_entry(list[0]) + user_entries(list.drop_first())
    }
}

/// The entries of a `RoomsList` payload, one after the other.
pub open spec fn room_entries(list: Seq<(u16, Seq<char>)>) -> Seq<u8>
    decreases list.len(),
{
    if list.len() == 0 {
        Seq::empty()
    } else {
        room_entry(list[0]) + room_entries(list.drop_first())
    }
}

/// The datagram that carries a frame.
pub open spec fn frame_bytes(f: Frame) -> Seq<u8> {
    match f {
        Frame::Ping => header(PING),
        Frame::Pong => header(PONG),
        Frame::Rooms { offset } => header(ROOMS) + be_u16(offset),
        Frame::RoomsList { remaining, list } => header(ROOMSLIST) + seq![bool_byte(remaining)]
            + room_entries(list),
        Frame::Join { name, hwid, room_id } => header(JOIN) + cstr(name) + cstr(hwid) + be_u16(
            room_id,
        ),
        Frame::Joined { room_id, users } => header(JOINED) + be_u16(room_id) + user_entries(users),
        Frame::Talk { audio_data } => header(TALK) + audio_data,
        Frame::Talked { talker_id, audio_data } => header(TALKED) + seq![0u8] + be_u64(talker_id)
            + audio_data,
        Frame::Event { seq, joined, room_id, user_id, name } => header(EVENT) + be_u64(seq)
            + be_u16(room_id) + be_u64(user_id) + cstr(name) + seq![bool_byte(joined)],
        Frame::Switch { room_id } => header(SWITCH) + be_u16(room_id),
        Frame::Alive { seq } => header(ALIVE) + be_u64(seq),
        Frame::Alived => header(ALIVED),
        Frame::Leave => header(LEAVE),
        Frame::Disconnect { reason } => header(DISCONNECT) + cstr(reason),
        Frame::Accepted { latest_seq, user_id } => header(ACCEPTED) + be_u64(latest_seq) + be_u64(
            user_id,
        ),
    }
}

/// Adding an entry to a list of users adds its bytes at the end.
pub proof fn lemma_user_entries_push(list: Seq<(u64, Seq<char>)>, e: (u64, Seq<char>))
    ensures
        user_entries(list.push(e)) == user_entries(list) + user_entry(e),
    decreases list.len(),
{
    let longer = list.push(e);
    if list.len() == 0 {
        assert(longer.drop_first() =~= Seq::empty());
        assert(user_entries(longer.drop_first()) =~= Seq::empty());
        assert(user_entries(longer) =~= user_entries(list) + user_entry(e));
    } else {
        assert(longer.drop_first() =~= list.drop_first().push(e));
        lemma_user_entries_push(list.drop_first(), e);
        assert(user_entries(longer) =~= user_entries(list) + user_entry(e));
    }
}

/// Adding an entry to a list of rooms adds its bytes at the end.
pub proof fn lemma_room_entries_push(list: Seq<(u16, Seq<char>)>, e: (u16, Seq<char>))
    ensures
        room_entries(list.push(e)) == room_entries(list) + room_entry(e),
    decreases list.len(),
{
    let longer = list.push(e);
    if list.len() == 0 {
        assert(longer.drop_first() =~= Seq::empty());
        assert(room_entries(longer.drop_first()) =~= Seq::empty());
        assert(room_entries(longer) =~= room_entries(list) + room_entry(e));
    } else {
        assert(longer.drop_first() =~= list.drop_first().push(e));
        lemma_room_entries_push(list.drop_first(), e);
        assert(room_entries(longer) =~= room_entries(list) + room_entry(e));
    }
}

/// A fresh datagram holding the magic word and the opcode.
fn start(opcode: u32) -> (packet: Vec<u8>)
    ensures
        packet@ == header(opcode),
{
    let mut packet: Vec<u8> = Vec::new();
    packet.push(MAGIC[0]);
    packet.push(MAGIC[1]);
    packet.push(MAGIC[2]);
    packet.push(MAGIC[3]);
    assert(packet@ =~= magic());
    put_u32(&mut packet, opcode);
    packet
}

/// Appends raw bytes.
fn put_bytes(packet: &mut Vec<u8>, bytes: &[u8])
    ensures
        final(packet)@ == old(packet)@ + bytes@,
{
    packet.extend_from_slice(bytes);
    assert(packet@ =~= old(packet)@ + bytes@);
}

/// Appends a string and its terminator.
fn put_cstr(packet: &mut Vec<u8>, s: &str)
    ensures
        final(packet)@ == old(packet)@ + cstr(s@),
{
    put_bytes(packet, s.as_bytes());
    packet.push(0);
    assert(packet@ =~= old(packet)@ + cstr(s@));
}

/// Appends a boolean as one byte.
fn put_bool(packet: &mut Vec<u8>, b: bool)
    ensures
        final(packet)@ == old(packet)@ + seq![bool_byte(b)],
{
    packet.push(if b { 1 } else { 0 });
    assert(packet@ =~= old(packet)@ + seq![bool_byte(b)]);
}

/// An `Accepted` frame: the sequence number of the join's event and the new
/// user's id.
pub fn new_accepted(seq: u64, user_id: u64) -> (packet: Vec<u8>)
    ensures
        packet@ == frame_bytes(Frame::Accepted { latest_seq: seq, user_id }),
{
    let mut packet = start(ACCEPTED);
    put_u64(&mut packet, seq);
    put_u64(&mut packet, user_id);
    packet
}

/// A `Ping` frame.
pub fn new_ping() -> (packet: Vec<u8>)
    ensures
        packet@ == frame_bytes(Frame::Ping),
{
    start(PING)
}

/// A `Pong` frame.
pub fn new_pong() -> (packet: Vec<u8>)
    ensures
        packet@ == frame_bytes(Frame::Pong),
{
    start(PONG)
}

/// A `Rooms` frame: a request for the page of the catalog that starts at
/// `offset`.
pub fn new_rooms(offset: u16) -> (packet: Vec<u8>)
    ensures
        packet@ == frame_bytes(Frame::Rooms { offset }),
{
    let mut packet = start(ROOMS);
    put_u16(&mut packet, offset);
    packet
}

/// A `RoomsList` frame: whether more rooms follow, and one entry per room.
pub fn new_rooms_list(remaining: bool, list: Vec<(u16, String)>) -> (packet: Vec<u8>)
    ensures
        packet@ == frame_bytes(Frame::RoomsList { remaining, list: tagged_names(list@) }),
{
    let mut packet = start(ROOMSLIST);
    put_bool(&mut packet, remaining);
    let ghost lead = packet@;
    let ghost rooms = tagged_names(list@);
    let mut i: usize = 0;
    while i < list.len()
        invariant
            i <= list@.len(),
            rooms == tagged_names(list@),
            packet@ == lead + room_entries(rooms.take(i as int)),
        decreases list@.len() - i,
    {
        put_u16(&mut packet, list[i].0);
        put_cstr(&mut packet, list[i].1.as_str());
        proof {
            lemma_room_entries_push(rooms.take(i as int), rooms[i as int]);
            assert(rooms.take(i + 1) =~= rooms.take(i as int).push(rooms[i as int]));
            assert(packet@ =~= lead + room_entries(rooms.take(i + 1)));
        }
        i += 1;
    }
    assert(rooms.take(i as int) =~= rooms);
    packet
}

/// An `Event` frame: the user came into the room (`joined`) or left it.
pub fn new_event(seq: u64, joined: bool, room_id: u16, user_id: u64, name: &str) -> (packet: Vec<
    u8,
>)
    ensures
        packet@ == frame_bytes(Frame::Event { seq, joined, room_id, user_id, name: name@ }),
{
    let mut packet = start(EVENT);
    put_u64(&mut packet, seq);
    put_u16(&mut packet, room_id);
    put_u64(&mut packet, user_id);
    put_cstr(&mut packet, name);
    put_bool(&mut packet, joined);
    packet
}

/// A `Join` frame.
pub fn new_join(name: &str, hwid: &str, room_id: u16) -> (packet: Vec<u8>)
    ensures
        packet@ == frame_bytes(Frame::Join { name: name@, hwid: hwid@, room_id }),
{
    let mut packet = start(JOIN);
    put_cstr(&mut packet, name);
    put_cstr(&mut packet, hwid);
    put_u16(&mut packet, room_id);
    packet
}

/// A `Joined` frame: who is in the room.
pub fn new_joined(room_id: u16, users: Vec<(u64, String)>) -> (packet: Vec<u8>)
    ensures
        packet@ == frame_bytes(Frame::Joined { room_id, users: tagged_names(users@) }),
{
    let mut packet = start(JOINED);
    put_u16(&mut packet, room_id);
    let ghost lead = packet@;
    let ghost members = tagged_names(users@);
    let mut i: usize = 0;
    while i < users.len()
        invariant
            i <= users@.len(),
            members == tagged_names(users@),
            packet@ == lead + user_entries(members.take(i as int)),
        decreases users@.len() - i,
    {
        put_u64(&mut packet, users[i].0);
        put_cstr(&mut packet, users[i].1.as_str());
        proof {
            lemma_user_entries_push(members.take(i as int), members[i as int]);
            assert(members.take(i + 1) =~= members.take(i as int).push(members[i as int]));
            assert(packet@ =~= lead + user_entries(members.take(i + 1)));
        }
        i += 1;
    }
    assert(members.take(i as int) =~= members);
    packet
}

/// A `Talk` frame around the audio bytes.
pub fn new_talk(audio_data: &[u8]) -> (packet: Vec<u8>)
    ensures
        packet@ == frame_bytes(Frame::Talk { audio_data: audio_data@ }),
{
    let mut packet = start(TALK);
    put_bytes(&mut packet, audio_data);
    packet
}

/// A `Talked` frame: a zero byte, the talker's id and the audio bytes.
pub fn new_talked_audio(talker: u64, audio_data: &[u8]) -> (packet: Vec<u8>)
    ensures
        packet@ == frame_bytes(Frame::Talked { talker_id: talker, audio_data: audio_data@ }),
{
    let mut packet = start(TALKED);
    packet.push(0);
    assert(packet@ =~= header(TALKED) + seq![0u8]);
    put_u64(&mut packet, talker);
    put_bytes(&mut packet, audio_data);
    packet
}

/// An `Alive` frame: the last sequence number that the client has seen, or
/// 0 to ask for no replay.
pub fn new_alive(client_seq: u64) -> (packet: Vec<u8>)
    ensures
        packet@ == frame_bytes(Frame::Alive { seq: client_seq }),
{
    let mut packet = start(ALIVE);
    put_u64(&mut packet, client_seq);
    packet
}

/// An `Alived` frame.
pub fn new_alived() -> (packet: Vec<u8>)
    ensures
        packet@ == frame_bytes(Frame::Alived),
{
    start(ALIVED)
}

/// A `Switch` frame.
pub fn new_switch(room_id: u16) -> (packet: Vec<u8>)
    ensures
        packet@ == frame_bytes(Frame::Switch { room_id }),
{
    let mut packet = start(SWITCH);
    put_u16(&mut packet, room_id);
    packet
}

/// A `Leave` frame.
pub fn new_leave() -> (packet: Vec<u8>)
    ensures
        packet@ == frame_bytes(Frame::Leave),
{
    start(LEAVE)
}

/// A `Disconnect` frame with the reason.
pub fn new_disconnect(reason: &str) -> (packet: Vec<u8>)
    ensures
        packet@ == frame_bytes(Frame::Disconnect { reason: reason@ }),
{
    let mut packet = start(DISCONNECT);
    put_cstr(&mut packet, reason);
    packet
}

impl PacketType {
    /// The datagram that carries this frame.
    pub fn into_bytes(self) -> (packet: Vec<u8>)
        ensures
            packet@ == frame_bytes(self@),
    {
        match self {
            PacketType::Ping => new_ping(),
            PacketType::Pong => new_pong(),
            PacketType::Rooms { offset } => new_rooms(offset),
            PacketType::RoomsList { remaining, list } => new_rooms_list(remaining, list),
            PacketType::Join { name, hwid, room_id } => new_join(
                name.as_str(),
                hwid.as_str(),
                room_id,
            ),
            PacketType::Joined { room_id, users } => new_joined(room_id, users),
            PacketType::Talk { audio_data } => new_talk(audio_data.as_slice()),
            PacketType::Talked { talker_id, audio_data } => new_talked_audio(
                talker_id,
                audio_data.as_slice(),
            ),
            PacketType::Event { seq, joined, room_id, user_id, name } => new_event(
                seq,
                joined,
                room_id,
                user_id,
                name.as_str(),
            ),
            PacketType::Switch { room_id } => new_switch(room_id),
            PacketType::Alive { seq } => new_alive(seq),
            PacketType::Alived => new_alived(),
            PacketType::Leave => new_leave(),
            PacketType::Disconnect { reason } => new_disconnect(reason.as_str()),
            PacketType::Accepted { latest_seq, user_id } => new_accepted(latest_seq, user_id),
        }
    }
}

} // verus!
