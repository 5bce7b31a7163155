//! The frames of the protocol as a tagged union, and their mathematical view.

use vstd::prelude::*;

verus! {

/// Why a datagram was rejected by a decoder.
#[derive(Clone, Copy, Debug, PartialEq, Eq, Structural)]
pub enum ErrMalformed {
    /// Fewer than eight bytes: no room for magic and opcode.
    TooShort,
    /// The first four bytes are not the magic word.
    BadMagic,
    /// The opcode is not one that this direction carries.
    UnknownOpcode,
    /// A fixed-length part of the payload is missing, cut short or followed by more bytes.
    BadLength,
    /// A string is not closed by a NUL byte.
    MissingTerminator,
    /// A string is not UTF-8.
    InvalidUtf8,
}

/// One frame, in either direction.
#[derive(Debug, PartialEq, Eq)]
pub enum PacketType {
    Ping,
    Pong,
    Rooms { offset: u16 },
    RoomsList { remaining: bool, list: Vec<(u16, String)> },
    Join { name: String, hwid: String, room_id: u16 },
    Joined { room_id: u16, users: Vec<(u64, String)> },
    Talk { audio_data: Vec<u8> },
    Talked { talker_id: u64, audio_data: Vec<u8> },
    Event { seq: u64, joined: bool, room_id: u16, user_id: u64, name: String },
    Switch { room_id: u16 },
    Alive { seq: u64 },
    Alived,
    Leave,
    Disconnect { reason: String },
    Accepted { latest_seq: u64, user_id: u64 },
}

/// What a frame says, with strings as character sequences and lists as sequences.
pub enum Frame {
    Ping,
    Pong,
    Rooms { offset: u16 },
    RoomsList { remaining: bool, list: Seq<(u16, Seq<char>)> },
    Join { name: Seq<char>, hwid: Seq<char>, room_id: u16 },
    Joined { room_id: u16, users: Seq<(u64, Seq<char>)> },
    Talk { audio_data: Seq<u8> },
    Talked { talker_id: u64, audio_data: Seq<u8> },
    Event { seq: u64, joined: bool, room_id: u16, user_id: u64, name: Seq<char> },
    Switch { room_id: u16 },
    Alive { seq: u64 },
    Alived,
    Leave,
    Disconnect { reason: Seq<char> },
    Accepted { latest_seq: u64, user_id: u64 },
}

/// A list of tagged strings, each string taken as its characters.
pub open spec fn tagged_names<T>(list: Seq<(T, String)>) -> Seq<(T, Seq<char>)> {
    Seq::new(list.len(), |i: int| (list[i].0, list[i].1@))
}

impl View for PacketType {
    type V = Frame;

    open spec fn view(&self) -> Frame {
        match *self {
            PacketType::Ping => Frame::Ping,
            PacketType::Pong => Frame::Pong,
            PacketType::Rooms { offset } => Frame::Rooms { offset },
            PacketType::RoomsList { remaining, list } => Frame::RoomsList {
                remaining,
                list: tagged_names(list@),
            },
            PacketType::Join { name, hwid, room_id } => Frame::Join {
                name: name@,
                hwid: hwid@,
                room_id,
            },
            PacketType::Joined { room_id, users } => Frame::Joined {
                room_id,
                users: tagged_names(users@),
            },
            PacketType::Talk { audio_data } => Frame::Talk { audio_data: audio_data@ },
            PacketType::Talked { talker_id, audio_data } => Frame::Talked {
                talker_id,
                audio_data: audio_data@,
            },
            PacketType::Event { seq, joined, room_id, user_id, name } => Frame::Event {
                seq,
                joined,
                room_id,
                user_id,
                name: name@,
            },
            PacketType::Switch { room_id } => Frame::Switch { room_id },
            PacketType::Alive { seq } => Frame::Alive { seq },
            PacketType::Alived => Frame::Alived,
            PacketType::Leave => Frame::Leave,
            PacketType::Disconnect { reason } => Frame::Disconnect { reason: reason@ },
            PacketType::Accepted { latest_seq, user_id } => Frame::Accepted { latest_seq, user_id },
        }
    }
}

/// No character of `s` is NUL, so `s` can be written as a NUL-terminated string.
pub open spec fn nul_free(s: Seq<char>) -> bool {
    forall|i: int| 0 <= i < s.len() ==> s[i] != '\0'
}

/// Every string of the list is free of NUL.
pub open spec fn names_nul_free<T>(list: Seq<(T, Seq<char>)>) -> bool {
    forall|i: int| 0 <= i < list.len() ==> nul_free(#[trigger] list[i].1)
}

impl Frame {
    /// The frame travels from a client to the server.
    pub open spec fn from_client(self) -> bool {
        match self {
            Frame::Ping => true,
            Frame::Join { .. } => true,
            Frame::Talk { .. } => true,
            Frame::Alive { .. } => true,
            Frame::Rooms { .. } => true,
            Frame::Switch { .. } => true,
            Frame::Leave => true,
            _ => false,
        }
    }

    /// The frame travels from the server to a client.
    pub open spec fn from_server(self) -> bool {
        !self.from_client()
    }

    /// Every string in the frame can be written NUL-terminated.
    pub open spec fn well_formed(self) -> bool {
        match self {
            Frame::RoomsList { list, .. } => names_nul_free(list),
            Frame::Join { name, hwid, .. } => nul_free(name) && nul_free(hwid),
            Frame::Joined { users, .. } => names_nul_free(users),
            Frame::Event { name, .. } => nul_free(name),
            Frame::Disconnect { reason } => nul_free(reason),
            _ => true,
        }
    }
}

} // verus!
