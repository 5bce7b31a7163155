//! Decoders, one per direction.  `decode_client` and `decode_server` say
//! what every byte string means; the two parsers are proved to compute them.

use vstd::prelude::*;
use vstd::slice::{slice_subrange, slice_to_vec};

use crate::protocol::constants::{
    magic, ACCEPTED, ALIVE, ALIVED, DISCONNECT, EVENT, JOIN, JOINED, LEAVE, MAGIC, PING, PONG,
    ROOMS, ROOMSLIST, SWITCH, TALK, TALKED,
};
use crate::protocol::packet::{tagged_names, ErrMalformed, Frame, PacketType};
use crate::protocol::wire::{
    get_u16, get_u32, get_u64, lemma_parse_cstr_shrinks, parse_cstr, take_cstring, u16_from_be,
    u32_from_be, u64_from_be,
};

verus! {

/// A decoded list in front of what the rest of the payload decodes to.
pub open spec fn prepend<T>(
    done: Seq<(T, Seq<char>)>,
    rest: Result<Seq<(T, Seq<char>)>, ErrMalformed>,
) -> Result<Seq<(T, Seq<char>)>, ErrMalformed> {
    match rest {
        Ok(more) => Ok(done + more),
        Err(e) => Err(e),
    }
}

/// The entries of a `Joined` payload: while bytes are left, an id of eight
/// bytes and a NUL-terminated name.
pub open spec fn parse_users(b: Seq<u8>) -> Result<Seq<(u64, Seq<char>)>, ErrMalformed>
    decreases b.len(),
{
    if b.len() == 0 {
        Ok(Seq::empty())
    } else if b.len() < 8 {
        Err(ErrMalformed::BadLength)
    } else {
        match parse_cstr(b.skip(8)) {
            Err(e) => Err(e),
            Ok((name, rest)) => {
                proof {
                    lemma_parse_cstr_shrinks(b.skip(8));
                }
                prepend(seq![(u64_from_be(b), name)], parse_users(rest))
            },
        }
    }
}

/// The entries of a `RoomsList` payload: while bytes are left, an id of two
/// bytes and a NUL-terminated name.
pub open spec fn parse_rooms(b: Seq<u8>) -> Result<Seq<(u16, Seq<char>)>, ErrMalformed>
    decreases b.len(),
{
    if b.len() == 0 {
        Ok(Seq::empty())
    } else if b.len() < 2 {
        Err(ErrMalformed::BadLength)
    } else {
        match parse_cstr(b.skip(2)) {
            Err(e) => Err(e),
            Ok((name, rest)) => {
                proof {
                    lemma_parse_cstr_shrinks(b.skip(2));
                }
                prepend(seq![(u16_from_be(b), name)], parse_rooms(rest))
            },
        }
    }
}

/// The payload of a `Join`: name, hardware identifier, room.
pub open spec fn join_payload(p: Seq<u8>) -> Result<Frame, ErrMalformed> {
    match parse_cstr(p) {
        Err(e) => Err(e),
        Ok((name, after_name)) => match parse_cstr(after_name) {
            Err(e) => Err(e),
            Ok((hwid, tail)) => if tail.len() != 2 {
                Err(ErrMalformed::BadLength)
            } else {
                Ok(Frame::Join { name, hwid, room_id: u16_from_be(tail) })
            },
        },
    }
}

/// The payload of an `Event`: sequence number, room, user, name, direction.
pub open spec fn event_payload(p: Seq<u8>) -> Result<Frame, ErrMalformed> {
    if p.len() < 18 {
        Err(ErrMalformed::BadLength)
    } else {
        match parse_cstr(p.skip(18)) {
            Err(e) => Err(e),
            Ok((name, tail)) => if tail.len() != 1 {
                Err(ErrMalformed::BadLength)
            } else {
                Ok(
                    Frame::Event {
                        seq: u64_from_be(p),
                        joined: tail[0] != 0,
                        room_id: u16_from_be(p.skip(8)),
                        user_id: u64_from_be(p.skip(10)),
                        name,
                    },
                )
            },
        }
    }
}

/// The payload of a `Disconnect`: the reason and nothing after it.
pub open spec fn disconnect_payload(p: Seq<u8>) -> Result<Frame, ErrMalformed> {
    match parse_cstr(p) {
        Err(e) => Err(e),
        Ok((reason, tail)) => if tail.len() != 0 {
            Err(ErrMalformed::BadLength)
        } else {
            Ok(Frame::Disconnect { reason })
        },
    }
}

/// What a payload means under an opcode that clients send.
pub open spec fn client_payload(opcode: u32, p: Seq<u8>) -> Result<Frame, ErrMalformed> {
    if opcode == PING {
        if p.len() == 0 {
            Ok(Frame::Ping)
        } else {
            Err(ErrMalformed::BadLength)
        }
    } else if opcode == JOIN {
        join_payload(p)
    } else if opcode == TALK {
        Ok(Frame::Talk { audio_data: p })
    } else if opcode == ALIVE {
        if p.len() == 8 {
            Ok(Frame::Alive { seq: u64_from_be(p) })
        } else {
            Err(ErrMalformed::BadLength)
        }
    } else if opcode == ROOMS {
        if p.len() == 2 {
            Ok(Frame::Rooms { offset: u16_from_be(p) })
        } else {
            Err(ErrMalformed::BadLength)
        }
    } else if opcode == SWITCH {
        if p.len() == 2 {
            Ok(Frame::Switch { room_id: u16_from_be(p) })
        } else {
            Err(ErrMalformed::BadLength)
        }
    } else if opcode == LEAVE {
        if p.len() == 0 {
            Ok(Frame::Leave)
        } else {
            Err(ErrMalformed::BadLength)
        }
    } else {
        Err(ErrMalformed::UnknownOpcode)
    }
}

/// What a payload means under an opcode that the server sends.
pub open spec fn server_payload(opcode: u32, p: Seq<u8>) -> Result<Frame, ErrMalformed> {
    if opcode == PONG {
        if p.len() == 0 {
            Ok(Frame::Pong)
        } else {
            Err(ErrMalformed::BadLength)
        }
    } else if opcode == JOINED {
        if p.len() < 2 {
            Err(ErrMalformed::BadLength)
        } else {
            match parse_users(p.skip(2)) {
                Err(e) => Err(e),
                Ok(users) => Ok(Frame::Joined { room_id: u16_from_be(p), users }),
            }
        }
    } else if opcode == TALKED {
        if p.len() < 9 {
            Err(ErrMalformed::BadLength)
        } else {
            Ok(Frame::Talked { talker_id: u64_from_be(p.skip(1)), audio_data: p.skip(9) })
        }
    } else if opcode == ALIVED {
        if p.len() == 0 {
            Ok(Frame::Alived)
        } else {
            Err(ErrMalformed::BadLength)
        }
    } else if opcode == ROOMSLIST {
        if p.len() < 1 {
            Err(ErrMalformed::BadLength)
        } else {
            match parse_rooms(p.skip(1)) {
                Err(e) => Err(e),
                Ok(list) => Ok(Frame::RoomsList { remaining: p[0] != 0, list }),
            }
        }
    } else if opcode == EVENT {
        event_payload(p)
    } else if opcode == DISCONNECT {
        disconnect_payload(p)
    } else if opcode == ACCEPTED {
        if p.len() == 16 {
            Ok(Frame::Accepted { latest_seq: u64_from_be(p), user_id: u64_from_be(p.skip(8)) })
        } else {
            Err(ErrMalformed::BadLength)
        }
    } else {
        Err(ErrMalformed::UnknownOpcode)
    }
}

/// The opcode and the payload of a datagram, or why it has none.
pub open spec fn split_frame(b: Seq<u8>) -> Result<(u32, Seq<u8>), ErrMalformed> {
    if b.len() < 8 {
        Err(ErrMalformed::TooShort)
    } else if b.subrange(0, 4) != magic() {
        Err(ErrMalformed::BadMagic)
    } else {
        Ok((u32_from_be(b.skip(4)), b.skip(8)))
    }
}

/// What a datagram from a client means.
pub open spec fn decode_client(b: Seq<u8>) -> Result<Frame, ErrMalformed> {
    match split_frame(b) {
        Err(e) => Err(e),
        Ok((opcode, p)) => client_payload(opcode, p),
    }
}

/// What a datagram from the server means.
pub open spec fn decode_server(b: Seq<u8>) -> Result<Frame, ErrMalformed> {
    match split_frame(b) {
        Err(e) => Err(e),
        Ok((opcode, p)) => server_payload(opcode, p),
    }
}

/// The parser's answer `r` is what the datagram means.
pub open spec fn decoded_as(
    r: Result<PacketType, ErrMalformed>,
    meaning: Result<Frame, ErrMalformed>,
) -> bool {
    match r {
        Ok(p) => meaning == Ok::<Frame, ErrMalformed>(p@),
        Err(e) => meaning == Err::<Frame, ErrMalformed>(e),
    }
}

/// Checks length and magic, and splits off opcode and payload.
fn open_frame<'a>(buf: &'a [u8]) -> (r: Result<(u32, &'a [u8]), ErrMalformed>)
    ensures
        match r {
            Ok((opcode, p)) => split_frame(buf@) == Ok::<_, ErrMalformed>((opcode, p@)),
            Err(e) => split_frame(buf@) == Err::<(u32, Seq<u8>), _>(e),
        },
{
    if buf.len() < 8 {
        return Err(ErrMalformed::TooShort);
    }
    if buf[0] != MAGIC[0] || buf[1] != MAGIC[1] || buf[2] != MAGIC[2] || buf[3] != MAGIC[3] {
        proof {
            let head = buf@.subrange(0, 4);
            assert(head[0] == buf@[0] && head[1] == buf@[1] && head[2] == buf@[2] && head[3]
                == buf@[3]);
        }
        return Err(ErrMalformed::BadMagic);
    }
    assert(buf@.subrange(0, 4) =~= magic());
    let opcode = get_u32(slice_subrange(buf, 4, 8));
    assert(u32_from_be(buf@.subrange(4, 8)) == u32_from_be(buf@.skip(4)));
    Ok((opcode, slice_subrange(buf, 8, buf.len())))
}

/// Reads the entries of a `Joined` payload.
fn parse_user_list(payload: &[u8]) -> (r: Result<Vec<(u64, String)>, ErrMalformed>)
    ensures
        match r {
            Ok(v) => parse_users(payload@) == Ok::<_, ErrMalformed>(tagged_names(v@)),
            Err(e) => parse_users(payload@) == Err::<Seq<(u64, Seq<char>)>, _>(e),
        },
{
    let mut users: Vec<(u64, String)> = Vec::new();
    let mut cur = payload;
    assert(tagged_names(users@) + parse_users(cur@).unwrap() =~= parse_users(cur@).unwrap());
    while cur.len() > 0
        invariant
            parse_users(payload@) == prepend(tagged_names(users@), parse_users(cur@)),
        decreases cur@.len(),
    {
        if cur.len() < 8 {
            return Err(ErrMalformed::BadLength);
        }
        let id = get_u64(cur);
        let (name, rest) = match take_cstring(slice_subrange(cur, 8, cur.len())) {
            Ok(p) => p,
            Err(e) => {
                return Err(e);
            },
        };
        proof {
            lemma_parse_cstr_shrinks(cur@.skip(8));
        }
        let ghost before = tagged_names(users@);
        users.push((id, name.to_owned()));
        proof {
            assert(tagged_names(users@) =~= before + seq![(id, name@)]);
            match parse_users(rest@) {
                Ok(more) => {
                    assert(before + (seq![(id, name@)] + more) =~= tagged_names(users@) + more);
                },
                Err(_) => {},
            }
        }
        cur = rest;
    }
    assert(tagged_names(users@) + Seq::empty() =~= tagged_names(users@));
    Ok(users)
}

/// Reads the entries of a `RoomsList` payload.
fn parse_room_list(payload: &[u8]) -> (r: Result<Vec<(u16, String)>, ErrMalformed>)
    ensures
        match r {
            Ok(v) => parse_rooms(payload@) == Ok::<_, ErrMalformed>(tagged_names(v@)),
            Err(e) => parse_rooms(payload@) == Err::<Seq<(u16, Seq<char>)>, _>(e),
        },
{
    let mut list: Vec<(u16, String)> = Vec::new();
    let mut cur = payload;
    assert(tagged_names(list@) + parse_rooms(cur@).unwrap() =~= parse_rooms(cur@).unwrap());
    while cur.len() > 0
        invariant
            parse_rooms(payload@) == prepend(tagged_names(list@), parse_rooms(cur@)),
        decreases cur@.len(),
    {
        if cur.len() < 2 {
            return Err(ErrMalformed::BadLength);
        }
        let id = get_u16(cur);
        let (name, rest) = match take_cstring(slice_subrange(cur, 2, cur.len())) {
            Ok(p) => p,
            Err(e) => {
                return Err(e);
            },
        };
        proof {
            lemma_parse_cstr_shrinks(cur@.skip(2));
        }
        let ghost before = tagged_names(list@);
        list.push((id, name.to_owned()));
        proof {
            assert(tagged_names(list@) =~= before + seq![(id, name@)]);
            match parse_rooms(rest@) {
                Ok(more) => {
                    assert(before + (seq![(id, name@)] + more) =~= tagged_names(list@) + more);
                },
                Err(_) => {},
            }
        }
        cur = rest;
    }
    assert(tagged_names(list@) + Seq::empty() =~= tagged_names(list@));
    Ok(list)
}

/// Decodes a datagram that a client sent.
pub fn parse_from_client_packet(buf: &[u8]) -> (r: Result<PacketType, ErrMalformed>)
    ensures
        decoded_as(r, decode_client(buf@)),
{
    let (opcode, rest) = match open_frame(buf) {
        Ok(p) => p,
        Err(e) => {
            return Err(e);
        },
    };
    if opcode == PING {
        if rest.len() == 0 {
            Ok(PacketType::Ping)
        } else {
            Err(ErrMalformed::BadLength)
        }
    } else if opcode == JOIN {
        let (name, rest) = match take_cstring(rest) {
            Ok(p) => p,
            Err(e) => {
                return Err(e);
            },
        };
        let (hwid, rest) = match take_cstring(rest) {
            Ok(p) => p,
            Err(e) => {
                return Err(e);
            },
        };
        if rest.len() != 2 {
            return Err(ErrMalformed::BadLength);
        }
        Ok(
            PacketType::Join {
                name: name.to_owned(),
                hwid: hwid.to_owned(),
                room_id: get_u16(rest),
            },
        )
    } else if opcode == TALK {
        Ok(PacketType::Talk { audio_data: slice_to_vec(rest) })
    } else if opcode == ROOMS {
        if rest.len() == 2 {
            Ok(PacketType::Rooms { offset: get_u16(rest) })
        } else {
            Err(ErrMalformed::BadLength)
        }
    } else if opcode == SWITCH {
        if rest.len() == 2 {
            Ok(PacketType::Switch { room_id: get_u16(rest) })
        } else {
            Err(ErrMalformed::BadLength)
        }
    } else if opcode == ALIVE {
        if rest.len() == 8 {
            Ok(PacketType::Alive { seq: get_u64(rest) })
        } else {
            Err(ErrMalformed::BadLength)
        }
    } else if opcode == LEAVE {
        if rest.len() == 0 {
            Ok(PacketType::Leave)
        } else {
            Err(ErrMalformed::BadLength)
        }
    } else {
        Err(ErrMalformed::UnknownOpcode)
    }
}

/// Decodes a datagram that the server sent.
pub fn parse_from_server_packet(buf: &[u8]) -> (r: Result<PacketType, ErrMalformed>)
    ensures
        decoded_as(r, decode_server(buf@)),
{
    let (opcode, rest) = match open_frame(buf) {
        Ok(p) => p,
        Err(e) => {
            return Err(e);
        },
    };
    if opcode == PONG {
        if rest.len() == 0 {
            Ok(PacketType::Pong)
        } else {
            Err(ErrMalformed::BadLength)
        }
    } else if opcode == JOINED {
        if rest.len() < 2 {
            return Err(ErrMalformed::BadLength);
        }
        let room_id = get_u16(rest);
        match parse_user_list(slice_subrange(rest, 2, rest.len())) {
            Ok(users) => Ok(PacketType::Joined { room_id, users }),
            Err(e) => Err(e),
        }
    } else if opcode == TALKED {
        if rest.len() < 9 {
            return Err(ErrMalformed::BadLength);
        }
        let talker_id = get_u64(slice_subrange(rest, 1, rest.len()));
        let audio_data = slice_to_vec(slice_subrange(rest, 9, rest.len()));
        Ok(PacketType::Talked { talker_id, audio_data })
    } else if opcode == ALIVED {
        if rest.len() == 0 {
            Ok(PacketType::Alived)
        } else {
            Err(ErrMalformed::BadLength)
        }
    } else if opcode == ROOMSLIST {
        if rest.len() < 1 {
            return Err(ErrMalformed::BadLength);
        }
        let remaining = rest[0] != 0;
        match parse_room_list(slice_subrange(rest, 1, rest.len())) {
            Ok(list) => Ok(PacketType::RoomsList { remaining, list }),
            Err(e) => Err(e),
        }
    } else if opcode == EVENT {
        if rest.len() < 18 {
            return Err(ErrMalformed::BadLength);
        }
        let seq = get_u64(rest);
        let room_id = get_u16(slice_subrange(rest, 8, rest.len()));
        let user_id = get_u64(slice_subrange(rest, 10, rest.len()));
        let (name, tail) = match take_cstring(slice_subrange(rest, 18, rest.len())) {
            Ok(p) => p,
            Err(e) => {
                return Err(e);
            },
        };
        if tail.len() != 1 {
            return Err(ErrMalformed::BadLength);
        }
        Ok(PacketType::Event { seq, joined: tail[0] != 0, room_id, user_id, name: name.to_owned() })
    } else if opcode == DISCONNECT {
        let (reason, tail) = match take_cstring(rest) {
            Ok(p) => p,
            Err(e) => {
                return Err(e);
            },
        };
        if tail.len() != 0 {
            return Err(ErrMalformed::BadLength);
        }
        Ok(PacketType::Disconnect { reason: reason.to_owned() })
    } else if opcode == ACCEPTED {
        if rest.len() == 16 {
            let latest_seq = get_u64(rest);
            let user_id = get_u64(slice_subrange(rest, 8, rest.len()));
            Ok(PacketType::Accepted { latest_seq, user_id })
        } else {
            Err(ErrMalformed::BadLength)
        }
    } else {
        Err(ErrMalformed::UnknownOpcode)
    }
}

} // verus!
