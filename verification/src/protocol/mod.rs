//! The wire protocol: `MAGIC(4) | OPCODE(4, big-endian) | PAYLOAD`.

pub mod constants;
pub mod decode;
pub mod encode;
pub mod packet;
pub mod round_trip;
pub mod wire;

pub use constants::{
    ACCEPTED, ALIVE, ALIVED, DISCONNECT, EVENT, JOIN, JOINED, LEAVE, MAGIC, PING, PONG, ROOMS,
    ROOMSLIST, SWITCH, TALK, TALKED,
};
pub use packet::{ErrMalformed, Frame, PacketType};
pub use encode::{
    new_accepted, new_alive, new_alived, new_disconnect, new_event, new_join, new_joined,
    new_leave, new_ping, new_pong, new_rooms, new_rooms_list, new_switch, new_talk,
    new_talked_audio,
};
pub use decode::{parse_from_client_packet, parse_from_server_packet};
