//! The data model: users, rooms, the presence log and the server's indices,
//! each with its mathematical view.

use std::collections::VecDeque;
use vstd::prelude::*;

use crate::protocol::packet::tagged_names;
use crate::server::invariants::{lemma_fresh_wf, lemma_with_room_wf};
use crate::server::tables::{
    member_table, members_new, room_table, rooms_insert, rooms_len, rooms_new, rooms_remove,
    user_table, users_contains, users_len, users_new, MemberTable, RoomTable, UserTable,
};

verus! {

/// Seconds of grace after the last packet of a user.
pub const USER_TIMEOUT_SECS: u64 = 5;

/// Milliseconds between two sweeps for expired users.
pub const ROUTINE_SLEEP_MS: u64 = 500;

/// How many presence events the log keeps for replay.
pub const MAX_EVENT_HISTORY: usize = 100;

/// How many lagging keepalives in a row end a session.
pub const MAX_CONSECUTIVE_BEHIND: u8 = 3;

/// A peer's address: the IP address as a 128-bit number (an IPv4 address in
/// its IPv6-mapped form) and the port.
pub type Endpoint = (u128, u16);

/// An active participant.
#[derive(Debug)]
pub struct User {
    pub id: u64,
    pub name: String,
    pub hwid: String,
    pub last_seen: u64,
    pub room_id: u16,
    pub flags: u8,
    pub consecutive_behind: u8,
}

/// A user as plain values.
pub struct UserView {
    pub id: u64,
    pub name: Seq<char>,
    pub hwid: Seq<char>,
    pub last_seen: u64,
    pub room_id: u16,
    pub flags: u8,
    pub consecutive_behind: u8,
}

impl View for User {
    type V = UserView;

    open spec fn view(&self) -> UserView {
        UserView {
            id: self.id,
            name: self.name@,
            hwid: self.hwid@,
            last_seen: self.last_seen,
            room_id: self.room_id,
            flags: self.flags,
            consecutive_behind: self.consecutive_behind,
        }
    }
}

/// A named channel and who is in it.
pub struct Room {
    pub name: String,
    pub users: MemberTable,
    pub joined_snapshot: Vec<(u64, String)>,
    pub addr_list: Vec<Endpoint>,
}

/// A room as plain values.
pub struct RoomView {
    pub name: Seq<char>,
    pub members: Map<Endpoint, u64>,
    pub joined_snapshot: Seq<(u64, Seq<char>)>,
    pub addr_list: Seq<Endpoint>,
}

impl View for Room {
    type V = RoomView;

    open spec fn view(&self) -> RoomView {
        RoomView {
            name: self.name@,
            members: member_table(self.users),
            joined_snapshot: tagged_names(self.joined_snapshot@),
            addr_list: self.addr_list@,
        }
    }
}

/// One presence event as it was broadcast.
#[derive(Clone, Debug)]
pub struct StoredEvent {
    pub seq: u64,
    pub data: Vec<u8>,
}

impl View for StoredEvent {
    type V = (u64, Seq<u8>);

    open spec fn view(&self) -> (u64, Seq<u8>) {
        (self.seq, self.data@)
    }
}

/// The presence log: the next sequence number and the most recent events.
pub struct EventSystem {
    pub next_seq: u64,
    pub history: VecDeque<StoredEvent>,
}

/// The presence log as plain values.
pub struct EventLog {
    pub next_seq: u64,
    pub history: Seq<(u64, Seq<u8>)>,
}

impl View for EventSystem {
    type V = EventLog;

    open spec fn view(&self) -> EventLog {
        EventLog {
            next_seq: self.next_seq,
            history: Seq::new(self.history@.len(), |i: int| self.history@[i]@),
        }
    }
}

/// The whole engine.
pub struct Server {
    pub(crate) rooms: RoomTable,
    pub(crate) users: UserTable,
    pub(crate) connected_addrs: Vec<Endpoint>,
    pub(crate) next_user_id: u64,
    pub(crate) event_system: EventSystem,
}

/// The engine as plain values.
pub struct ServerView {
    pub users: Map<Endpoint, UserView>,
    pub rooms: Map<u16, RoomView>,
    pub connected: Seq<Endpoint>,
    pub next_user_id: u64,
    pub events: EventLog,
}

impl View for Server {
    type V = ServerView;

    open(crate) spec fn view(&self) -> ServerView {
        ServerView {
            users: user_table(self.users),
            rooms: room_table(self.rooms),
            connected: self.connected_addrs@,
            next_user_id: self.next_user_id,
            events: self.event_system@,
        }
    }
}

impl User {
    /// A copy of the user.
    pub fn duplicate(&self) -> (copy: User)
        ensures
            copy@ == self@,
    {
        User {
            id: self.id,
            name: self.name.clone(),
            hwid: self.hwid.clone(),
            last_seen: self.last_seen,
            room_id: self.room_id,
            flags: self.flags,
            consecutive_behind: self.consecutive_behind,
        }
    }
}

/// A copy of a list of tagged names.
pub fn copy_names(list: &Vec<(u64, String)>) -> (copy: Vec<(u64, String)>)
    ensures
        tagged_names(copy@) == tagged_names(list@),
{
    let mut copy: Vec<(u64, String)> = Vec::new();
    let mut i: usize = 0;
    while i < list.len()
        invariant
            i <= list@.len(),
            copy@.len() == i,
            forall|k: int| 0 <= k < i ==> copy@[k].0 == list@[k].0 && copy@[k].1@ == list@[k].1@,
        decreases list@.len() - i,
    {
        copy.push((list[i].0, list[i].1.clone()));
        i += 1;
    }
    assert(tagged_names(copy@) =~= tagged_names(list@));
    copy
}

/// A copy of a list of endpoints.
pub fn copy_addrs(list: &Vec<Endpoint>) -> (copy: Vec<Endpoint>)
    ensures
        copy@ == list@,
{
    let mut copy: Vec<Endpoint> = Vec::new();
    let mut i: usize = 0;
    while i < list.len()
        invariant
            i <= list@.len(),
            copy@ == list@.take(i as int),
        decreases list@.len() - i,
    {
        copy.push(list[i]);
        assert(copy@ =~= list@.take(i + 1));
        i += 1;
    }
    assert(list@.take(i as int) =~= list@);
    copy
}

impl Server {
    /// The invariants of the data model hold.
    pub open spec fn wf(&self) -> bool {
        self@.wf()
    }

    /// A server without users and rooms.  User ids start at 1 and sequence
    /// numbers at 1.
    pub fn new() -> (server: Server)
        ensures
            server@ == ServerView::fresh(),
            server.wf(),
    {
        let server = Server {
            rooms: rooms_new(),
            users: users_new(),
            connected_addrs: Vec::new(),
            next_user_id: 1,
            event_system: EventSystem::new(),
        };
        proof {
            lemma_fresh_wf();
        }
        server
    }

    /// Registers a room under `id`, in place of any room that was there.
    /// Rooms are registered before users refer to them.
    pub fn add_room_with_id(&mut self, id: u16, name: &str)
        requires
            old(self).wf(),
            forall|a: Endpoint| #[trigger]
                old(self)@.users.contains_key(a) ==> old(self)@.users[a].room_id != id,
        ensures
            final(self)@ == old(self)@.with_room(id, name@),
            final(self).wf(),
    {
        rooms_insert(&mut self.rooms, id, Self::make_room(name));
        proof {
            lemma_with_room_wf(old(self)@, id, name@);
        }
    }

    /// A room of this name without members.
    pub fn make_room(name: &str) -> (room: Room)
        ensures
            room@ == RoomView::empty(name@),
    {
        let room = Room {
            name: name.to_owned(),
            users: members_new(),
            joined_snapshot: Vec::new(),
            addr_list: Vec::new(),
        };
        assert(room@.joined_snapshot =~= Seq::empty());
        room
    }

    /// How many users are connected.
    pub fn user_count(&self) -> (n: usize)
        ensures
            n == self@.users.len(),
    {
        users_len(&self.users)
    }

    /// Whether there is a user at `addr`.
    pub fn has_user(&self, addr: Endpoint) -> (found: bool)
        ensures
            found == self@.users.contains_key(addr),
    {
        users_contains(&self.users, &addr)
    }

    /// How many rooms are registered.
    pub fn room_count(&self) -> (n: usize)
        ensures
            n == self@.rooms.len(),
    {
        rooms_len(&self.rooms)
    }

    /// The sequence number that the next presence event will get.
    pub fn next_seq(&self) -> (seq: u64)
        ensures
            seq == self@.events.next_seq,
    {
        self.event_system.next_seq
    }

    /// The id that the next user will get.
    pub fn next_user_id(&self) -> (id: u64)
        ensures
            id == self@.next_user_id,
    {
        self.next_user_id
    }

    /// How many presence events are stored for replay.
    pub fn history_len(&self) -> (n: usize)
        ensures
            n == self@.events.history.len(),
    {
        self.event_system.history.len()
    }

    /// Whether the counters leave room for any one operation at the time
    /// `now`.
    pub fn has_headroom(&self, now: u64) -> (ok: bool)
        ensures
            ok == self@.headroom(now),
    {
        let users = users_len(&self.users);
        now <= u64::MAX - USER_TIMEOUT_SECS && self.next_user_id < u64::MAX
            && self.event_system.next_seq as u128 + users as u128 + 2 <= u64::MAX as u128
    }

    /// The user takes a place in the room, if the room exists.
    pub(crate) fn seat(&mut self, room_id: u16, addr: Endpoint, id: u64, name: String)
        ensures
            final(self)@ == old(self)@.seat(room_id, addr, id, name@),
    {
        match rooms_remove(&mut self.rooms, &room_id) {
            Some(room) => {
                let mut room = room;
                room.seat(addr, id, name);
                rooms_insert(&mut self.rooms, room_id, room);
                assert(self@.rooms =~= old(self)@.seat(room_id, addr, id, name@).rooms);
            },
            None => {
                assert(self@.rooms =~= old(self)@.rooms);
            },
        }
    }

    /// The user gives up its place in the room, if the room exists.
    pub(crate) fn unseat(&mut self, room_id: u16, addr: &Endpoint, id: u64)
        ensures
            final(self)@ == old(self)@.unseat(room_id, *addr, id),
    {
        match rooms_remove(&mut self.rooms, &room_id) {
            Some(room) => {
                let mut room = room;
                room.unseat(addr, id);
                rooms_insert(&mut self.rooms, room_id, room);
                assert(self@.rooms =~= old(self)@.unseat(room_id, *addr, id).rooms);
            },
            None => {
                assert(self@.rooms =~= old(self)@.rooms);
            },
        }
    }

    /// Whether a room is registered under `room_id`.
    pub fn has_room(&mut self, room_id: u16) -> (found: bool)
        ensures
            final(self)@ == old(self)@,
            found == old(self)@.rooms.contains_key(room_id),
    {
        match rooms_remove(&mut self.rooms, &room_id) {
            Some(room) => {
                rooms_insert(&mut self.rooms, room_id, room);
                assert(self@.rooms =~= old(self)@.rooms);
                true
            },
            None => {
                assert(self@.rooms =~= old(self)@.rooms);
                false
            },
        }
    }

    /// The name of a room, if there is such a room.
    pub fn room_name(&mut self, room_id: u16) -> (name: Option<String>)
        ensures
            final(self)@ == old(self)@,
            name is Some <==> old(self)@.rooms.contains_key(room_id),
            name matches Some(text) ==> text@ == old(self)@.rooms[room_id].name,
    {
        match rooms_remove(&mut self.rooms, &room_id) {
            Some(room) => {
                let name = room.name.clone();
                rooms_insert(&mut self.rooms, room_id, room);
                assert(self@.rooms =~= old(self)@.rooms);
                Some(name)
            },
            None => {
                assert(self@.rooms =~= old(self)@.rooms);
                None
            },
        }
    }

    /// The ids and names of a room's members, if there is such a room.
    pub fn room_snapshot(&mut self, room_id: u16) -> (snapshot: Option<Vec<(u64, String)>>)
        ensures
            final(self)@ == old(self)@,
            snapshot is Some <==> old(self)@.rooms.contains_key(room_id),
            snapshot matches Some(list) ==> tagged_names(list@)
                == old(self)@.rooms[room_id].joined_snapshot,
    {
        match rooms_remove(&mut self.rooms, &room_id) {
            Some(room) => {
                let list = copy_names(&room.joined_snapshot);
                rooms_insert(&mut self.rooms, room_id, room);
                assert(self@.rooms =~= old(self)@.rooms);
                Some(list)
            },
            None => {
                assert(self@.rooms =~= old(self)@.rooms);
                None
            },
        }
    }

    /// The endpoints of a room's members, if there is such a room.
    pub fn room_addrs(&mut self, room_id: u16) -> (addrs: Option<Vec<Endpoint>>)
        ensures
            final(self)@ == old(self)@,
            addrs is Some <==> old(self)@.rooms.contains_key(room_id),
            addrs matches Some(list) ==> list@ == old(self)@.rooms[room_id].addr_list,
    {
        match rooms_remove(&mut self.rooms, &room_id) {
            Some(room) => {
                let list = copy_addrs(&room.addr_list);
                rooms_insert(&mut self.rooms, room_id, room);
                assert(self@.rooms =~= old(self)@.rooms);
                Some(list)
            },
            None => {
                assert(self@.rooms =~= old(self)@.rooms);
                None
            },
        }
    }
}

} // verus!
