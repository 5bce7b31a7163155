//! What each operation of the engine does, stated over plain values: the
//! state after it and the effects it asks for.

use vstd::prelude::*;

use crate::protocol::encode::frame_bytes;
use crate::protocol::packet::Frame;
use crate::server::model::{
    Endpoint, EventLog, RoomView, ServerView, UserView, MAX_CONSECUTIVE_BEHIND,
    MAX_EVENT_HISTORY, USER_TIMEOUT_SECS,
};
use crate::server::net::EffectView;
use crate::server::reasons::{
    behind_repeatedly, inactivity, inconsistent_history, too_far_behind,
};
use crate::server::rooms::without_addr;

verus! {

/// `list` without every occurrence of `skip`, in the same order.
pub open spec fn except_addr(list: Seq<Endpoint>, skip: Endpoint) -> Seq<Endpoint>
    decreases list.len(),
{
    if list.len() == 0 {
        Seq::empty()
    } else {
        let earlier = except_addr(list.drop_last(), skip);
        if list.last() != skip {
            earlier.push(list.last())
        } else {
            earlier
        }
    }
}

/// How many rooms in a row exist from the id `from` on, counting no more
/// than `budget` and not beyond the last id.
pub open spec fn run_of_rooms(rooms: Map<u16, RoomView>, from: int, budget: nat) -> nat
    decreases budget,
{
    if budget == 0 || from > u16::MAX || !rooms.contains_key(from as u16) {
        0
    } else {
        1 + run_of_rooms(rooms, from + 1, (budget - 1) as nat)
    }
}

/// One page of the room catalog: up to ten rooms with consecutive ids from
/// `offset` on (from 1 if `offset` is 0), ending before the first id that
/// has no room.
pub open spec fn room_page(rooms: Map<u16, RoomView>, offset: u16) -> Seq<(u16, Seq<char>)> {
    let from: int = if offset == 0 {
        1
    } else {
        offset as int
    };
    Seq::new(
        run_of_rooms(rooms, from, 10),
        |k: int| ((from + k) as u16, rooms[(from + k) as u16].name),
    )
}

/// Whether there are rooms beyond the page that starts at `offset`.
pub open spec fn rooms_remaining(rooms: Map<u16, RoomView>, offset: u16) -> bool {
    let from: int = if offset == 0 {
        1
    } else {
        offset as int
    };
    rooms.len() >= from + 10
}

/// A room and the connection table agree: the room's address list holds
/// exactly the users whose `room_id` is `id`, each once; the snapshot holds
/// each member's id and name at the same place as the address list holds its
/// address; and the membership map holds each member's id under its address.
pub open spec fn room_matches(r: RoomView, id: u16, users: Map<Endpoint, UserView>) -> bool {
    &&& r.addr_list.no_duplicates()
    &&& r.joined_snapshot.len() == r.addr_list.len()
    &&& forall|a: Endpoint| #[trigger] r.members.contains_key(a) <==> r.addr_list.contains(a)
    &&& forall|i: int|
        #![trigger r.addr_list[i]]
        0 <= i < r.addr_list.len() ==> {
            let a = r.addr_list[i];
            &&& users.contains_key(a)
            &&& users[a].room_id == id
            &&& r.joined_snapshot[i] == (users[a].id, users[a].name)
            &&& r.members[a] == users[a].id
        }
    &&& forall|a: Endpoint|
        #[trigger] users.contains_key(a) && users[a].room_id == id ==> r.addr_list.contains(a)
}

impl ServerView {
    /// A server without users and rooms.
    pub open spec fn fresh() -> ServerView {
        ServerView {
            users: Map::empty(),
            rooms: Map::empty(),
            connected: Seq::empty(),
            next_user_id: 1,
            events: EventLog::fresh(),
        }
    }

    /// The room `id` and the connection table agree.
    pub open spec fn room_wf(self, id: u16) -> bool {
        room_matches(self.rooms[id], id, self.users)
    }

    /// The invariants of the data model.  The connection table and the list
    /// of connected endpoints hold the same endpoints, each once.  Every
    /// room agrees with the connection table, so a user is a member of the
    /// room that its record names and of no other.  The log is well formed.
    /// Every user's id is below the next id to give out, and no two users
    /// share an id.  Every user's count of lagging keepalives is below the
    /// limit.
    pub open spec fn wf(self) -> bool {
        &&& self.users.dom().finite()
        &&& self.rooms.dom().finite()
        &&& self.connected.no_duplicates()
        &&& forall|a: Endpoint|
            #[trigger] self.users.contains_key(a) <==> self.connected.contains(a)
        &&& forall|id: u16| #[trigger] self.rooms.contains_key(id) ==> self.room_wf(id)
        &&& self.events.wf()
        &&& forall|a: Endpoint| #[trigger]
            self.users.contains_key(a) ==> self.users[a].id < self.next_user_id
        &&& forall|a: Endpoint, b: Endpoint|
            #[trigger] self.users.contains_key(a) && #[trigger] self.users.contains_key(b) && a != b
                ==> self.users[a].id != self.users[b].id
        &&& forall|a: Endpoint| #[trigger]
            self.users.contains_key(a) ==> self.users[a].consecutive_behind
                < MAX_CONSECUTIVE_BEHIND
    }

    /// The server after a room was registered under `id`.
    pub open spec fn with_room(self, id: u16, name: Seq<char>) -> ServerView {
        ServerView { rooms: self.rooms.insert(id, RoomView::empty(name)), ..self }
    }

    /// The user takes a place in the room, if the room exists.
    pub open spec fn seat(
        self,
        room_id: u16,
        addr: Endpoint,
        id: u64,
        name: Seq<char>,
    ) -> ServerView {
        if self.rooms.contains_key(room_id) {
            ServerView {
                rooms: self.rooms.insert(room_id, self.rooms[room_id].with_member(addr, id, name)),
                ..self
            }
        } else {
            self
        }
    }

    /// The user gives up its place in the room, if the room exists.
    pub open spec fn unseat(self, room_id: u16, addr: Endpoint, id: u64) -> ServerView {
        if self.rooms.contains_key(room_id) {
            ServerView {
                rooms: self.rooms.insert(room_id, self.rooms[room_id].without_member(addr, id)),
                ..self
            }
        } else {
            self
        }
    }

    /// The user at `addr` is given a new deadline, if there is such a user.
    pub open spec fn refreshed(self, addr: Endpoint, now: u64) -> ServerView {
        if self.users.contains_key(addr) {
            ServerView {
                users: self.users.insert(
                    addr,
                    UserView {
                        last_seen: (now + USER_TIMEOUT_SECS) as u64,
                        ..self.users[addr]
                    },
                ),
                ..self
            }
        } else {
            self
        }
    }

    /// The user at `addr` is given a new count of lagging keepalives.
    pub open spec fn with_behind(self, addr: Endpoint, count: u8) -> ServerView {
        ServerView {
            users: self.users.insert(
                addr,
                UserView { consecutive_behind: count, ..self.users[addr] },
            ),
            ..self
        }
    }

    /// A packet is stored under the next sequence number and goes out to
    /// every recipient.
    pub open spec fn broadcast(self, pkt: Seq<u8>, recipients: Seq<Endpoint>) -> (
        ServerView,
        Seq<EffectView>,
    ) {
        (
            ServerView { events: self.events.recorded(pkt), ..self },
            seq![EffectView::Fanout { recipients, data: pkt }],
        )
    }

    /// A presence event is broadcast.  Without recipients nothing happens.
    /// Otherwise the event gets the next sequence number, the packet is
    /// stored, and it goes out to every recipient.
    pub open spec fn announce(
        self,
        joined: bool,
        room_id: u16,
        user_id: u64,
        name: Seq<char>,
        recipients: Seq<Endpoint>,
    ) -> (ServerView, Seq<EffectView>) {
        if recipients.len() == 0 {
            (self, Seq::empty())
        } else {
            self.broadcast(
                frame_bytes(
                    Frame::Event { seq: self.events.next_seq, joined, room_id, user_id, name },
                ),
                recipients,
            )
        }
    }

    /// The disconnect path.  A reason, if there is one, is sent first.  If
    /// there is a user at `addr`, it leaves the connection table, its room
    /// and the list of connected endpoints; the others are told; if it was
    /// the last user, the log and the user ids start over; and the
    /// collaborator is told.
    pub open spec fn disconnect(self, addr: Endpoint, reason: Option<Seq<char>>) -> (
        ServerView,
        Seq<EffectView>,
    ) {
        let notice = match reason {
            Some(text) => seq![
                EffectView::Notify {
                    to: addr,
                    data: frame_bytes(Frame::Disconnect { reason: text }),
                },
            ],
            None => Seq::empty(),
        };
        if !self.users.contains_key(addr) {
            (self, notice)
        } else {
            let u = self.users[addr];
            let left = ServerView {
                users: self.users.remove(addr),
                connected: without_addr(self.connected, addr),
                ..self.unseat(u.room_id, addr, u.id)
            };
            let (told, fanout) = left.announce(false, u.room_id, u.id, u.name, left.connected);
            let after = if left.users.len() == 0 {
                ServerView { next_user_id: 0, events: EventLog::fresh(), ..told }
            } else {
                told
            };
            (after, notice + fanout + seq![EffectView::Released { hwid: u.hwid }])
        }
    }

    /// The `Joined` frames that greet a new user: one for each room of
    /// `order`.
    pub open spec fn greetings(self, addr: Endpoint, order: Seq<u16>) -> Seq<EffectView> {
        Seq::new(
            order.len(),
            |i: int|
                EffectView::Send {
                    to: addr,
                    data: frame_bytes(
                        Frame::Joined {
                            room_id: order[i],
                            users: self.rooms[order[i]].joined_snapshot,
                        },
                    ),
                },
        )
    }

    /// An authorized user joins.  It gets the next user id and a deadline,
    /// enters the connection table and, if the room exists, the room.  It is
    /// sent one `Joined` frame for each room, in the order of `order`; then
    /// everyone is told; then it is sent `Accepted` with the sequence number
    /// of that event.
    pub open spec fn join(
        self,
        addr: Endpoint,
        name: Seq<char>,
        hwid: Seq<char>,
        room_id: u16,
        now: u64,
        order: Seq<u16>,
    ) -> (ServerView, Seq<EffectView>) {
        let u = UserView {
            id: self.next_user_id,
            name,
            hwid,
            last_seen: (now + USER_TIMEOUT_SECS) as u64,
            room_id,
            flags: 0,
            consecutive_behind: 0,
        };
        let entered = ServerView {
            users: self.users.insert(addr, u),
            connected: self.connected.push(addr),
            next_user_id: (self.next_user_id + 1) as u64,
            ..self
        }.seat(room_id, addr, u.id, name);
        let (told, fanout) = entered.announce(true, room_id, u.id, name, entered.connected);
        let accepted = EffectView::Send {
            to: addr,
            data: frame_bytes(
                Frame::Accepted { latest_seq: (told.events.next_seq - 1) as u64, user_id: u.id },
            ),
        };
        (told, entered.greetings(addr, order) + fanout + seq![accepted])
    }

    /// The user at `addr` is in the room `room_id` from now on: its record
    /// names the room, it is out of its old room's collections and in the
    /// new room's.
    pub open spec fn transferred(self, addr: Endpoint, room_id: u16) -> ServerView {
        let u = self.users[addr];
        ServerView {
            users: self.users.insert(addr, UserView { room_id, ..u }),
            ..self
        }.unseat(u.room_id, addr, u.id).seat(room_id, addr, u.id, u.name)
    }

    /// The user at `addr` moves to another room that exists: it changes
    /// rooms, is sent the new room's `Joined` frame, and everyone is told of
    /// the leave and then of the join.
    pub open spec fn relocate(self, addr: Endpoint, room_id: u16) -> (ServerView, Seq<EffectView>) {
        let u = self.users[addr];
        let moved = self.transferred(addr, room_id);
        let joined = EffectView::Send {
            to: addr,
            data: frame_bytes(
                Frame::Joined { room_id, users: moved.rooms[room_id].joined_snapshot },
            ),
        };
        let (told_leave, leave) = moved.announce(false, u.room_id, u.id, u.name, moved.connected);
        let (told_join, enter) = told_leave.announce(
            true,
            room_id,
            u.id,
            u.name,
            moved.connected,
        );
        (told_join, seq![joined] + leave + enter)
    }

    /// A user asks for another room.  Its deadline is refreshed.  If it is
    /// in that room already, or there is no such room, nothing else
    /// happens.  Otherwise it moves.
    pub open spec fn switch(self, addr: Endpoint, room_id: u16, now: u64) -> (
        ServerView,
        Seq<EffectView>,
    ) {
        if !self.users.contains_key(addr) {
            (self, Seq::empty())
        } else {
            let alive = self.refreshed(addr, now);
            if alive.users[addr].room_id == room_id || !alive.rooms.contains_key(room_id) {
                (alive, Seq::empty())
            } else {
                alive.relocate(addr, room_id)
            }
        }
    }

    /// A user sends audio.  Its deadline is refreshed, and the frame goes to
    /// the other members of its room, if that room exists.
    pub open spec fn talk(self, addr: Endpoint, audio_data: Seq<u8>, now: u64) -> (
        ServerView,
        Seq<EffectView>,
    ) {
        if !self.users.contains_key(addr) {
            (self, Seq::empty())
        } else {
            let alive = self.refreshed(addr, now);
            let u = alive.users[addr];
            let pkt = frame_bytes(Frame::Talked { talker_id: u.id, audio_data });
            (alive, alive.room_fanout(pkt, u.room_id, Some(addr)))
        }
    }

    /// A datagram for the members of a room, but for `except`; nothing if
    /// there is no such room.
    pub open spec fn room_fanout(self, pkt: Seq<u8>, room_id: u16, except: Option<Endpoint>) -> Seq<
        EffectView,
    > {
        if !self.rooms.contains_key(room_id) {
            Seq::empty()
        } else {
            let list = self.rooms[room_id].addr_list;
            let recipients = match except {
                Some(skip) => except_addr(list, skip),
                None => list,
            };
            seq![EffectView::Fanout { recipients, data: pkt }]
        }
    }

    /// The stored packets, each sent to `addr`.
    pub open spec fn replay(addr: Endpoint, packets: Seq<Seq<u8>>) -> Seq<EffectView> {
        Seq::new(packets.len(), |i: int| EffectView::Send { to: addr, data: packets[i] })
    }

    /// The sync-resend engine, for the user at `addr` whose client has seen
    /// the events up to `client_seq`.
    pub open spec fn sync(self, addr: Endpoint, client_seq: u64) -> (ServerView, Seq<EffectView>) {
        if !self.users.contains_key(addr) {
            (self, Seq::empty())
        } else {
            let last = self.events.last_seq();
            let behind = self.users[addr].consecutive_behind;
            if client_seq >= last {
                (
                    if behind > 0 {
                        self.with_behind(addr, 0)
                    } else {
                        self
                    },
                    Seq::empty(),
                )
            } else if last - client_seq > MAX_EVENT_HISTORY {
                self.disconnect(addr, Some(too_far_behind((last - client_seq) as nat)))
            } else {
                let failures = (behind + 1) as u8;
                let counted = self.with_behind(addr, failures);
                let missed = self.events.missed(client_seq);
                if failures >= MAX_CONSECUTIVE_BEHIND {
                    self.disconnect(addr, Some(behind_repeatedly(failures as nat)))
                } else if missed.len() != last - client_seq {
                    counted.disconnect(addr, Some(inconsistent_history()))
                } else {
                    (counted, Self::replay(addr, missed))
                }
            }
        }
    }

    /// A keepalive.  Unknown endpoints get no answer.  A user's deadline is
    /// refreshed and it is sent `Alived`; if its client names a sequence
    /// number, the sync-resend engine runs.
    pub open spec fn alive(self, addr: Endpoint, client_seq: u64, now: u64) -> (
        ServerView,
        Seq<EffectView>,
    ) {
        if !self.users.contains_key(addr) {
            (self, Seq::empty())
        } else {
            let alive = self.refreshed(addr, now);
            let alived = seq![EffectView::Send { to: addr, data: frame_bytes(Frame::Alived) }];
            if client_seq > 0 {
                let (synced, resent) = alive.sync(addr, client_seq);
                (synced, alived + resent)
            } else {
                (alive, alived)
            }
        }
    }

    /// The answer to a request for a page of the room catalog.
    pub open spec fn list_rooms(self, addr: Endpoint, offset: u16) -> Seq<EffectView> {
        seq![
            EffectView::Send {
                to: addr,
                data: frame_bytes(
                    Frame::RoomsList {
                        remaining: rooms_remaining(self.rooms, offset),
                        list: room_page(self.rooms, offset),
                    },
                ),
            },
        ]
    }

    /// What one frame from a client does.
    pub open spec fn handle(self, addr: Endpoint, frame: Frame, now: u64) -> (
        ServerView,
        Seq<EffectView>,
    ) {
        match frame {
            Frame::Ping => (
                self,
                seq![EffectView::Send { to: addr, data: frame_bytes(Frame::Pong) }],
            ),
            Frame::Rooms { offset } => (self, self.list_rooms(addr, offset)),
            Frame::Alive { seq } => self.alive(addr, seq, now),
            Frame::Talk { audio_data } => self.talk(addr, audio_data, now),
            Frame::Leave => self.disconnect(addr, None),
            Frame::Join { name, hwid, room_id } => if self.users.contains_key(addr) {
                (self, Seq::empty())
            } else {
                (self, seq![EffectView::Authorize { addr, name, hwid, room_id }])
            },
            Frame::Switch { room_id } => self.switch(addr, room_id, now),
            _ => (self, Seq::empty()),
        }
    }

    /// The users of `order` are disconnected for inactivity, one after the
    /// other.
    pub open spec fn sweep(self, order: Seq<Endpoint>) -> (ServerView, Seq<EffectView>)
        decreases order.len(),
    {
        if order.len() == 0 {
            (self, Seq::empty())
        } else {
            let (before, earlier) = self.sweep(order.drop_last());
            let (after, last) = before.disconnect(
                order.last(),
                Some(inactivity()),
            );
            (after, earlier + last)
        }
    }

    /// The counters are far enough from the end of their range for any one
    /// operation at the time `now`: a deadline can be computed, a user id
    /// can be given out, and every user can be disconnected after two more
    /// events.
    pub open spec fn headroom(self, now: u64) -> bool {
        &&& now <= u64::MAX - USER_TIMEOUT_SECS
        &&& self.next_user_id < u64::MAX
        &&& self.events.next_seq + self.users.len() + 2 <= u64::MAX
    }

    /// The endpoints of the users whose deadline has passed.
    pub open spec fn expired(self, now: u64) -> Set<Endpoint> {
        Set::new(|a: Endpoint| self.users.contains_key(a) && self.users[a].last_seen <= now)
    }
}

} // verus!
