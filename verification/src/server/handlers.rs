//! The handlers: what the server does with one datagram from a client, and
//! how a join is completed once the collaborator has answered.

use vstd::prelude::*;

use crate::protocol::decode::{decode_client, parse_from_client_packet};
use crate::protocol::encode::{
    frame_bytes, new_accepted, new_alived, new_joined, new_pong, new_rooms_list, new_talked_audio,
};
use crate::protocol::packet::{tagged_names, ErrMalformed, Frame, PacketType};
use crate::server::invariants::{lemma_join_wf, lemma_switch_wf};
use crate::server::model::{
    copy_addrs, Endpoint, RoomView, Server, ServerView, User, UserView, USER_TIMEOUT_SECS,
};
use crate::server::net::{append_effects, outbox, Effect, EffectView};
use crate::server::steps::{room_page, run_of_rooms};
use crate::server::tables::{is_listing, rooms_ids, users_contains, users_insert, users_remove};

verus! {

/// Where `count` rooms in a row exist from `from` on, and the run ends
/// there, `count` is the length of the run.
pub proof fn lemma_run_of_rooms(rooms: Map<u16, RoomView>, from: int, budget: nat, count: nat)
    requires
        0 <= from,
        count <= budget,
        from + count <= u16::MAX + 1,
        forall|id: u16| from <= id < from + count ==> #[trigger] rooms.contains_key(id),
        count == budget || from + count > u16::MAX || !rooms.contains_key((from + count) as u16),
    ensures
        run_of_rooms(rooms, from, budget) == count,
    decreases count,
{
    if count > 0 {
        assert(rooms.contains_key(from as u16));
        lemma_run_of_rooms(rooms, from + 1, (budget - 1) as nat, (count - 1) as nat);
    }
}

/// The answer `r` to the datagram `buf` from `addr`, and the state after
/// it: a malformed datagram is refused and changes nothing; any other does
/// what its frame says.
pub open spec fn handled(
    before: ServerView,
    after: ServerView,
    addr: Endpoint,
    buf: Seq<u8>,
    now: u64,
    r: Result<Vec<Effect>, ErrMalformed>,
) -> bool {
    match decode_client(buf) {
        Err(e) => r matches Err(err) && err == e && after == before,
        Ok(frame) => r matches Ok(effects) && (after, outbox(effects@)) == before.handle(
            addr,
            frame,
            now,
        ),
    }
}

impl Server {
    /// Handles one datagram from `addr` at the time `now`.  A datagram that
    /// does not decode is refused and changes nothing.  A `Join` from an
    /// endpoint without a user changes nothing yet: it asks for the
    /// collaborator's answer, which `complete_join` takes.
    pub fn handle(&mut self, addr: Endpoint, buf: &[u8], now: u64) -> (r: Result<
        Vec<Effect>,
        ErrMalformed,
    >)
        requires
            old(self).wf(),
            old(self)@.events.next_seq < u64::MAX - 1,
            now <= u64::MAX - USER_TIMEOUT_SECS,
        ensures
            final(self).wf(),
            handled(old(self)@, final(self)@, addr, buf@, now, r),
    {
        let packet = match parse_from_client_packet(buf) {
            Ok(p) => p,
            Err(e) => {
                return Err(e);
            },
        };
        let mut effects: Vec<Effect> = Vec::new();
        match packet {
            PacketType::Ping => {
                effects.push(Effect::Send { to: addr, data: new_pong() });
                assert(outbox(effects@) =~= old(self)@.handle(addr, packet@, now).1);
            },
            PacketType::Rooms { offset } => {
                effects = self.handle_rooms(addr, offset);
            },
            PacketType::Alive { seq } => {
                effects = self.handle_alive(addr, seq, now);
            },
            PacketType::Talk { audio_data } => {
                effects = self.handle_talk(addr, audio_data, now);
            },
            PacketType::Leave => {
                effects = self.disconnect_user(addr, None);
            },
            PacketType::Join { name, hwid, room_id } => {
                if !users_contains(&self.users, &addr) {
                    effects.push(Effect::Authorize { addr, name, hwid, room_id });
                }
                assert(outbox(effects@) =~= old(self)@.handle(addr, packet@, now).1);
            },
            PacketType::Switch { room_id } => {
                effects = self.handle_switch(addr, room_id, now);
            },
            _ => {
                assert(outbox(effects@) =~= Seq::empty());
            },
        }
        Ok(effects)
    }

    /// Completes a join with the collaborator's answer.  A refusal goes down
    /// the disconnect path with the collaborator's reason.  An approval for
    /// an endpoint that has a user by now is dropped.  Otherwise the user
    /// joins; `order` in the contract is the order in which the room catalog
    /// hands out its rooms.
    pub fn complete_join(
        &mut self,
        addr: Endpoint,
        name: String,
        hwid: String,
        room_id: u16,
        verdict: Result<(), String>,
        now: u64,
    ) -> (effects: Vec<Effect>)
        requires
            old(self).wf(),
            old(self)@.events.next_seq < u64::MAX,
            old(self)@.next_user_id < u64::MAX,
            now <= u64::MAX - USER_TIMEOUT_SECS,
        ensures
            final(self).wf(),
            match verdict {
                Err(reason) => (final(self)@, outbox(effects@)) == old(self)@.disconnect(
                    addr,
                    Some(reason@),
                ),
                Ok(_) => if old(self)@.users.contains_key(addr) {
                    final(self)@ == old(self)@ && outbox(effects@) == Seq::<EffectView>::empty()
                } else {
                    exists|order: Seq<u16>|
                        is_listing(order, old(self)@.rooms.dom()) && (
                            final(self)@,
                            outbox(effects@),
                        ) == old(self)@.join(addr, name@, hwid@, room_id, now, order)
                },
            },
    {
        match verdict {
            Err(reason) => {
                return self.disconnect_user(addr, Some(reason.as_str()));
            },
            Ok(_) => {},
        }
        if users_contains(&self.users, &addr) {
            let effects: Vec<Effect> = Vec::new();
            assert(outbox(effects@) =~= Seq::empty());
            return effects;
        }
        let id = self.next_user_id;
        self.next_user_id = id + 1;
        let user = User {
            id,
            name: name.clone(),
            hwid,
            last_seen: now + USER_TIMEOUT_SECS,
            room_id,
            flags: 0,
            consecutive_behind: 0,
        };
        users_insert(&mut self.users, addr, user);
        self.connected_addrs.push(addr);
        self.seat(room_id, addr, id, name.clone());
        let ghost entered = self@;
        let order = rooms_ids(&self.rooms);
        proof {
            assert(entered.rooms.dom() =~= old(self)@.rooms.dom());
            assert forall|i: int| 0 <= i < order@.len() implies entered.rooms.contains_key(
                #[trigger] order@[i],
            ) by {
                assert(order@.contains(order@[i]));
            }
        }
        let mut effects = self.greet(addr, &order);
        let ghost greeted = outbox(effects@);
        let recipients = copy_addrs(&self.connected_addrs);
        let fanout = self.announce(true, room_id, id, name.as_str(), recipients.as_slice());
        let ghost sent = outbox(fanout@);
        append_effects(&mut effects, fanout);
        proof {
            lemma_join_wf(old(self)@, addr, name@, hwid@, room_id, now, order@);
        }
        let accepted = new_accepted(self.event_system.next_seq - 1, id);
        let ghost last = EffectView::Send { to: addr, data: accepted@ };
        effects.push(Effect::Send { to: addr, data: accepted });
        assert(outbox(effects@) =~= greeted + sent + seq![last]);
        assert((self@, outbox(effects@)) == old(self)@.join(
            addr,
            name@,
            hwid@,
            room_id,
            now,
            order@,
        ));
        effects
    }

    /// The `Joined` frames that greet a new user, one for each room of
    /// `order`.
    pub(crate) fn greet(&mut self, addr: Endpoint, order: &Vec<u16>) -> (effects: Vec<Effect>)
        requires
            forall|i: int|
                0 <= i < order@.len() ==> old(self)@.rooms.contains_key(#[trigger] order@[i]),
        ensures
            final(self)@ == old(self)@,
            outbox(effects@) == old(self)@.greetings(addr, order@),
    {
        let mut effects: Vec<Effect> = Vec::new();
        let mut i: usize = 0;
        while i < order.len()
            invariant
                i <= order@.len(),
                self@ == old(self)@,
                forall|k: int|
                    0 <= k < order@.len() ==> old(self)@.rooms.contains_key(#[trigger] order@[k]),
                effects@.len() == i,
                forall|k: int|
                    0 <= k < i ==> (#[trigger] effects@[k])@ == old(self)@.greetings(
                        addr,
                        order@,
                    )[k],
            decreases order@.len() - i,
        {
            let rid = order[i];
            assert(old(self)@.rooms.contains_key(order@[i as int]));
            let users = match self.room_snapshot(rid) {
                Some(list) => list,
                None => Vec::new(),
            };
            effects.push(Effect::Send { to: addr, data: new_joined(rid, users) });
            i += 1;
        }
        assert(outbox(effects@) =~= old(self)@.greetings(addr, order@));
        effects
    }

    /// Answers a request for a page of the room catalog.
    pub fn handle_rooms(&mut self, addr: Endpoint, offset: u16) -> (effects: Vec<Effect>)
        ensures
            final(self)@ == old(self)@,
            outbox(effects@) == old(self)@.list_rooms(addr, offset),
    {
        let from: u32 = if offset == 0 {
            1
        } else {
            offset as u32
        };
        let ghost rooms = self@.rooms;
        let mut list: Vec<(u16, String)> = Vec::new();
        let mut k: u32 = 0;
        let mut open = true;
        while open && k < 10 && from + k <= 0xffff
            invariant
                k <= 10,
                1 <= from <= 0xffff,
                self@ == old(self)@,
                rooms == old(self)@.rooms,
                list@.len() == k,
                from + k <= u16::MAX + 1,
                forall|id: u16| from <= id < from + k ==> #[trigger] rooms.contains_key(id),
                forall|t: int|
                    0 <= t < k ==> (#[trigger] list@[t]).0 == from + t && list@[t].1@ == rooms[(from
                        + t) as u16].name,
                !open ==> from + k <= u16::MAX && !rooms.contains_key((from + k) as u16),
            decreases
                    (if open {
                        1int
                    } else {
                        0int
                    }) + 10 - k,
        {
            let id = (from + k) as u16;
            match self.room_name(id) {
                Some(name) => {
                    list.push((id, name));
                    k += 1;
                },
                None => {
                    open = false;
                },
            }
        }
        proof {
            lemma_run_of_rooms(rooms, from as int, 10, k as nat);
            assert(tagged_names(list@) =~= room_page(rooms, offset));
        }
        let remaining = self.room_count() as u64 >= from as u64 + 10;
        let mut effects: Vec<Effect> = Vec::new();
        effects.push(Effect::Send { to: addr, data: new_rooms_list(remaining, list) });
        assert(outbox(effects@) =~= old(self)@.list_rooms(addr, offset));
        effects
    }

    /// Handles a keepalive.
    pub fn handle_alive(&mut self, addr: Endpoint, client_seq: u64, now: u64) -> (effects: Vec<
        Effect,
    >)
        requires
            old(self).wf(),
            old(self)@.events.next_seq < u64::MAX,
            now <= u64::MAX - USER_TIMEOUT_SECS,
        ensures
            final(self).wf(),
            (final(self)@, outbox(effects@)) == old(self)@.alive(addr, client_seq, now),
    {
        let mut effects: Vec<Effect> = Vec::new();
        match self.keepalive_user_arc(addr, now) {
            Some(_) => {
                effects.push(Effect::Send { to: addr, data: new_alived() });
                let ghost alived = outbox(effects@);
                if client_seq > 0 {
                    let more = self.handle_alive_sync(addr, client_seq);
                    let ghost resent = outbox(more@);
                    append_effects(&mut effects, more);
                    assert(outbox(effects@) =~= alived + resent);
                }
                assert(alived =~= seq![
                    EffectView::Send { to: addr, data: frame_bytes(Frame::Alived) },
                ]);
            },
            None => {
                assert(outbox(effects@) =~= Seq::empty());
            },
        }
        effects
    }

    /// Handles audio from a user.
    pub fn handle_talk(&mut self, addr: Endpoint, audio_data: Vec<u8>, now: u64) -> (effects: Vec<
        Effect,
    >)
        requires
            old(self).wf(),
            now <= u64::MAX - USER_TIMEOUT_SECS,
        ensures
            final(self).wf(),
            (final(self)@, outbox(effects@)) == old(self)@.talk(addr, audio_data@, now),
    {
        match self.keepalive_user_arc(addr, now) {
            Some(user) => {
                let pkt = new_talked_audio(user.id, audio_data.as_slice());
                self.batch_send_room(pkt.as_slice(), user.room_id, Some(addr))
            },
            None => {
                let effects: Vec<Effect> = Vec::new();
                assert(outbox(effects@) =~= Seq::empty());
                effects
            },
        }
    }

    /// Handles a request to switch rooms.
    pub fn handle_switch(&mut self, addr: Endpoint, room_id: u16, now: u64) -> (effects: Vec<
        Effect,
    >)
        requires
            old(self).wf(),
            old(self)@.events.next_seq < u64::MAX - 1,
            now <= u64::MAX - USER_TIMEOUT_SECS,
        ensures
            final(self).wf(),
            (final(self)@, outbox(effects@)) == old(self)@.switch(addr, room_id, now),
    {
        proof {
            lemma_switch_wf(old(self)@, addr, room_id, now);
        }
        let user = match self.keepalive_user_arc(addr, now) {
            Some(u) => u,
            None => {
                let effects: Vec<Effect> = Vec::new();
                assert(outbox(effects@) =~= Seq::empty());
                return effects;
            },
        };
        if user.room_id == room_id || !self.has_room(room_id) {
            let effects: Vec<Effect> = Vec::new();
            assert(outbox(effects@) =~= Seq::empty());
            return effects;
        }
        self.relocate(addr, &user, room_id)
    }

    /// The user at `addr` changes rooms in the model.
    pub(crate) fn transfer(&mut self, addr: Endpoint, user: &User, room_id: u16)
        requires
            old(self)@.users.contains_key(addr),
            user@ == old(self)@.users[addr],
        ensures
            final(self)@ == old(self)@.transferred(addr, room_id),
    {
        match users_remove(&mut self.users, &addr) {
            Some(stored) => {
                let mut stored = stored;
                stored.room_id = room_id;
                users_insert(&mut self.users, addr, stored);
            },
            None => {},
        }
        assert(self@.users =~= old(self)@.users.insert(
            addr,
            UserView { room_id, ..old(self)@.users[addr] },
        ));
        self.unseat(user.room_id, &addr, user.id);
        self.seat(room_id, addr, user.id, user.name.clone());
    }

    /// The user at `addr`, of which `user` is a copy, moves to the room
    /// `room_id`, which exists.
    pub(crate) fn relocate(&mut self, addr: Endpoint, user: &User, room_id: u16) -> (effects: Vec<
        Effect,
    >)
        requires
            old(self)@.users.contains_key(addr),
            user@ == old(self)@.users[addr],
            old(self)@.rooms.contains_key(room_id),
            old(self)@.events.next_seq < u64::MAX - 1,
        ensures
            (final(self)@, outbox(effects@)) == old(self)@.relocate(addr, room_id),
    {
        self.transfer(addr, user, room_id);
        let ghost moved = self@;
        let users = match self.room_snapshot(room_id) {
            Some(list) => list,
            None => Vec::new(),
        };
        let mut effects: Vec<Effect> = Vec::new();
        effects.push(Effect::Send { to: addr, data: new_joined(room_id, users) });
        let ghost joined = outbox(effects@);
        let recipients = copy_addrs(&self.connected_addrs);
        let leave = self.announce(
            false,
            user.room_id,
            user.id,
            user.name.as_str(),
            recipients.as_slice(),
        );
        let ghost left = outbox(leave@);
        append_effects(&mut effects, leave);
        let enter = self.announce(
            true,
            room_id,
            user.id,
            user.name.as_str(),
            recipients.as_slice(),
        );
        let ghost entered = outbox(enter@);
        append_effects(&mut effects, enter);
        assert(outbox(effects@) =~= joined + left + entered);
        effects
    }
}

} // verus!
