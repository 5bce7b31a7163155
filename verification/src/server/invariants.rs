//! The invariants of the data model hold after every operation.

use vstd::prelude::*;

use crate::protocol::packet::Frame;
use crate::server::events::lemma_recorded_above;
use crate::server::model::{
    Endpoint, EventLog, RoomView, ServerView, UserView, MAX_CONSECUTIVE_BEHIND, MAX_EVENT_HISTORY,
    USER_TIMEOUT_SECS,
};
use crate::server::reasons::{
    behind_repeatedly, inactivity, inconsistent_history, too_far_behind,
};
use crate::server::rooms::{
    first_addr, first_id, lemma_first_addr_unique, lemma_first_id_unique, swap_out, without_addr,
};
use crate::server::steps::room_matches;

verus! {

/// Swapping an element out of a list without duplicates leaves the other
/// elements, each once.
pub proof fn lemma_swap_out<T>(s: Seq<T>, i: int)
    requires
        0 <= i < s.len(),
        s.no_duplicates(),
    ensures
        swap_out(s, i).no_duplicates(),
        swap_out(s, i).len() == s.len() - 1,
        forall|x: T| swap_out(s, i).contains(x) <==> (s.contains(x) && x != s[i]),
{
    let t = swap_out(s, i);
    let n = s.len() - 1;
    assert forall|x: T| t.contains(x) <==> (s.contains(x) && x != s[i]) by {
        if t.contains(x) {
            let k = choose|k: int| 0 <= k < t.len() && t[k] == x;
            if k == i {
                assert(s[n] == x);
            } else {
                assert(s[k] == x);
            }
        }
        if s.contains(x) && x != s[i] {
            let k = choose|k: int| 0 <= k < s.len() && s[k] == x;
            if k == n {
                assert(t[i] == x);
            } else {
                assert(t[k] == x);
            }
        }
    }
}

/// Taking an address out of a list without duplicates leaves the other
/// addresses, each once.
pub proof fn lemma_without_addr(s: Seq<Endpoint>, addr: Endpoint)
    requires
        s.no_duplicates(),
    ensures
        without_addr(s, addr).no_duplicates(),
        forall|x: Endpoint| without_addr(s, addr).contains(x) <==> (s.contains(x) && x != addr),
        s.contains(addr) ==> without_addr(s, addr).len() == s.len() - 1,
        !s.contains(addr) ==> without_addr(s, addr) == s,
{
    if s.contains(addr) {
        let i = choose|i: int| 0 <= i < s.len() && s[i] == addr;
        assert(first_addr(s, addr, i));
        lemma_first_addr_unique(s, addr, i);
        lemma_swap_out(s, i);
    } else {
        assert forall|i: int| !first_addr(s, addr, i) by {
            if first_addr(s, addr, i) {
                assert(s.contains(addr));
            }
        }
    }
}

/// The user at `a` counts as a member of the room `id` after a change if
/// and only if it did before, with the same id and name.
pub open spec fn seated_alike(
    before: Map<Endpoint, UserView>,
    after: Map<Endpoint, UserView>,
    id: u16,
    a: Endpoint,
) -> bool {
    &&& (before.contains_key(a) && before[a].room_id == id) <==> (after.contains_key(a)
        && after[a].room_id == id)
    &&& (before.contains_key(a) && before[a].room_id == id) ==> after[a].id == before[a].id
        && after[a].name == before[a].name
}

/// No two users have the same id.
pub open spec fn ids_differ(users: Map<Endpoint, UserView>) -> bool {
    forall|a: Endpoint, b: Endpoint|
        #[trigger] users.contains_key(a) && #[trigger] users.contains_key(b) && a != b
            ==> users[a].id != users[b].id
}

/// A room that nobody enters or leaves still agrees with the connection
/// table.
pub proof fn lemma_room_untouched(
    r: RoomView,
    id: u16,
    before: Map<Endpoint, UserView>,
    after: Map<Endpoint, UserView>,
)
    requires
        room_matches(r, id, before),
        forall|a: Endpoint| seated_alike(before, after, id, a),
    ensures
        room_matches(r, id, after),
{
    assert forall|i: int| #![trigger r.addr_list[i]] 0 <= i < r.addr_list.len() implies {
        let a = r.addr_list[i];
        &&& after.contains_key(a)
        &&& after[a].room_id == id
        &&& r.joined_snapshot[i] == (after[a].id, after[a].name)
        &&& r.members[a] == after[a].id
    } by {
        assert(seated_alike(before, after, id, r.addr_list[i]));
    }
    assert forall|a: Endpoint| #[trigger]
        after.contains_key(a) && after[a].room_id == id implies r.addr_list.contains(a) by {
        assert(seated_alike(before, after, id, a));
        assert(before.contains_key(a));
    }
}

/// A room that a member leaves agrees with the connection table again once
/// the member is out of its three collections.
pub proof fn lemma_room_left(
    r: RoomView,
    id: u16,
    before: Map<Endpoint, UserView>,
    after: Map<Endpoint, UserView>,
    addr: Endpoint,
)
    requires
        room_matches(r, id, before),
        ids_differ(before),
        before.contains_key(addr),
        before[addr].room_id == id,
        !(after.contains_key(addr) && after[addr].room_id == id),
        forall|a: Endpoint| a != addr ==> seated_alike(before, after, id, a),
    ensures
        room_matches(r.without_member(addr, before[addr].id), id, after),
{
    let list = r.addr_list;
    let snap = r.joined_snapshot;
    let uid = before[addr].id;
    assert(list.contains(addr));
    let i = choose|i: int| 0 <= i < list.len() && list[i] == addr;
    assert(first_addr(list, addr, i));
    lemma_first_addr_unique(list, addr, i);
    assert(first_id(snap, uid, i)) by {
        assert(list[i] == addr);
        assert forall|j: int| 0 <= j < i implies snap[j].0 != uid by {
            let other = list[j];
            assert(other != addr);
            assert(before.contains_key(other));
        }
    }
    lemma_first_id_unique(snap, uid, i);
    lemma_swap_out(list, i);
    let out = r.without_member(addr, uid);
    assert(out.addr_list == swap_out(list, i));
    assert(out.joined_snapshot == swap_out(snap, i));
    let last = list.len() - 1;
    assert forall|k: int| #![trigger out.addr_list[k]] 0 <= k < out.addr_list.len() implies {
        let a = out.addr_list[k];
        &&& after.contains_key(a)
        &&& after[a].room_id == id
        &&& out.joined_snapshot[k] == (after[a].id, after[a].name)
        &&& out.members[a] == after[a].id
    } by {
        let from = if k == i {
            last
        } else {
            k
        };
        let a = list[from];
        assert(out.addr_list[k] == a);
        assert(out.joined_snapshot[k] == snap[from]);
        assert(a != addr);
        assert(seated_alike(before, after, id, a));
        assert(r.members.contains_key(a));
    }
    assert forall|a: Endpoint| #[trigger]
        after.contains_key(a) && after[a].room_id == id implies out.addr_list.contains(a) by {
        assert(a != addr);
        assert(seated_alike(before, after, id, a));
        assert(before.contains_key(a));
    }
    assert forall|a: Endpoint| #[trigger]
        out.members.contains_key(a) <==> out.addr_list.contains(a) by {
        assert(r.members.contains_key(a) <==> list.contains(a));
    }
}

/// A room that a user enters agrees with the connection table again once
/// the user is in its three collections.
pub proof fn lemma_room_entered(
    r: RoomView,
    id: u16,
    before: Map<Endpoint, UserView>,
    after: Map<Endpoint, UserView>,
    addr: Endpoint,
)
    requires
        room_matches(r, id, before),
        !(before.contains_key(addr) && before[addr].room_id == id),
        after.contains_key(addr),
        after[addr].room_id == id,
        forall|a: Endpoint| a != addr ==> seated_alike(before, after, id, a),
    ensures
        room_matches(r.with_member(addr, after[addr].id, after[addr].name), id, after),
{
    let list = r.addr_list;
    let into = r.with_member(addr, after[addr].id, after[addr].name);
    assert(!list.contains(addr)) by {
        if list.contains(addr) {
            let i = choose|i: int| 0 <= i < list.len() && list[i] == addr;
            assert(before.contains_key(list[i]));
        }
    }
    assert(into.addr_list.no_duplicates());
    assert forall|k: int| #![trigger into.addr_list[k]] 0 <= k < into.addr_list.len() implies {
        let a = into.addr_list[k];
        &&& after.contains_key(a)
        &&& after[a].room_id == id
        &&& into.joined_snapshot[k] == (after[a].id, after[a].name)
        &&& into.members[a] == after[a].id
    } by {
        if k < list.len() {
            let a = list[k];
            assert(into.addr_list[k] == a);
            assert(list.contains(a));
            assert(a != addr);
            assert(seated_alike(before, after, id, a));
            assert(r.members.contains_key(a));
        }
    }
    assert forall|a: Endpoint| #[trigger]
        after.contains_key(a) && after[a].room_id == id implies into.addr_list.contains(a) by {
        if a == addr {
            assert(into.addr_list[list.len() as int] == addr);
        } else {
            assert(seated_alike(before, after, id, a));
            assert(before.contains_key(a));
            let i = choose|i: int| 0 <= i < list.len() && list[i] == a;
            assert(into.addr_list[i] == a);
        }
    }
    assert forall|a: Endpoint| #[trigger]
        into.members.contains_key(a) <==> into.addr_list.contains(a) by {
        assert(r.members.contains_key(a) <==> list.contains(a));
        if a == addr {
            assert(into.addr_list[list.len() as int] == addr);
        }
        if list.contains(a) {
            let i = choose|i: int| 0 <= i < list.len() && list[i] == a;
            assert(into.addr_list[i] == a);
        }
        if into.addr_list.contains(a) && a != addr {
            let i = choose|i: int| 0 <= i < into.addr_list.len() && into.addr_list[i] == a;
            assert(list[i] == a);
        }
    }
}

/// A server without users and rooms meets the invariants.
pub proof fn lemma_fresh_wf()
    ensures
        ServerView::fresh().wf(),
{
}

/// Registering a room that no user refers to keeps the invariants.
pub proof fn lemma_with_room_wf(s: ServerView, id: u16, name: Seq<char>)
    requires
        s.wf(),
        forall|a: Endpoint| #[trigger] s.users.contains_key(a) ==> s.users[a].room_id != id,
    ensures
        s.with_room(id, name).wf(),
{
    let t = s.with_room(id, name);
    assert forall|other: u16| #[trigger] t.rooms.contains_key(other) implies t.room_wf(other) by {
        if other != id {
            assert(s.rooms.contains_key(other));
            assert(s.room_wf(other));
        }
    }
}

/// A new deadline keeps the invariants.
pub proof fn lemma_refreshed_wf(s: ServerView, addr: Endpoint, now: u64)
    requires
        s.wf(),
    ensures
        s.refreshed(addr, now).wf(),
{
    let t = s.refreshed(addr, now);
    if s.users.contains_key(addr) {
        assert(t.users.dom() =~= s.users.dom());
        assert forall|id: u16| #[trigger] t.rooms.contains_key(id) implies t.room_wf(id) by {
            assert(s.rooms.contains_key(id));
            assert(s.room_wf(id));
            lemma_room_untouched(s.rooms[id], id, s.users, t.users);
        }
    }
}

/// A new count of lagging keepalives below the limit keeps the invariants.
pub proof fn lemma_with_behind_wf(s: ServerView, addr: Endpoint, count: u8)
    requires
        s.wf(),
        s.users.contains_key(addr),
        count < MAX_CONSECUTIVE_BEHIND,
    ensures
        s.with_behind(addr, count).wf(),
{
    let t = s.with_behind(addr, count);
    assert(t.users.dom() =~= s.users.dom());
    assert forall|id: u16| #[trigger] t.rooms.contains_key(id) implies t.room_wf(id) by {
        assert(s.rooms.contains_key(id));
        assert(s.room_wf(id));
        lemma_room_untouched(s.rooms[id], id, s.users, t.users);
    }
}

/// Broadcasting a presence event keeps the invariants and moves the
/// numbering on by one at most.
pub proof fn lemma_announce_wf(
    s: ServerView,
    joined: bool,
    room_id: u16,
    user_id: u64,
    name: Seq<char>,
    recipients: Seq<Endpoint>,
)
    requires
        s.wf(),
        s.events.next_seq < u64::MAX,
    ensures
        s.announce(joined, room_id, user_id, name, recipients).0.wf(),
        s.events.next_seq <= s.announce(joined, room_id, user_id, name, recipients).0.events.next_seq
            <= s.events.next_seq + 1,
{
    let t = s.announce(joined, room_id, user_id, name, recipients).0;
    if recipients.len() > 0 {
        let pkt = t.events.history.last().1;
        lemma_recorded_above(s.events, pkt);
        assert forall|id: u16| #[trigger] t.rooms.contains_key(id) implies t.room_wf(id) by {
            assert(s.rooms.contains_key(id));
            assert(s.room_wf(id));
        }
    }
}

/// The disconnect path keeps the invariants and moves the numbering on by
/// one at most.
pub proof fn lemma_disconnect_wf(s: ServerView, addr: Endpoint, reason: Option<Seq<char>>)
    requires
        s.wf(),
        s.events.next_seq < u64::MAX,
    ensures
        s.disconnect(addr, reason).0.wf(),
        s.disconnect(addr, reason).0.events.next_seq <= s.events.next_seq + 1,
        s.disconnect(addr, reason).0.rooms.dom() == s.rooms.dom(),
        s.disconnect(addr, reason).0.users == s.users.remove(addr),
{
    if s.users.contains_key(addr) {
        let u = s.users[addr];
        let seats = s.unseat(u.room_id, addr, u.id);
        let left = ServerView {
            users: s.users.remove(addr),
            connected: without_addr(s.connected, addr),
            ..seats
        };
        assert(left.rooms.dom() =~= s.rooms.dom());
        lemma_without_addr(s.connected, addr);
        assert(ids_differ(s.users));
        assert forall|id: u16| #[trigger] left.rooms.contains_key(id) implies left.room_wf(id) by {
            assert(s.rooms.contains_key(id));
            assert(s.room_wf(id));
            if id == u.room_id {
                lemma_room_left(s.rooms[id], id, s.users, left.users, addr);
            } else {
                lemma_room_untouched(s.rooms[id], id, s.users, left.users);
            }
        }
        assert(left.wf());
        lemma_announce_wf(left, false, u.room_id, u.id, u.name, left.connected);
        let told = left.announce(false, u.room_id, u.id, u.name, left.connected).0;
        if left.users.len() == 0 {
            left.users.dom().lemma_len0_is_empty();
            let after = ServerView { next_user_id: 0, events: EventLog::fresh(), ..told };
            assert forall|id: u16| #[trigger] after.rooms.contains_key(id) implies after.room_wf(
                id,
            ) by {
                assert(told.rooms.contains_key(id));
                assert(told.room_wf(id));
            }
            assert forall|a: Endpoint| !after.users.contains_key(a) by {
                assert(!left.users.dom().contains(a));
            }
        }
    } else {
        assert(s.users.remove(addr) =~= s.users);
    }
}

/// A join keeps the invariants and moves the numbering on by one.
pub proof fn lemma_join_wf(
    s: ServerView,
    addr: Endpoint,
    name: Seq<char>,
    hwid: Seq<char>,
    room_id: u16,
    now: u64,
    order: Seq<u16>,
)
    requires
        s.wf(),
        !s.users.contains_key(addr),
        s.next_user_id < u64::MAX,
        s.events.next_seq < u64::MAX,
    ensures
        s.join(addr, name, hwid, room_id, now, order).0.wf(),
        s.join(addr, name, hwid, room_id, now, order).0.events.next_seq == s.events.next_seq + 1,
        s.join(addr, name, hwid, room_id, now, order).0.users.contains_key(addr),
        s.join(addr, name, hwid, room_id, now, order).0.users[addr].id == s.next_user_id,
{
    let u = UserView {
        id: s.next_user_id,
        name,
        hwid,
        last_seen: (now + USER_TIMEOUT_SECS) as u64,
        room_id,
        flags: 0,
        consecutive_behind: 0,
    };
    let listed = ServerView {
        users: s.users.insert(addr, u),
        connected: s.connected.push(addr),
        next_user_id: (s.next_user_id + 1) as u64,
        ..s
    };
    let entered = listed.seat(room_id, addr, u.id, name);
    assert(entered.rooms.dom() =~= s.rooms.dom());
    assert(entered.connected.no_duplicates()) by {
        assert(!s.connected.contains(addr));
    }
    assert forall|a: Endpoint| #[trigger]
        entered.users.contains_key(a) <==> entered.connected.contains(a) by {
        assert(s.users.contains_key(a) <==> s.connected.contains(a));
        if a == addr {
            assert(entered.connected[s.connected.len() as int] == addr);
        }
        if s.connected.contains(a) {
            let i = choose|i: int| 0 <= i < s.connected.len() && s.connected[i] == a;
            assert(entered.connected[i] == a);
        }
        if entered.connected.contains(a) && a != addr {
            let i = choose|i: int| 0 <= i < entered.connected.len() && entered.connected[i] == a;
            assert(s.connected[i] == a);
        }
    }
    assert forall|id: u16| #[trigger] entered.rooms.contains_key(id) implies entered.room_wf(
        id,
    ) by {
        assert(s.rooms.contains_key(id));
        assert(s.room_wf(id));
        if id == room_id {
            lemma_room_entered(s.rooms[id], id, s.users, entered.users, addr);
        } else {
            lemma_room_untouched(s.rooms[id], id, s.users, entered.users);
        }
    }
    assert(entered.wf());
    assert(entered.connected.len() > 0);
    lemma_announce_wf(entered, true, room_id, u.id, name, entered.connected);
}

/// A switch keeps the invariants and moves the numbering on by two at most.
pub proof fn lemma_switch_wf(s: ServerView, addr: Endpoint, room_id: u16, now: u64)
    requires
        s.wf(),
        s.events.next_seq < u64::MAX - 1,
    ensures
        s.switch(addr, room_id, now).0.wf(),
        s.switch(addr, room_id, now).0.events.next_seq <= s.events.next_seq + 2,
{
    if s.users.contains_key(addr) {
        lemma_refreshed_wf(s, addr, now);
        let alive = s.refreshed(addr, now);
        let u = alive.users[addr];
        if !(u.room_id == room_id || !alive.rooms.contains_key(room_id)) {
            let moved = alive.transferred(addr, room_id);
            assert(moved.users.dom() =~= alive.users.dom());
            assert(moved.rooms.dom() =~= alive.rooms.dom());
            assert(ids_differ(alive.users));
            assert forall|id: u16| #[trigger] moved.rooms.contains_key(id) implies moved.room_wf(
                id,
            ) by {
                assert(alive.rooms.contains_key(id));
                assert(alive.room_wf(id));
                if id == u.room_id {
                    lemma_room_left(alive.rooms[id], id, alive.users, moved.users, addr);
                } else if id == room_id {
                    lemma_room_entered(alive.rooms[id], id, alive.users, moved.users, addr);
                } else {
                    lemma_room_untouched(alive.rooms[id], id, alive.users, moved.users);
                }
            }
            assert(moved.wf());
            lemma_announce_wf(moved, false, u.room_id, u.id, u.name, moved.connected);
            let told = moved.announce(false, u.room_id, u.id, u.name, moved.connected).0;
            lemma_announce_wf(told, true, room_id, u.id, u.name, moved.connected);
        }
    }
}

/// Audio keeps the invariants and leaves the log alone.
pub proof fn lemma_talk_wf(s: ServerView, addr: Endpoint, audio_data: Seq<u8>, now: u64)
    requires
        s.wf(),
    ensures
        s.talk(addr, audio_data, now).0.wf(),
        s.talk(addr, audio_data, now).0.events == s.events,
{
    lemma_refreshed_wf(s, addr, now);
}

/// The sync-resend engine keeps the invariants and moves the numbering on
/// by one at most.
pub proof fn lemma_sync_wf(s: ServerView, addr: Endpoint, client_seq: u64)
    requires
        s.wf(),
        s.events.next_seq < u64::MAX,
    ensures
        s.sync(addr, client_seq).0.wf(),
        s.sync(addr, client_seq).0.events.next_seq <= s.events.next_seq + 1,
{
    if s.users.contains_key(addr) {
        let last = s.events.last_seq();
        let behind = s.users[addr].consecutive_behind;
        if client_seq >= last {
            if behind > 0 {
                lemma_with_behind_wf(s, addr, 0);
            }
        } else if last - client_seq > MAX_EVENT_HISTORY {
            lemma_disconnect_wf(s, addr, Some(too_far_behind((last - client_seq) as nat)));
        } else {
            let failures = (behind + 1) as u8;
            let counted = s.with_behind(addr, failures);
            let missed = s.events.missed(client_seq);
            if failures >= MAX_CONSECUTIVE_BEHIND {
                lemma_disconnect_wf(
                    s,
                    addr,
                    Some(behind_repeatedly(failures as nat)),
                );
            } else if missed.len() != last - client_seq {
                lemma_with_behind_wf(s, addr, failures);
                lemma_disconnect_wf(counted, addr, Some(inconsistent_history()));
            } else {
                lemma_with_behind_wf(s, addr, failures);
            }
        }
    }
}

/// A keepalive keeps the invariants and moves the numbering on by one at
/// most.
pub proof fn lemma_alive_wf(s: ServerView, addr: Endpoint, client_seq: u64, now: u64)
    requires
        s.wf(),
        s.events.next_seq < u64::MAX,
    ensures
        s.alive(addr, client_seq, now).0.wf(),
        s.alive(addr, client_seq, now).0.events.next_seq <= s.events.next_seq + 1,
{
    lemma_refreshed_wf(s, addr, now);
    lemma_sync_wf(s.refreshed(addr, now), addr, client_seq);
}

/// Whatever frame a client sends, the invariants of the data model hold
/// after the server has handled it.
pub proof fn lemma_handle_wf(s: ServerView, addr: Endpoint, frame: Frame, now: u64)
    requires
        s.wf(),
        s.events.next_seq < u64::MAX - 1,
    ensures
        s.handle(addr, frame, now).0.wf(),
        s.handle(addr, frame, now).0.events.next_seq <= s.events.next_seq + 2,
{
    match frame {
        Frame::Alive { seq } => lemma_alive_wf(s, addr, seq, now),
        Frame::Talk { audio_data } => lemma_talk_wf(s, addr, audio_data, now),
        Frame::Leave => lemma_disconnect_wf(s, addr, None),
        Frame::Switch { room_id } => lemma_switch_wf(s, addr, room_id, now),
        _ => {},
    }
}

/// A sweep keeps the invariants, and it moves the numbering on by one for
/// each user it disconnects at most.
pub proof fn lemma_sweep_wf(s: ServerView, order: Seq<Endpoint>)
    requires
        s.wf(),
        s.events.next_seq + order.len() <= u64::MAX,
    ensures
        s.sweep(order).0.wf(),
        s.sweep(order).0.events.next_seq <= s.events.next_seq + order.len(),
        s.sweep(order).0.rooms.dom() == s.rooms.dom(),
    decreases order.len(),
{
    if order.len() > 0 {
        lemma_sweep_wf(s, order.drop_last());
        lemma_disconnect_wf(
            s.sweep(order.drop_last()).0,
            order.last(),
            Some(inactivity()),
        );
    }
}

} // verus!
