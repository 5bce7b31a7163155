//! How sequence numbers and user ids evolve: they only grow while users
//! remain, and they start over when the last user is gone.

use vstd::prelude::*;

use crate::protocol::encode::frame_bytes;
use crate::protocol::packet::Frame;
use crate::server::events::lemma_replay_exact;
use crate::server::invariants::{
    lemma_handle_wf, lemma_join_wf, lemma_refreshed_wf, lemma_with_behind_wf,
};
use crate::server::model::{
    Endpoint, EventLog, ServerView, UserView, MAX_CONSECUTIVE_BEHIND, MAX_EVENT_HISTORY,
};
use crate::server::reasons::{behind_repeatedly, inconsistent_history, too_far_behind};
use crate::server::net::EffectView;
use crate::server::rooms::without_addr;

verus! {

/// A presence event that has recipients carries the next sequence number,
/// is stored under that number, and moves the numbering on by one.
pub proof fn lemma_announce_numbers(
    s: ServerView,
    joined: bool,
    room_id: u16,
    user_id: u64,
    name: Seq<char>,
    recipients: Seq<Endpoint>,
)
    requires
        s.events.next_seq < u64::MAX,
        recipients.len() > 0,
    ensures
        ({
            let (t, effects) = s.announce(joined, room_id, user_id, name, recipients);
            let pkt = frame_bytes(
                Frame::Event { seq: s.events.next_seq, joined, room_id, user_id, name },
            );
            &&& effects == seq![EffectView::Fanout { recipients, data: pkt }]
            &&& t.events.next_seq == s.events.next_seq + 1
            &&& t.events.history.last() == (s.events.next_seq, pkt)
        }),
{
}

/// While users remain after a disconnect, the numbering has not gone back
/// and the next user id is what it was.
pub proof fn lemma_disconnect_monotonic(s: ServerView, addr: Endpoint, reason: Option<Seq<char>>)
    requires
        s.wf(),
        s.events.next_seq < u64::MAX,
    ensures
        ({
            let t = s.disconnect(addr, reason).0;
            t.users.len() > 0 ==> s.events.next_seq <= t.events.next_seq && t.next_user_id
                == s.next_user_id
        }),
{
    if s.users.contains_key(addr) {
        let u = s.users[addr];
        let left = ServerView {
            users: s.users.remove(addr),
            connected: without_addr(s.connected, addr),
            ..s.unseat(u.room_id, addr, u.id)
        };
        assert(left.events.wf());
    }
}

/// Drain reset: when the last user is disconnected, the log is empty again,
/// the next sequence number is 1 and the next user id is 0.
pub proof fn lemma_drain_reset(s: ServerView, addr: Endpoint, reason: Option<Seq<char>>)
    requires
        s.wf(),
        s.users.contains_key(addr),
        s.users.remove(addr).len() == 0,
    ensures
        s.disconnect(addr, reason).0.users == Map::<Endpoint, UserView>::empty(),
        s.disconnect(addr, reason).0.events == EventLog::fresh(),
        s.disconnect(addr, reason).0.events.next_seq == 1,
        s.disconnect(addr, reason).0.next_user_id == 0,
{
    let gone = s.users.remove(addr);
    gone.dom().lemma_len0_is_empty();
    assert(gone =~= Map::empty());
}

/// The user that joins a drained server gets the id 0, its join is event 1,
/// and it is told so.
pub proof fn lemma_join_after_drain(
    s: ServerView,
    addr: Endpoint,
    name: Seq<char>,
    hwid: Seq<char>,
    room_id: u16,
    now: u64,
    order: Seq<u16>,
)
    requires
        s.wf(),
        s.users == Map::<Endpoint, UserView>::empty(),
        s.events == EventLog::fresh(),
        s.next_user_id == 0,
    ensures
        ({
            let (t, effects) = s.join(addr, name, hwid, room_id, now, order);
            &&& t.users[addr].id == 0
            &&& t.events.history == seq![
                (
                    1u64,
                    frame_bytes(Frame::Event { seq: 1, joined: true, room_id, user_id: 0, name }),
                ),
            ]
            &&& effects.last() == (EffectView::Send {
                to: addr,
                data: frame_bytes(Frame::Accepted { latest_seq: 1, user_id: 0 }),
            })
        }),
{
    lemma_join_wf(s, addr, name, hwid, room_id, now, order);
    let (t, effects) = s.join(addr, name, hwid, room_id, now, order);
    assert(t.events.history =~= seq![
        (1u64, frame_bytes(Frame::Event { seq: 1, joined: true, room_id, user_id: 0, name })),
    ]);
}

/// A join numbers its event with the next sequence number, tells the new
/// user that number in `Accepted`, and gives the user the next id; both
/// counters move on by one.
pub proof fn lemma_join_numbers(
    s: ServerView,
    addr: Endpoint,
    name: Seq<char>,
    hwid: Seq<char>,
    room_id: u16,
    now: u64,
    order: Seq<u16>,
)
    requires
        s.wf(),
        !s.users.contains_key(addr),
        s.next_user_id < u64::MAX,
        s.events.next_seq < u64::MAX,
    ensures
        ({
            let (t, effects) = s.join(addr, name, hwid, room_id, now, order);
            &&& t.next_user_id == s.next_user_id + 1
            &&& t.events.next_seq == s.events.next_seq + 1
            &&& t.events.history.last() == (
                s.events.next_seq,
                frame_bytes(
                    Frame::Event {
                        seq: s.events.next_seq,
                        joined: true,
                        room_id,
                        user_id: s.next_user_id,
                        name,
                    },
                ),
            )
            &&& effects.last() == (EffectView::Send {
                to: addr,
                data: frame_bytes(
                    Frame::Accepted { latest_seq: s.events.next_seq, user_id: s.next_user_id },
                ),
            })
        }),
{
    lemma_join_wf(s, addr, name, hwid, room_id, now, order);
}

/// Sequence numbers are monotonic: while users remain after a frame was
/// handled, the next sequence number is not below what it was, and every
/// number in the history is below it and above the numbers stored before it.
pub proof fn lemma_handle_monotonic(s: ServerView, addr: Endpoint, frame: Frame, now: u64)
    requires
        s.wf(),
        s.events.next_seq < u64::MAX - 1,
    ensures
        ({
            let t = s.handle(addr, frame, now).0;
            &&& t.users.len() > 0 ==> s.events.next_seq <= t.events.next_seq
            &&& t.users.len() > 0 ==> t.next_user_id == s.next_user_id
            &&& forall|i: int, j: int|
                0 <= i < j < t.events.history.len() ==> (#[trigger] t.events.history[i]).0 < (
                #[trigger] t.events.history[j]).0
            &&& forall|i: int|
                0 <= i < t.events.history.len() ==> (#[trigger] t.events.history[i]).0
                    < t.events.next_seq
        }),
{
    lemma_handle_wf(s, addr, frame, now);
    match frame {
        Frame::Alive { seq } => {
            if s.users.contains_key(addr) {
                lemma_refreshed_wf(s, addr, now);
                let alive = s.refreshed(addr, now);
                if seq > 0 {
                    lemma_sync_monotonic(alive, addr, seq);
                }
            }
        },
        Frame::Leave => {
            lemma_disconnect_monotonic(s, addr, None);
        },
        Frame::Switch { room_id } => {
            if s.users.contains_key(addr) {
                lemma_refreshed_wf(s, addr, now);
                let alive = s.refreshed(addr, now);
                let u = alive.users[addr];
                if !(u.room_id == room_id || !alive.rooms.contains_key(room_id)) {
                    let moved = alive.transferred(addr, room_id);
                    assert(moved.events == s.events);
                    assert(moved.next_user_id == s.next_user_id);
                }
            }
        },
        _ => {},
    }
}

/// While users remain after a sync, the numbering has not gone back.
pub proof fn lemma_sync_monotonic(s: ServerView, addr: Endpoint, client_seq: u64)
    requires
        s.wf(),
        s.events.next_seq < u64::MAX,
    ensures
        ({
            let t = s.sync(addr, client_seq).0;
            t.users.len() > 0 ==> s.events.next_seq <= t.events.next_seq && t.next_user_id
                == s.next_user_id
        }),
{
    if s.users.contains_key(addr) {
        let last = s.events.last_seq();
        let behind = s.users[addr].consecutive_behind;
        if client_seq >= last {
        } else if last - client_seq > MAX_EVENT_HISTORY {
            lemma_disconnect_monotonic(
                s,
                addr,
                Some(too_far_behind((last - client_seq) as nat)),
            );
        } else {
            let failures = (behind + 1) as u8;
            let counted = s.with_behind(addr, failures);
            if failures >= MAX_CONSECUTIVE_BEHIND {
                lemma_disconnect_monotonic(
                    s,
                    addr,
                    Some(behind_repeatedly(failures as nat)),
                );
            } else if s.events.missed(client_seq).len() != last - client_seq {
                lemma_with_behind_wf(s, addr, failures);
                lemma_disconnect_monotonic(
                    counted,
                    addr,
                    Some(inconsistent_history()),
                );
            }
        }
    }
}

/// In a server that meets the invariants, the history is never found
/// inconsistent: a client that is behind by no more than the history holds
/// has missed exactly as many stored packets as it is behind.
pub proof fn lemma_history_consistent(s: ServerView, client_seq: u64)
    requires
        s.wf(),
        client_seq < s.events.last_seq(),
        s.events.last_seq() - client_seq <= MAX_EVENT_HISTORY,
    ensures
        s.events.missed(client_seq).len() == s.events.last_seq() - client_seq,
{
    lemma_replay_exact(s.events, client_seq);
}

} // verus!
