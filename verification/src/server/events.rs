//! The presence log: a counter that numbers the events and a bounded
//! history that replays them to a client that fell behind.

use std::collections::VecDeque;
use vstd::prelude::*;
use vstd::slice::slice_to_vec;

use crate::protocol::encode::{frame_bytes, new_event};
use crate::protocol::packet::Frame;
use crate::server::invariants::lemma_with_behind_wf;
use crate::server::model::{
    Endpoint, EventLog, EventSystem, Server, ServerView, StoredEvent, MAX_CONSECUTIVE_BEHIND,
    MAX_EVENT_HISTORY,
};
use crate::server::net::{outbox, Effect, EffectView};
use crate::server::reasons::{
    behind_repeatedly_reason, inconsistent_history_reason, too_far_behind_reason,
};
use crate::server::tables::{users_insert, users_remove};

verus! {

/// A list of packets, each as its bytes.
pub open spec fn payloads(packets: Seq<Vec<u8>>) -> Seq<Seq<u8>> {
    Seq::new(packets.len(), |i: int| packets[i]@)
}

/// The packets of the events in `history` that come after `client_seq`, in
/// the order of the history.
pub open spec fn missed_in(history: Seq<(u64, Seq<u8>)>, client_seq: u64) -> Seq<Seq<u8>>
    decreases history.len(),
{
    if history.len() == 0 {
        Seq::empty()
    } else {
        let earlier = missed_in(history.drop_last(), client_seq);
        if history.last().0 > client_seq {
            earlier.push(history.last().1)
        } else {
            earlier
        }
    }
}

impl EventLog {
    /// The log of a server without users: nothing stored, numbering at 1.
    pub open spec fn fresh() -> EventLog {
        EventLog { next_seq: 1, history: Seq::empty() }
    }

    /// The history holds the most recent events, at most
    /// `MAX_EVENT_HISTORY` of them, numbered without a gap up to the last
    /// number given out.
    pub open spec fn wf(self) -> bool {
        &&& self.next_seq >= 1
        &&& self.history.len() == if self.next_seq - 1 < MAX_EVENT_HISTORY {
            self.next_seq - 1
        } else {
            MAX_EVENT_HISTORY as int
        }
        &&& forall|i: int|
            0 <= i < self.history.len() ==> (#[trigger] self.history[i]).0 == self.next_seq
                - self.history.len() + i
    }

    /// The last sequence number given out, or 0 if there is none.
    pub open spec fn last_seq(self) -> u64 {
        if self.next_seq >= 1 {
            (self.next_seq - 1) as u64
        } else {
            0
        }
    }

    /// The log after one more event: the packet is stored under the next
    /// number, and the oldest entry makes room for it if the history is full.
    pub open spec fn recorded(self, pkt: Seq<u8>) -> EventLog {
        let kept = if self.history.len() == MAX_EVENT_HISTORY {
            self.history.drop_first()
        } else {
            self.history
        };
        EventLog { next_seq: (self.next_seq + 1) as u64, history: kept.push((self.next_seq, pkt)) }
    }

    /// The stored packets that a client at `client_seq` has not seen.
    pub open spec fn missed(self, client_seq: u64) -> Seq<Seq<u8>> {
        missed_in(self.history, client_seq)
    }
}

/// A copy of the bytes.
pub fn copy_bytes(bytes: &Vec<u8>) -> (copy: Vec<u8>)
    ensures
        copy@ == bytes@,
{
    slice_to_vec(bytes.as_slice())
}

impl EventSystem {
    /// An empty log that numbers from 1.
    pub fn new() -> (log: EventSystem)
        ensures
            log@ == EventLog::fresh(),
    {
        let log = EventSystem { next_seq: 1, history: VecDeque::with_capacity(MAX_EVENT_HISTORY) };
        assert(log@.history =~= Seq::empty());
        log
    }

    /// The last sequence number given out, or 0 if there is none.
    pub fn last_seq(&self) -> (seq: u64)
        ensures
            seq == self@.last_seq(),
    {
        if self.next_seq >= 1 {
            self.next_seq - 1
        } else {
            0
        }
    }

    /// Gives the next sequence number to `pkt_builder`, stores the packet it
    /// builds under that number and returns the packet.
    pub fn record<F: Fn(u64) -> Vec<u8>>(&mut self, pkt_builder: F) -> (pkt: Vec<u8>)
        requires
            old(self).next_seq < u64::MAX,
            call_requires(pkt_builder, (old(self).next_seq,)),
        ensures
            call_ensures(pkt_builder, (old(self).next_seq,), pkt),
            final(self)@ == old(self)@.recorded(pkt@),
            old(self)@.wf() ==> final(self)@.wf(),
    {
        proof {
            if old(self)@.wf() {
                assert forall|p: Seq<u8>| (#[trigger] old(self)@.recorded(p)).wf() by {
                    lemma_recorded_above(old(self)@, p);
                }
            }
        }
        let seq = self.next_seq;
        self.next_seq += 1;
        let pkt = pkt_builder(seq);
        if self.history.len() == MAX_EVENT_HISTORY {
            self.history.pop_front();
        }
        self.history.push_back(StoredEvent { seq, data: copy_bytes(&pkt) });
        assert(self@.history =~= old(self)@.recorded(pkt@).history);
        pkt
    }

    /// Copies of the stored packets that come after `client_seq`, oldest
    /// first.
    pub fn collect_after(&self, client_seq: u64) -> (packets: Vec<Vec<u8>>)
        ensures
            payloads(packets@) == self@.missed(client_seq),
    {
        let mut packets: Vec<Vec<u8>> = Vec::new();
        let ghost history = self@.history;
        let mut i: usize = 0;
        assert(history.take(0) =~= Seq::empty());
        assert(payloads(packets@) =~= Seq::empty());
        while i < self.history.len()
            invariant
                i <= self.history@.len(),
                history == self@.history,
                payloads(packets@) == missed_in(history.take(i as int), client_seq),
            decreases self.history@.len() - i,
        {
            let event = &self.history[i];
            proof {
                assert(history.take(i + 1).drop_last() =~= history.take(i as int));
                assert(history.take(i + 1).last() == event@);
            }
            if event.seq > client_seq {
                let ghost before = payloads(packets@);
                packets.push(copy_bytes(&event.data));
                assert(payloads(packets@) =~= before.push(event.data@));
            }
            i += 1;
        }
        assert(history.take(i as int) =~= history);
        packets
    }

    /// Forgets every event and numbers from 1 again.
    pub fn reset(&mut self)
        ensures
            final(self)@ == EventLog::fresh(),
    {
        self.next_seq = 1;
        self.history.clear();
        assert(self@.history =~= Seq::empty());
    }
}

/// Where sequence numbers run without a gap from `base`, the events after
/// `client_seq` are the tail of the history that starts at the first larger
/// number.
pub proof fn lemma_missed_in_run(history: Seq<(u64, Seq<u8>)>, base: int, client_seq: u64)
    requires
        forall|i: int| 0 <= i < history.len() ==> (#[trigger] history[i]).0 == base + i,
    ensures
        ({
            let seen = if client_seq + 1 - base < 0 {
                0
            } else if client_seq + 1 - base > history.len() {
                history.len() as int
            } else {
                client_seq + 1 - base
            };
            &&& missed_in(history, client_seq).len() == history.len() - seen
            &&& forall|k: int|
                0 <= k < history.len() - seen ==> missed_in(history, client_seq)[k]
                    == history[seen + k].1
        }),
    decreases history.len(),
{
    if history.len() > 0 {
        let front = history.drop_last();
        assert forall|i: int| 0 <= i < front.len() implies (#[trigger] front[i]).0 == base + i by {
            assert(front[i] == history[i]);
        }
        lemma_missed_in_run(front, base, client_seq);
    }
}

/// Replay is exact: for a client that is behind by no more than the history
/// holds, the packets to resend are as many as the client is behind, and
/// the k-th of them is the packet that was stored under the k-th sequence
/// number after the client's.
pub proof fn lemma_replay_exact(log: EventLog, client_seq: u64)
    requires
        log.wf(),
        client_seq < log.last_seq(),
        log.last_seq() - client_seq <= MAX_EVENT_HISTORY,
    ensures
        ({
            let behind_by = log.last_seq() - client_seq;
            let start = log.history.len() - behind_by;
            &&& start >= 0
            &&& log.missed(client_seq).len() == behind_by
            &&& forall|k: int|
                0 <= k < behind_by ==> (#[trigger] log.history[start + k]).0 == client_seq + 1 + k
                    && log.missed(client_seq)[k] == log.history[start + k].1
        }),
{
    let base = log.next_seq - log.history.len();
    lemma_missed_in_run(log.history, base, client_seq);
}

/// Numbering is monotonic: an event recorded in a well-formed log gets a
/// sequence number above every number in the history, the log stays
/// well-formed, and the event recorded after it gets the number after its.
pub proof fn lemma_recorded_above(log: EventLog, pkt: Seq<u8>)
    requires
        log.wf(),
        log.next_seq < u64::MAX,
    ensures
        log.recorded(pkt).wf(),
        log.recorded(pkt).next_seq == log.next_seq + 1,
        log.recorded(pkt).history.last() == (log.next_seq, pkt),
        forall|i: int|
            0 <= i < log.history.len() ==> (#[trigger] log.history[i]).0 < log.next_seq,
        forall|i: int, j: int|
            0 <= i < j < log.recorded(pkt).history.len() ==> (#[trigger] log.recorded(
                pkt,
            ).history[i]).0 < (#[trigger] log.recorded(pkt).history[j]).0,
{
}

impl Server {
    /// Broadcasts one event.  Without recipients nothing happens.  Otherwise
    /// the event gets the next sequence number, `pkt_builder` makes its
    /// packet, the packet is stored in the history, and it goes out to every
    /// recipient.
    pub fn broadcast_event<F: Fn(u64) -> Vec<u8>>(
        &mut self,
        pkt_builder: F,
        recipients: &[Endpoint],
    ) -> (effects: Vec<Effect>)
        requires
            old(self)@.events.next_seq < u64::MAX,
            call_requires(pkt_builder, (old(self)@.events.next_seq,)),
        ensures
            recipients@.len() == 0 ==> final(self)@ == old(self)@ && outbox(effects@)
                == Seq::<EffectView>::empty(),
            recipients@.len() > 0 ==> exists|pkt: Vec<u8>|
                call_ensures(pkt_builder, (old(self)@.events.next_seq,), pkt) && (
                    final(self)@,
                    outbox(effects@),
                ) == old(self)@.broadcast(pkt@, recipients@),
    {
        let mut effects: Vec<Effect> = Vec::new();
        if recipients.len() == 0 {
            assert(outbox(effects@) =~= Seq::empty());
            return effects;
        }
        let pkt = self.event_system.record(pkt_builder);
        let effect = self.batch_send(pkt.as_slice(), recipients);
        effects.push(effect);
        assert(outbox(effects@) =~= old(self)@.broadcast(pkt@, recipients@).1);
        effects
    }

    /// Broadcasts a presence event of the user `user_id`.
    pub(crate) fn announce(
        &mut self,
        joined: bool,
        room_id: u16,
        user_id: u64,
        name: &str,
        recipients: &[Endpoint],
    ) -> (effects: Vec<Effect>)
        requires
            old(self)@.events.next_seq < u64::MAX,
        ensures
            (final(self)@, outbox(effects@)) == old(self)@.announce(
                joined,
                room_id,
                user_id,
                name@,
                recipients@,
            ),
    {
        let builder = |seq: u64| -> (pkt: Vec<u8>)
            ensures
                pkt@ == frame_bytes(Frame::Event { seq, joined, room_id, user_id, name: name@ }),
            { new_event(seq, joined, room_id, user_id, name) };
        self.broadcast_event(builder, recipients)
    }

    /// The sync-resend engine, run on a keepalive that names the last
    /// sequence number the client has seen.  A client that is up to date has
    /// its count of lagging keepalives cleared.  One that is behind by more
    /// than the history holds is disconnected.  Otherwise the count goes up;
    /// at the limit the client is disconnected, else it is sent again, in
    /// order, the packets it missed.  Without a user at `addr` nothing
    /// happens.
    pub fn handle_alive_sync(&mut self, addr: Endpoint, client_seq: u64) -> (effects: Vec<Effect>)
        requires
            old(self).wf(),
            old(self)@.events.next_seq < u64::MAX,
        ensures
            final(self).wf(),
            (final(self)@, outbox(effects@)) == old(self)@.sync(addr, client_seq),
    {
        let mut effects: Vec<Effect> = Vec::new();
        assert(outbox(effects@) =~= Seq::empty());
        let mut user = match users_remove(&mut self.users, &addr) {
            Some(u) => u,
            None => {
                assert(self@.users =~= old(self)@.users);
                return effects;
            },
        };
        let last = self.event_system.last_seq();
        if client_seq >= last {
            if user.consecutive_behind > 0 {
                user.consecutive_behind = 0;
                users_insert(&mut self.users, addr, user);
                assert(self@.users =~= old(self)@.with_behind(addr, 0).users);
                proof {
                    lemma_with_behind_wf(old(self)@, addr, 0);
                }
            } else {
                users_insert(&mut self.users, addr, user);
                assert(self@.users =~= old(self)@.users);
            }
            return effects;
        }
        let behind_by = last - client_seq;
        if behind_by > MAX_EVENT_HISTORY as u64 {
            users_insert(&mut self.users, addr, user);
            assert(self@.users =~= old(self)@.users);
            let reason = too_far_behind_reason(behind_by);
            return self.disconnect_user(addr, Some(reason.as_str()));
        }
        let failures = user.consecutive_behind + 1;
        if failures >= MAX_CONSECUTIVE_BEHIND {
            users_insert(&mut self.users, addr, user);
            assert(self@.users =~= old(self)@.users);
            let reason = behind_repeatedly_reason(failures);
            return self.disconnect_user(addr, Some(reason.as_str()));
        }
        user.consecutive_behind = failures;
        users_insert(&mut self.users, addr, user);
        assert(self@.users =~= old(self)@.with_behind(addr, failures).users);
        proof {
            lemma_with_behind_wf(old(self)@, addr, failures);
        }
        let packets = self.event_system.collect_after(client_seq);
        if packets.len() as u64 != behind_by {
            let reason = inconsistent_history_reason();
            return self.disconnect_user(addr, Some(reason.as_str()));
        }
        let mut packets = packets;
        let ghost missed = payloads(packets@);
        let mut i: usize = 0;
        let n = packets.len();
        while i < n
            invariant
                i <= n,
                n == packets@.len(),
                missed.len() == n,
                effects@.len() == i,
                forall|k: int| i <= k < n ==> packets@[k]@ == missed[k],
                forall|k: int|
                    0 <= k < i ==> (#[trigger] effects@[k])@ == (EffectView::Send {
                        to: addr,
                        data: missed[k],
                    }),
            decreases n - i,
        {
            let mut data: Vec<u8> = Vec::new();
            core::mem::swap(&mut data, &mut packets[i]);
            effects.push(Effect::Send { to: addr, data });
            i += 1;
        }
        assert(outbox(effects@) =~= ServerView::replay(addr, missed));
        effects
    }
}

} // verus!
