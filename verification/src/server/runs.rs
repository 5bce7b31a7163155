//! Runs of the engine: whatever operations follow one another, the
//! invariants of the data model hold after each, and while users remain the
//! sequence numbers do not go back.

use vstd::prelude::*;

use crate::protocol::packet::Frame;
use crate::server::invariants::{
    lemma_disconnect_wf, lemma_handle_wf, lemma_join_wf, lemma_sweep_wf,
};
use crate::server::model::{Endpoint, ServerView};
use crate::server::numbering::{lemma_disconnect_monotonic, lemma_handle_monotonic};
use crate::server::reasons::inactivity;

verus! {

/// One operation of the engine.
pub enum Operation {
    /// A datagram from `addr` that decodes to `frame` is handled at `now`.
    Handle { addr: Endpoint, frame: Frame, now: u64 },
    /// A join is completed after the collaborator approved it; the room
    /// catalog hands out its rooms in the order `order`.
    Approve {
        addr: Endpoint,
        name: Seq<char>,
        hwid: Seq<char>,
        room_id: u16,
        now: u64,
        order: Seq<u16>,
    },
    /// A join is completed after the collaborator refused it.
    Refuse { addr: Endpoint, reason: Seq<char> },
    /// The users of `expired` are swept out for inactivity, in that order.
    Sweep { expired: Seq<Endpoint> },
}

impl ServerView {
    /// The counters leave room for the operation.
    pub open spec fn permits(self, op: Operation) -> bool {
        match op {
            Operation::Handle { .. } => self.events.next_seq < u64::MAX - 1,
            Operation::Approve { .. } => self.events.next_seq < u64::MAX && self.next_user_id
                < u64::MAX,
            Operation::Refuse { .. } => self.events.next_seq < u64::MAX,
            Operation::Sweep { expired } => self.events.next_seq + expired.len() <= u64::MAX,
        }
    }

    /// The state after the operation.
    pub open spec fn apply(self, op: Operation) -> ServerView {
        match op {
            Operation::Handle { addr, frame, now } => self.handle(addr, frame, now).0,
            Operation::Approve { addr, name, hwid, room_id, now, order } => if self.users
                .contains_key(addr) {
                self
            } else {
                self.join(addr, name, hwid, room_id, now, order).0
            },
            Operation::Refuse { addr, reason } => self.disconnect(addr, Some(reason)).0,
            Operation::Sweep { expired } => self.sweep(expired).0,
        }
    }

    /// The state after the operations, one after the other.
    pub open spec fn run(self, ops: Seq<Operation>) -> ServerView
        decreases ops.len(),
    {
        if ops.len() == 0 {
            self
        } else {
            self.run(ops.drop_last()).apply(ops.last())
        }
    }

    /// The counters leave room for each of the operations when its turn
    /// comes.
    pub open spec fn permits_all(self, ops: Seq<Operation>) -> bool
        decreases ops.len(),
    {
        ops.len() > 0 ==> self.permits_all(ops.drop_last()) && self.run(ops.drop_last()).permits(
            ops.last(),
        )
    }

    /// Users remain after each of the operations.
    pub open spec fn never_drains(self, ops: Seq<Operation>) -> bool
        decreases ops.len(),
    {
        ops.len() > 0 ==> self.never_drains(ops.drop_last()) && self.run(ops).users.len() > 0
    }
}

/// One operation keeps the invariants of the data model.
pub proof fn lemma_apply_wf(s: ServerView, op: Operation)
    requires
        s.wf(),
        s.permits(op),
    ensures
        s.apply(op).wf(),
{
    match op {
        Operation::Handle { addr, frame, now } => lemma_handle_wf(s, addr, frame, now),
        Operation::Approve { addr, name, hwid, room_id, now, order } => {
            if !s.users.contains_key(addr) {
                lemma_join_wf(s, addr, name, hwid, room_id, now, order);
            }
        },
        Operation::Refuse { addr, reason } => lemma_disconnect_wf(s, addr, Some(reason)),
        Operation::Sweep { expired } => lemma_sweep_wf(s, expired),
    }
}

/// Whatever operations follow one another, the invariants of the data model
/// hold after each of them.
pub proof fn lemma_run_wf(s: ServerView, ops: Seq<Operation>)
    requires
        s.wf(),
        s.permits_all(ops),
    ensures
        s.run(ops).wf(),
    decreases ops.len(),
{
    if ops.len() > 0 {
        lemma_run_wf(s, ops.drop_last());
        lemma_apply_wf(s.run(ops.drop_last()), ops.last());
    }
}

/// While users remain after a sweep, the numbering has not gone back.
pub proof fn lemma_sweep_monotonic(s: ServerView, order: Seq<Endpoint>)
    requires
        s.wf(),
        s.events.next_seq + order.len() <= u64::MAX,
    ensures
        s.sweep(order).0.users.len() > 0 ==> s.events.next_seq <= s.sweep(order).0.events.next_seq,
    decreases order.len(),
{
    if order.len() > 0 {
        let before = s.sweep(order.drop_last()).0;
        let after = s.sweep(order).0;
        lemma_sweep_wf(s, order.drop_last());
        lemma_sweep_monotonic(s, order.drop_last());
        lemma_disconnect_wf(before, order.last(), Some(inactivity()));
        lemma_disconnect_monotonic(before, order.last(), Some(inactivity()));
        if after.users.len() > 0 {
            if before.users.len() == 0 {
                before.users.dom().lemma_len0_is_empty();
                assert(after.users.dom() =~= Set::empty());
            }
        }
    }
}

/// While users remain after an operation, the numbering has not gone back.
pub proof fn lemma_apply_monotonic(s: ServerView, op: Operation)
    requires
        s.wf(),
        s.permits(op),
    ensures
        s.apply(op).users.len() > 0 ==> s.events.next_seq <= s.apply(op).events.next_seq,
{
    match op {
        Operation::Handle { addr, frame, now } => lemma_handle_monotonic(s, addr, frame, now),
        Operation::Approve { addr, name, hwid, room_id, now, order } => {
            if !s.users.contains_key(addr) {
                lemma_join_wf(s, addr, name, hwid, room_id, now, order);
            }
        },
        Operation::Refuse { addr, reason } => lemma_disconnect_monotonic(s, addr, Some(reason)),
        Operation::Sweep { expired } => lemma_sweep_monotonic(s, expired),
    }
}

/// Sequence numbers are monotonic over a run that never drains: the next
/// sequence number at its end is not below the one at its start, so every
/// event broadcast later carries a larger number than every event broadcast
/// earlier.
pub proof fn lemma_run_monotonic(s: ServerView, ops: Seq<Operation>)
    requires
        s.wf(),
        s.permits_all(ops),
        s.never_drains(ops),
    ensures
        s.events.next_seq <= s.run(ops).events.next_seq,
    decreases ops.len(),
{
    if ops.len() > 0 {
        lemma_run_monotonic(s, ops.drop_last());
        lemma_run_wf(s, ops.drop_last());
        lemma_apply_monotonic(s.run(ops.drop_last()), ops.last());
    }
}

} // verus!
