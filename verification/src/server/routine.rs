//! Liveness: the keepalive that gives a user a new deadline, the disconnect
//! path, and the sweep that disconnects the users whose deadline has passed.

use vstd::prelude::*;
use vstd::set_lib::lemma_len_subset;

use crate::protocol::encode::{frame_bytes, new_disconnect};
use crate::protocol::packet::Frame;
use crate::server::invariants::{lemma_disconnect_wf, lemma_refreshed_wf, lemma_sweep_wf};
use crate::server::model::{copy_addrs, Endpoint, Server, User, USER_TIMEOUT_SECS};
use crate::server::net::{append_effects, outbox, Effect, EffectView};
use crate::server::reasons::inactivity_reason;
use crate::server::rooms::remove_addr;
use crate::server::tables::{is_listing, users_deadlines, users_insert, users_len, users_remove};

verus! {

/// A reason as its characters, if there is one.
pub open spec fn reason_view(reason: Option<&str>) -> Option<Seq<char>> {
    match reason {
        Some(text) => Some(text@),
        None => None,
    }
}

/// The endpoints of `seen` whose deadline is not after `now`, in the order
/// of `seen`.
pub open spec fn expired_in(seen: Seq<(Endpoint, u64)>, now: u64) -> Seq<Endpoint>
    decreases seen.len(),
{
    if seen.len() == 0 {
        Seq::empty()
    } else {
        let earlier = expired_in(seen.drop_last(), now);
        if seen.last().1 <= now {
            earlier.push(seen.last().0)
        } else {
            earlier
        }
    }
}

/// `expired_in` keeps exactly the endpoints whose deadline has passed, and
/// keeps none twice where `seen` names none twice.
pub proof fn lemma_expired_in(seen: Seq<(Endpoint, u64)>, now: u64)
    requires
        forall|i: int, j: int| 0 <= i < j < seen.len() ==> seen[i].0 != seen[j].0,
    ensures
        expired_in(seen, now).no_duplicates(),
        expired_in(seen, now).len() <= seen.len(),
        forall|a: Endpoint|
            expired_in(seen, now).contains(a) <==> exists|k: int|
                0 <= k < seen.len() && #[trigger] seen[k].0 == a && seen[k].1 <= now,
    decreases seen.len(),
{
    if seen.len() > 0 {
        let front = seen.drop_last();
        let n = seen.len() - 1;
        assert forall|i: int, j: int| 0 <= i < j < front.len() implies front[i].0 != front[j].0 by {
            assert(front[i] == seen[i] && front[j] == seen[j]);
        }
        lemma_expired_in(front, now);
        let earlier = expired_in(front, now);
        let all = expired_in(seen, now);
        assert forall|a: Endpoint|
            all.contains(a) <==> exists|k: int|
                0 <= k < seen.len() && #[trigger] seen[k].0 == a && seen[k].1 <= now by {
            if all.contains(a) {
                let p = choose|p: int| 0 <= p < all.len() && all[p] == a;
                if p < earlier.len() {
                    assert(earlier[p] == a);
                    assert(earlier.contains(a));
                    let k = choose|k: int|
                        0 <= k < front.len() && #[trigger] front[k].0 == a && front[k].1 <= now;
                    assert(seen[k].0 == a && seen[k].1 <= now);
                } else {
                    assert(seen[n].0 == a && seen[n].1 <= now);
                }
            }
            if exists|k: int| 0 <= k < seen.len() && #[trigger] seen[k].0 == a && seen[k].1 <= now {
                let k = choose|k: int|
                    0 <= k < seen.len() && #[trigger] seen[k].0 == a && seen[k].1 <= now;
                if k < n {
                    assert(front[k].0 == a && front[k].1 <= now);
                    assert(earlier.contains(a));
                    let p = choose|p: int| 0 <= p < earlier.len() && earlier[p] == a;
                    assert(all[p] == a);
                } else {
                    assert(all[earlier.len() as int] == a);
                }
            }
        }
        if seen.last().1 <= now {
            assert(!earlier.contains(seen.last().0)) by {
                if earlier.contains(seen.last().0) {
                    let k = choose|k: int|
                        0 <= k < front.len() && #[trigger] front[k].0 == seen.last().0
                            && front[k].1 <= now;
                    assert(seen[k].0 == seen[n].0);
                }
            }
        }
    }
}

/// A list without duplicates whose elements all lie in a finite set is no
/// longer than the set is large.
pub proof fn lemma_listing_fits<T>(order: Seq<T>, of: Set<T>)
    requires
        order.no_duplicates(),
        of.finite(),
        forall|x: T| order.contains(x) ==> of.contains(x),
    ensures
        order.len() <= of.len(),
{
    order.unique_seq_to_set();
    assert(order.to_set().subset_of(of)) by {
        assert forall|x: T| order.to_set().contains(x) implies of.contains(x) by {
            assert(order.contains(x));
        }
    }
    lemma_len_subset(order.to_set(), of);
}

impl Server {
    /// One sweep: every user whose deadline is not after `now` is
    /// disconnected with the reason `"Inactivity timeout"`, one after the
    /// other, in the order in which the connection table hands them out.
    pub fn routine(&mut self, now: u64) -> (effects: Vec<Effect>)
        requires
            old(self).wf(),
            old(self)@.events.next_seq + old(self)@.users.len() <= u64::MAX,
        ensures
            final(self).wf(),
            exists|order: Seq<Endpoint>|
                is_listing(order, old(self)@.expired(now)) && (final(self)@, outbox(effects@))
                    == old(self)@.sweep(order),
    {
        let seen = users_deadlines(&self.users);
        let mut to_remove: Vec<Endpoint> = Vec::new();
        let mut i: usize = 0;
        assert(seen@.take(0) =~= Seq::empty());
        while i < seen.len()
            invariant
                i <= seen@.len(),
                to_remove@ == expired_in(seen@.take(i as int), now),
            decreases seen@.len() - i,
        {
            proof {
                assert(seen@.take(i + 1).drop_last() =~= seen@.take(i as int));
                assert(seen@.take(i + 1).last() == seen@[i as int]);
            }
            if seen[i].1 <= now {
                to_remove.push(seen[i].0);
            }
            i += 1;
        }
        let ghost start = self@;
        let ghost order = to_remove@;
        proof {
            assert(seen@.take(i as int) =~= seen@);
            lemma_expired_in(seen@, now);
            assert forall|a: Endpoint| order.contains(a) <==> start.expired(now).contains(a) by {
                if order.contains(a) {
                    let k = choose|k: int|
                        0 <= k < seen@.len() && #[trigger] seen@[k].0 == a && seen@[k].1 <= now;
                    assert(start.users.contains_key(seen@[k].0));
                }
                if start.expired(now).contains(a) {
                    let k = choose|k: int| 0 <= k < seen@.len() && #[trigger] seen@[k].0 == a;
                    assert(start.users.contains_key(seen@[k].0));
                    assert(seen@[k].1 <= now);
                }
            }
            assert forall|x: Endpoint| order.contains(x) implies start.users.dom().contains(x) by {
                assert(start.expired(now).contains(x));
            }
            lemma_listing_fits(order, start.users.dom());
        }
        let mut effects: Vec<Effect> = Vec::new();
        let mut j: usize = 0;
        assert(order.take(0) =~= Seq::empty());
        assert(outbox(effects@) =~= Seq::empty());
        while j < to_remove.len()
            invariant
                j <= order.len(),
                order == to_remove@,
                start.wf(),
                start.events.next_seq + order.len() <= u64::MAX,
                self.wf(),
                (self@, outbox(effects@)) == start.sweep(order.take(j as int)),
                self@.events.next_seq <= start.events.next_seq + j,
            decreases order.len() - j,
        {
            proof {
                assert(order.take(j + 1).drop_last() =~= order.take(j as int));
                assert(order.take(j + 1).last() == order[j as int]);
                lemma_sweep_wf(start, order.take(j + 1));
            }
            let reason = inactivity_reason();
            let more = self.disconnect_user(to_remove[j], Some(reason.as_str()));
            append_effects(&mut effects, more);
            j += 1;
        }
        assert(order.take(j as int) =~= order);
        effects
    }

    /// Gives the user at `addr` a new deadline, `USER_TIMEOUT_SECS` after
    /// `now`, and returns a copy of it; returns nothing if there is no such
    /// user.
    pub fn keepalive_user_arc(&mut self, addr: Endpoint, now: u64) -> (found: Option<User>)
        requires
            old(self).wf(),
            now <= u64::MAX - USER_TIMEOUT_SECS,
        ensures
            final(self).wf(),
            final(self)@ == old(self)@.refreshed(addr, now),
            match found {
                Some(user) => old(self)@.users.contains_key(addr)
                    && user@ == final(self)@.users[addr],
                None => !old(self)@.users.contains_key(addr),
            },
    {
        proof {
            lemma_refreshed_wf(old(self)@, addr, now);
        }
        match users_remove(&mut self.users, &addr) {
            Some(user) => {
                let mut user = user;
                user.last_seen = now + USER_TIMEOUT_SECS;
                let copy = user.duplicate();
                users_insert(&mut self.users, addr, user);
                assert(self@.users =~= old(self)@.refreshed(addr, now).users);
                Some(copy)
            },
            None => {
                assert(self@.users =~= old(self)@.users);
                None
            },
        }
    }

    /// The disconnect path.  A reason, if there is one, is sent to `addr`
    /// first.  If there is a user at `addr`, it is taken out of the
    /// connection table, of its room and of the list of connected
    /// endpoints; the remaining users are told; if none remains, the log and
    /// the user ids start over; and the collaborator is told last.
    pub fn disconnect_user(&mut self, addr: Endpoint, notify_reason: Option<&str>) -> (effects: Vec<
        Effect,
    >)
        requires
            old(self).wf(),
            old(self)@.events.next_seq < u64::MAX,
        ensures
            final(self).wf(),
            (final(self)@, outbox(effects@)) == old(self)@.disconnect(
                addr,
                reason_view(notify_reason),
            ),
    {
        proof {
            lemma_disconnect_wf(old(self)@, addr, reason_view(notify_reason));
        }
        let mut effects: Vec<Effect> = Vec::new();
        match notify_reason {
            Some(reason) => {
                effects.push(Effect::Notify { to: addr, data: new_disconnect(reason) });
            },
            None => {},
        }
        let ghost notice = outbox(effects@);
        assert(notice =~= match reason_view(notify_reason) {
            Some(text) => seq![
                EffectView::Notify {
                    to: addr,
                    data: frame_bytes(
                        Frame::Disconnect { reason: text },
                    ),
                },
            ],
            None => Seq::empty(),
        });
        let user = match users_remove(&mut self.users, &addr) {
            Some(u) => u,
            None => {
                assert(self@.users =~= old(self)@.users);
                return effects;
            },
        };
        self.unseat(user.room_id, &addr, user.id);
        remove_addr(&mut self.connected_addrs, &addr);
        let recipients = copy_addrs(&self.connected_addrs);
        let ghost left = self@;
        let fanout = self.announce(
            false,
            user.room_id,
            user.id,
            user.name.as_str(),
            recipients.as_slice(),
        );
        let ghost told = self@;
        let ghost sent = outbox(fanout@);
        append_effects(&mut effects, fanout);
        if users_len(&self.users) == 0 {
            self.event_system.reset();
            self.next_user_id = 0;
        }
        let ghost released = EffectView::Released { hwid: user.hwid@ };
        effects.push(Effect::Released { hwid: user.hwid });
        assert(outbox(effects@) =~= notice + sent + seq![released]);
        effects
    }
}

} // verus!
