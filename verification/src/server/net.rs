//! What the engine asks its surroundings to do.  The engine performs no
//! I/O: each handler returns the datagrams to send and the collaborators to
//! call, in order.

use vstd::prelude::*;
use vstd::slice::slice_to_vec;

use crate::server::model::{Endpoint, Server};
use crate::server::steps::except_addr;

verus! {

/// One thing for the surroundings to do.
#[derive(Debug, PartialEq, Eq)]
pub enum Effect {
    /// Send one datagram; a failure is ignored.
    Send { to: Endpoint, data: Vec<u8> },
    /// Send the same datagram to each recipient, in the order of the list;
    /// failures are ignored.
    Fanout { recipients: Vec<Endpoint>, data: Vec<u8> },
    /// Send a disconnect notice, giving up after a short wait.
    Notify { to: Endpoint, data: Vec<u8> },
    /// Ask whether this hardware identifier may join, and hand the answer
    /// to `Server::complete_join` together with these values.
    Authorize { addr: Endpoint, name: String, hwid: String, room_id: u16 },
    /// Tell the collaborator that the user with this hardware identifier is
    /// gone.
    Released { hwid: String },
}

/// An effect as plain values.
pub enum EffectView {
    Send { to: Endpoint, data: Seq<u8> },
    Fanout { recipients: Seq<Endpoint>, data: Seq<u8> },
    Notify { to: Endpoint, data: Seq<u8> },
    Authorize { addr: Endpoint, name: Seq<char>, hwid: Seq<char>, room_id: u16 },
    Released { hwid: Seq<char> },
}

impl View for Effect {
    type V = EffectView;

    open spec fn view(&self) -> EffectView {
        match *self {
            Effect::Send { to, data } => EffectView::Send { to, data: data@ },
            Effect::Fanout { recipients, data } => EffectView::Fanout {
                recipients: recipients@,
                data: data@,
            },
            Effect::Notify { to, data } => EffectView::Notify { to, data: data@ },
            Effect::Authorize { addr, name, hwid, room_id } => EffectView::Authorize {
                addr,
                name: name@,
                hwid: hwid@,
                room_id,
            },
            Effect::Released { hwid } => EffectView::Released { hwid: hwid@ },
        }
    }
}

/// A list of effects as plain values.
pub open spec fn outbox(effects: Seq<Effect>) -> Seq<EffectView> {
    Seq::new(effects.len(), |i: int| effects[i]@)
}

/// Appends the effects of `more` to `effects`.
pub fn append_effects(effects: &mut Vec<Effect>, more: Vec<Effect>)
    ensures
        outbox(final(effects)@) == outbox(old(effects)@) + outbox(more@),
{
    let ghost added = more@;
    let mut more = more;
    effects.append(&mut more);
    assert(outbox(effects@) =~= outbox(old(effects)@) + outbox(added));
}

/// The endpoints of `list` other than `skip`, in the same order.
pub fn others(list: &Vec<Endpoint>, skip: &Endpoint) -> (kept: Vec<Endpoint>)
    ensures
        kept@ == except_addr(list@, *skip),
{
    let mut kept: Vec<Endpoint> = Vec::new();
    let mut i: usize = 0;
    assert(list@.take(0) =~= Seq::empty());
    while i < list.len()
        invariant
            i <= list@.len(),
            kept@ == except_addr(list@.take(i as int), *skip),
        decreases list@.len() - i,
    {
        proof {
            assert(list@.take(i + 1).drop_last() =~= list@.take(i as int));
            assert(list@.take(i + 1).last() == list@[i as int]);
        }
        if list[i].0 != skip.0 || list[i].1 != skip.1 {
            kept.push(list[i]);
        }
        i += 1;
    }
    assert(list@.take(i as int) =~= list@);
    kept
}

impl Server {
    /// One datagram for each of `addrs`, in their order.
    pub fn batch_send(&self, buf: &[u8], addrs: &[Endpoint]) -> (effect: Effect)
        ensures
            effect@ == (EffectView::Fanout { recipients: addrs@, data: buf@ }),
    {
        Effect::Fanout { recipients: slice_to_vec(addrs), data: slice_to_vec(buf) }
    }

    /// One datagram for each member of the room, but for `except`, in the
    /// order of the room's address list; nothing if there is no such room.
    pub fn batch_send_room(
        &mut self,
        buf: &[u8],
        room_id: u16,
        except: Option<Endpoint>,
    ) -> (effects: Vec<Effect>)
        ensures
            final(self)@ == old(self)@,
            outbox(effects@) == old(self)@.room_fanout(buf@, room_id, except),
    {
        let mut effects: Vec<Effect> = Vec::new();
        let addrs = match self.room_addrs(room_id) {
            Some(list) => list,
            None => {
                assert(outbox(effects@) =~= Seq::empty());
                return effects;
            },
        };
        let recipients = match except {
            Some(skip) => others(&addrs, &skip),
            None => addrs,
        };
        effects.push(Effect::Fanout { recipients, data: slice_to_vec(buf) });
        assert(outbox(effects@) =~= old(self)@.room_fanout(buf@, room_id, except));
        effects
    }
}

} // verus!
