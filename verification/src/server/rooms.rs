//! A room's three collections and the two operations that keep them in
//! step: a member comes, a member goes.

use vstd::prelude::*;

use crate::protocol::packet::tagged_names;
use crate::server::model::{Endpoint, Room, RoomView};
use crate::server::tables::{members_insert, members_remove};

verus! {

/// `s` without its element at `i`: the last element takes its place.
pub open spec fn swap_out<T>(s: Seq<T>, i: int) -> Seq<T> {
    s.update(i, s.last()).drop_last()
}

/// `i` is the first place at which `s` holds `addr`.
pub open spec fn first_addr(s: Seq<Endpoint>, addr: Endpoint, i: int) -> bool {
    &&& 0 <= i < s.len()
    &&& s[i] == addr
    &&& forall|j: int| 0 <= j < i ==> s[j] != addr
}

/// `i` is the first place at which `s` holds an entry for the user `id`.
pub open spec fn first_id(s: Seq<(u64, Seq<char>)>, id: u64, i: int) -> bool {
    &&& 0 <= i < s.len()
    &&& s[i].0 == id
    &&& forall|j: int| 0 <= j < i ==> s[j].0 != id
}

/// `s` with the first occurrence of `addr` swapped out, if there is one.
pub open spec fn without_addr(s: Seq<Endpoint>, addr: Endpoint) -> Seq<Endpoint> {
    if exists|i: int| first_addr(s, addr, i) {
        swap_out(s, choose|i: int| first_addr(s, addr, i))
    } else {
        s
    }
}

/// `s` with the first entry for the user `id` swapped out, if there is one.
pub open spec fn without_id(s: Seq<(u64, Seq<char>)>, id: u64) -> Seq<(u64, Seq<char>)> {
    if exists|i: int| first_id(s, id, i) {
        swap_out(s, choose|i: int| first_id(s, id, i))
    } else {
        s
    }
}

impl RoomView {
    /// A room of this name without members.
    pub open spec fn empty(name: Seq<char>) -> RoomView {
        RoomView {
            name,
            members: Map::empty(),
            joined_snapshot: Seq::empty(),
            addr_list: Seq::empty(),
        }
    }

    /// The room after the user came in.
    pub open spec fn with_member(self, addr: Endpoint, id: u64, name: Seq<char>) -> RoomView {
        RoomView {
            name: self.name,
            members: self.members.insert(addr, id),
            joined_snapshot: self.joined_snapshot.push((id, name)),
            addr_list: self.addr_list.push(addr),
        }
    }

    /// The room after the user went away.
    pub open spec fn without_member(self, addr: Endpoint, id: u64) -> RoomView {
        RoomView {
            name: self.name,
            members: self.members.remove(addr),
            joined_snapshot: without_id(self.joined_snapshot, id),
            addr_list: without_addr(self.addr_list, addr),
        }
    }
}

/// Where `addr` first occurs in `list`.
pub fn position_of_addr(list: &Vec<Endpoint>, addr: &Endpoint) -> (found: Option<usize>)
    ensures
        match found {
            Some(i) => first_addr(list@, *addr, i as int),
            None => forall|i: int| !first_addr(list@, *addr, i),
        },
{
    let mut i: usize = 0;
    while i < list.len()
        invariant
            i <= list@.len(),
            forall|j: int| 0 <= j < i ==> list@[j] != *addr,
        decreases list@.len() - i,
    {
        if list[i].0 == addr.0 && list[i].1 == addr.1 {
            return Some(i);
        }
        i += 1;
    }
    None
}

/// Where the user `id` first occurs in `list`.
pub fn position_of_id(list: &Vec<(u64, String)>, id: u64) -> (found: Option<usize>)
    ensures
        match found {
            Some(i) => first_id(tagged_names(list@), id, i as int),
            None => forall|i: int| !first_id(tagged_names(list@), id, i),
        },
{
    let mut i: usize = 0;
    while i < list.len()
        invariant
            i <= list@.len(),
            forall|j: int| 0 <= j < i ==> tagged_names(list@)[j].0 != id,
        decreases list@.len() - i,
    {
        if list[i].0 == id {
            return Some(i);
        }
        i += 1;
    }
    None
}

/// There is one first occurrence at most.
pub proof fn lemma_first_addr_unique(s: Seq<Endpoint>, addr: Endpoint, i: int)
    requires
        first_addr(s, addr, i),
    ensures
        (choose|k: int| first_addr(s, addr, k)) == i,
{
    let k = choose|k: int| first_addr(s, addr, k);
    assert(first_addr(s, addr, k));
    if k < i {
        assert(s[k] != addr);
    }
    if i < k {
        assert(s[i] != addr);
    }
}

/// There is one first entry at most.
pub proof fn lemma_first_id_unique(s: Seq<(u64, Seq<char>)>, id: u64, i: int)
    requires
        first_id(s, id, i),
    ensures
        (choose|k: int| first_id(s, id, k)) == i,
{
    let k = choose|k: int| first_id(s, id, k);
    assert(first_id(s, id, k));
    if k < i {
        assert(s[k].0 != id);
    }
    if i < k {
        assert(s[i].0 != id);
    }
}

/// Takes the first occurrence of `addr` out of `list`; the last element
/// takes its place.
pub fn remove_addr(list: &mut Vec<Endpoint>, addr: &Endpoint)
    ensures
        final(list)@ == without_addr(old(list)@, *addr),
{
    match position_of_addr(list, addr) {
        Some(i) => {
            proof {
                lemma_first_addr_unique(list@, *addr, i as int);
            }
            list.swap_remove(i);
        },
        None => {},
    }
}

/// Takes the first entry for the user `id` out of `list`; the last entry
/// takes its place.
pub fn remove_id(list: &mut Vec<(u64, String)>, id: u64)
    ensures
        tagged_names(final(list)@) == without_id(tagged_names(old(list)@), id),
{
    match position_of_id(list, id) {
        Some(i) => {
            proof {
                lemma_first_id_unique(tagged_names(list@), id, i as int);
            }
            list.swap_remove(i);
            assert(tagged_names(list@) =~= swap_out(tagged_names(old(list)@), i as int));
        },
        None => {},
    }
}

impl Room {
    /// The user comes in: one more member, one more entry in the snapshot
    /// and one more address to fan out to.
    pub fn seat(&mut self, addr: Endpoint, id: u64, name: String)
        ensures
            final(self)@ == old(self)@.with_member(addr, id, name@),
    {
        members_insert(&mut self.users, addr, id);
        self.joined_snapshot.push((id, name));
        self.addr_list.push(addr);
        assert(self@.joined_snapshot =~= old(self)@.joined_snapshot.push((id, name@)));
    }

    /// The user goes away, out of all three collections.
    pub fn unseat(&mut self, addr: &Endpoint, id: u64)
        ensures
            final(self)@ == old(self)@.without_member(*addr, id),
    {
        members_remove(&mut self.users, addr);
        remove_id(&mut self.joined_snapshot, id);
        remove_addr(&mut self.addr_list, addr);
    }
}

} // verus!
