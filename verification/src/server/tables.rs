//! The concurrent hash maps that hold users, rooms and room members, and
//! what is taken on trust about them.
//!
//! Every function here is a thin call into `dashmap`.  The maps are only ever
//! reached through `&mut` or through a shared borrow that verified code
//! cannot write through, so each table behaves as a plain finite map.

use dashmap::DashMap;
use vstd::prelude::*;

use crate::server::model::{Endpoint, Room, RoomView, User, UserView};

verus! {

/// `dashmap::DashMap`, a hash map that is opaque to the verifier.
#[verifier::external_type_specification]
#[verifier::external_body]
#[verifier::reject_recursive_types(K)]
#[verifier::reject_recursive_types(V)]
#[verifier::reject_recursive_types(S)]
pub struct ExDashMap<K, V, S>(DashMap<K, V, S>);

/// The connection table: endpoint to user.
pub type UserTable = DashMap<Endpoint, User>;

/// The room catalog: room id to room.
pub type RoomTable = DashMap<u16, Room>;

/// A room's membership: endpoint to user id.
pub type MemberTable = DashMap<Endpoint, u64>;

/// The users that a table holds, by endpoint.
pub uninterp spec fn user_table(m: UserTable) -> Map<Endpoint, UserView>;

/// The rooms that a table holds, by room id.
pub uninterp spec fn room_table(m: RoomTable) -> Map<u16, RoomView>;

/// The members that a table holds: the user id of each endpoint.
pub uninterp spec fn member_table(m: MemberTable) -> Map<Endpoint, u64>;

/// The table holds no user.
pub open spec fn no_users(table: UserTable) -> bool {
    user_table(table) == Map::<Endpoint, UserView>::empty()
}

/// The table holds no room.
pub open spec fn no_rooms(table: RoomTable) -> bool {
    room_table(table) == Map::<u16, RoomView>::empty()
}

/// The table holds no member.
pub open spec fn no_members(table: MemberTable) -> bool {
    member_table(table) == Map::<Endpoint, u64>::empty()
}

/// `order` lists the elements of `of`, each once.
pub open spec fn is_listing<T>(order: Seq<T>, of: Set<T>) -> bool {
    &&& order.no_duplicates()
    &&& forall|x: T| order.contains(x) <==> of.contains(x)
}

/// `DashMap::new`: the new table holds nothing.
#[verifier::external_body]
pub(crate) fn users_new() -> (table: UserTable)
    ensures
        no_users(table),
{
    DashMap::new()
}

/// `DashMap::contains_key`: whether the table holds an entry for the key.
#[verifier::external_body]
pub(crate) fn users_contains(table: &UserTable, addr: &Endpoint) -> (found: bool)
    ensures
        found == user_table(*table).contains_key(*addr),
{
    table.contains_key(addr)
}

/// `DashMap::insert`: afterwards the key maps to the value, whatever it
/// mapped to before; the other entries are untouched.
#[verifier::external_body]
pub(crate) fn users_insert(table: &mut UserTable, addr: Endpoint, user: User)
    ensures
        user_table(*final(table)) == user_table(*old(table)).insert(addr, user@),
{
    table.insert(addr, user);
}

/// `DashMap::remove`: takes the key's entry out and returns its value, or
/// returns nothing and leaves the table alone where the key has no entry.
#[verifier::external_body]
pub(crate) fn users_remove(table: &mut UserTable, addr: &Endpoint) -> (taken: Option<User>)
    ensures
        user_table(*final(table)) == user_table(*old(table)).remove(*addr),
        taken is Some <==> user_table(*old(table)).contains_key(*addr),
        taken matches Some(user) ==> user@ == user_table(*old(table))[*addr],
{
    table.remove(addr).map(|entry| entry.1)
}

/// `DashMap::len`: the number of entries.
#[verifier::external_body]
pub(crate) fn users_len(table: &UserTable) -> (n: usize)
    ensures
        n == user_table(*table).len(),
{
    table.len()
}

/// `DashMap::iter`: walks every entry once, in no particular order.  Each
/// entry is handed out as its endpoint and its deadline.
#[verifier::external_body]
pub(crate) fn users_deadlines(table: &UserTable) -> (seen: Vec<(Endpoint, u64)>)
    ensures
        forall|i: int|
            0 <= i < seen@.len() ==> user_table(*table).contains_key(#[trigger] seen@[i].0)
                && user_table(*table)[seen@[i].0].last_seen == seen@[i].1,
        forall|addr: Endpoint|
            user_table(*table).contains_key(addr) ==> exists|i: int|
                0 <= i < seen@.len() && #[trigger] seen@[i].0 == addr,
        forall|i: int, j: int| 0 <= i < j < seen@.len() ==> seen@[i].0 != seen@[j].0,
{
    table.iter().map(|entry| (*entry.key(), entry.value().last_seen)).collect()
}

/// `DashMap::new`: the new table holds nothing.
#[verifier::external_body]
pub(crate) fn rooms_new() -> (table: RoomTable)
    ensures
        no_rooms(table),
{
    DashMap::new()
}

/// `DashMap::insert`: afterwards the key maps to the value, whatever it
/// mapped to before; the other entries are untouched.
#[verifier::external_body]
pub(crate) fn rooms_insert(table: &mut RoomTable, id: u16, room: Room)
    ensures
        room_table(*final(table)) == room_table(*old(table)).insert(id, room@),
{
    table.insert(id, room);
}

/// `DashMap::remove`: takes the key's entry out and returns its value, or
/// returns nothing and leaves the table alone where the key has no entry.
#[verifier::external_body]
pub(crate) fn rooms_remove(table: &mut RoomTable, id: &u16) -> (taken: Option<Room>)
    ensures
        room_table(*final(table)) == room_table(*old(table)).remove(*id),
        taken is Some <==> room_table(*old(table)).contains_key(*id),
        taken matches Some(room) ==> room@ == room_table(*old(table))[*id],
{
    table.remove(id).map(|entry| entry.1)
}

/// `DashMap::len`: the number of entries.
#[verifier::external_body]
pub(crate) fn rooms_len(table: &RoomTable) -> (n: usize)
    ensures
        n == room_table(*table).len(),
{
    table.len()
}

/// `DashMap::iter`: walks every entry once, in no particular order.  Each
/// entry is handed out as its room id.
#[verifier::external_body]
pub(crate) fn rooms_ids(table: &RoomTable) -> (ids: Vec<u16>)
    ensures
        is_listing(ids@, room_table(*table).dom()),
{
    table.iter().map(|entry| *entry.key()).collect()
}

/// `DashMap::new`: the new table holds nothing.
#[verifier::external_body]
pub(crate) fn members_new() -> (table: MemberTable)
    ensures
        no_members(table),
{
    DashMap::new()
}

/// `DashMap::insert`: afterwards the key maps to the value, whatever it
/// mapped to before; the other entries are untouched.
#[verifier::external_body]
pub(crate) fn members_insert(table: &mut MemberTable, addr: Endpoint, user_id: u64)
    ensures
        member_table(*final(table)) == member_table(*old(table)).insert(addr, user_id),
{
    table.insert(addr, user_id);
}

/// `DashMap::remove`: takes the key's entry out, or leaves the table alone
/// where the key has no entry.
#[verifier::external_body]
pub(crate) fn members_remove(table: &mut MemberTable, addr: &Endpoint)
    ensures
        member_table(*final(table)) == member_table(*old(table)).remove(*addr),
{
    table.remove(addr);
}

} // verus!
