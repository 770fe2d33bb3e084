//! The mathematical model of the registry: what a group and a registry
//! are, when they are valid, and what each operation makes of them.
//!
//! A registry is a sequence of groups, one per registered path, in the order
//! in which the paths were first registered; a group holds its endpoints in
//! the order of their first registration.

use crate::selector::{advanced, chosen};
use crate::text::is_normal;
use vstd::prelude::*;

verus! {

/// What an endpoint is: its address and the time of its last heartbeat.
pub struct EndpointModel {
    pub address: Seq<char>,
    pub last_seen: nat,
}

/// What a service group is: its path, its members in order of arrival and
/// the position of its round-robin cursor.
pub struct GroupModel {
    pub path: Seq<char>,
    pub members: Seq<EndpointModel>,
    pub cursor: nat,
}

/// The addresses of a group's members, in the group's order.
pub open spec fn addresses(members: Seq<EndpointModel>) -> Seq<Seq<char>> {
    Seq::new(members.len(), |j: int| members[j].address)
}

/// Where the group of `path` stands, if there is one.
pub open spec fn path_position(groups: Seq<GroupModel>, path: Seq<char>) -> Option<int> {
    if exists|i: int| 0 <= i < groups.len() && (#[trigger] groups[i]).path == path {
        Some(choose|i: int| 0 <= i < groups.len() && (#[trigger] groups[i]).path == path)
    } else {
        None
    }
}

/// Where the endpoint of `address` stands among `members`, if it is there.
pub open spec fn address_position(members: Seq<EndpointModel>, address: Seq<char>) -> Option<
    int,
> {
    if exists|j: int| 0 <= j < members.len() && (#[trigger] members[j]).address == address {
        Some(choose|j: int| 0 <= j < members.len() && (#[trigger] members[j]).address == address)
    } else {
        None
    }
}

/// Whether `address` is registered under the key `path`.
pub open spec fn has_member(groups: Seq<GroupModel>, path: Seq<char>, address: Seq<char>) -> bool {
    match path_position(groups, path) {
        Some(i) => address_position(groups[i].members, address) is Some,
        None => false,
    }
}

/// No address occurs twice.
pub open spec fn distinct_addresses(members: Seq<EndpointModel>) -> bool {
    forall|j: int, k: int|
        0 <= j < k < members.len() ==> (#[trigger] members[j]).address != (
        #[trigger] members[k]).address
}

/// A group is valid when its path is in normal form, it has at least one
/// member, no address occurs twice and the cursor designates a member.
pub open spec fn group_ok(g: GroupModel) -> bool {
    &&& is_normal(g.path)
    &&& g.members.len() > 0
    &&& g.cursor < g.members.len()
    &&& distinct_addresses(g.members)
}

/// A registry is valid when each of its groups is and no path has two.
pub open spec fn well_formed(groups: Seq<GroupModel>) -> bool {
    &&& forall|i: int| 0 <= i < groups.len() ==> group_ok(#[trigger] groups[i])
    &&& forall|i: int, j: int|
        0 <= i < j < groups.len() ==> (#[trigger] groups[i]).path != (#[trigger] groups[j]).path
}

/// The group after `address` has registered or sent a heartbeat at `now`:
/// a known address keeps its place and gets the new time, a new one is
/// added at the end.
pub open spec fn refreshed(g: GroupModel, address: Seq<char>, now: nat) -> GroupModel {
    let e = EndpointModel { address, last_seen: now };
    match address_position(g.members, address) {
        Some(j) => GroupModel { members: g.members.update(j, e), ..g },
        None => GroupModel { members: g.members.push(e), ..g },
    }
}

/// The registry after `address` has registered under the key `path` at
/// `now`.
pub open spec fn registered(
    groups: Seq<GroupModel>,
    path: Seq<char>,
    address: Seq<char>,
    now: nat,
) -> Seq<GroupModel> {
    match path_position(groups, path) {
        Some(i) => groups.update(i, refreshed(groups[i], address, now)),
        None => groups.push(
            GroupModel {
                path,
                members: seq![EndpointModel { address, last_seen: now }],
                cursor: 0,
            },
        ),
    }
}

/// A cursor brought back into a group of `len` members.
pub open spec fn clamped(cursor: nat, len: nat) -> nat {
    if cursor < len {
        cursor
    } else {
        0
    }
}

/// The registry after `address` has left the key `path`: an absent path or
/// address changes nothing, and a group that loses its last member goes.
pub open spec fn unregistered(
    groups: Seq<GroupModel>,
    path: Seq<char>,
    address: Seq<char>,
) -> Seq<GroupModel> {
    match path_position(groups, path) {
        Some(i) => match address_position(groups[i].members, address) {
            Some(j) => if groups[i].members.len() == 1 {
                groups.remove(i)
            } else {
                let rest = groups[i].members.remove(j);
                groups.update(
                    i,
                    GroupModel {
                        members: rest,
                        cursor: clamped(groups[i].cursor, rest.len()),
                        ..groups[i]
                    },
                )
            },
            None => groups,
        },
        None => groups,
    }
}

/// In a registry without a repeated path, the group found under a path is
/// the one that stands there.
pub proof fn lemma_path_position(groups: Seq<GroupModel>, path: Seq<char>, i: int)
    requires
        forall|a: int, b: int|
            0 <= a < b < groups.len() ==> (#[trigger] groups[a]).path != (
            #[trigger] groups[b]).path,
        0 <= i < groups.len(),
        groups[i].path == path,
    ensures
        path_position(groups, path) == Some(i),
{
    let c = choose|c: int| 0 <= c < groups.len() && (#[trigger] groups[c]).path == path;
    if c < i {
        assert(groups[c].path != groups[i].path);
    } else if i < c {
        assert(groups[i].path != groups[c].path);
    }
}

/// Among distinct addresses, the endpoint found for an address is the one
/// that stands there.
pub proof fn lemma_address_position(members: Seq<EndpointModel>, address: Seq<char>, j: int)
    requires
        distinct_addresses(members),
        0 <= j < members.len(),
        members[j].address == address,
    ensures
        address_position(members, address) == Some(j),
{
    let c = choose|c: int| 0 <= c < members.len() && (#[trigger] members[c]).address == address;
    if c < j {
        assert(members[c].address != members[j].address);
    } else if j < c {
        assert(members[j].address != members[c].address);
    }
}

/// What a status line says: its path and its addresses.
pub struct StatusModel {
    pub path: Seq<char>,
    pub endpoints: Seq<Seq<char>>,
}

/// The status lines of a registry: one per group, in the registry's order.
pub open spec fn listing(groups: Seq<GroupModel>) -> Seq<StatusModel> {
    Seq::new(
        groups.len(),
        |i: int| StatusModel { path: groups[i].path, endpoints: addresses(groups[i].members) },
    )
}

/// The addresses registered under the key `path`, if the key is known.
pub open spec fn members_at(groups: Seq<GroupModel>, path: Seq<char>) -> Option<Seq<Seq<char>>> {
    match path_position(groups, path) {
        Some(i) => Some(addresses(groups[i].members)),
        None => None,
    }
}

/// The registry after one selection under the key `path`: the group's
/// cursor has moved on by one member, nothing else has changed.
pub open spec fn selected(groups: Seq<GroupModel>, path: Seq<char>) -> Seq<GroupModel> {
    match path_position(groups, path) {
        Some(i) => groups.update(
            i,
            GroupModel {
                cursor: advanced(groups[i].members.len(), groups[i].cursor),
                ..groups[i]
            },
        ),
        None => groups,
    }
}

/// The address that a selection under the key `path` hands out.
pub open spec fn selection_at(groups: Seq<GroupModel>, path: Seq<char>) -> Option<Seq<char>> {
    match path_position(groups, path) {
        Some(i) => Some(
            groups[i].members[chosen(groups[i].members.len(), groups[i].cursor) as int].address,
        ),
        None => None,
    }
}

} // verus!
