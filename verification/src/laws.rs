//! What holds of the registry's operations, taken together.
//!
//! The first part says what each operation does to any one pair of a path
//! and an address; the laws of the second part follow from it.

use crate::expiry::{expired, lemma_groups_part, lemma_groups_part_at, lemma_part, part, swept};
use crate::model::{
    address_position, addresses, distinct_addresses, group_ok, has_member, lemma_address_position,
    lemma_path_position, listing, members_at, path_position, refreshed, registered, selected,
    selection_at, unregistered, well_formed, EndpointModel, GroupModel,
};
use crate::selector::{
    advanced, advanced_by, law_no_immediate_repeat, law_window_visits_every_member, pick,
};
use crate::text::is_normal;
use vstd::prelude::*;

verus! {

/// The time of the last heartbeat of `address` under the key `path`, if it
/// is registered there.
pub open spec fn last_seen_at(groups: Seq<GroupModel>, path: Seq<char>, address: Seq<char>) -> Option<
    nat,
> {
    match path_position(groups, path) {
        Some(i) => match address_position(groups[i].members, address) {
            Some(j) => Some(groups[i].members[j].last_seen),
            None => None,
        },
        None => None,
    }
}

/// One change that an endpoint asks for under a path.
pub enum Change {
    Register { address: Seq<char>, now: nat },
    Unregister { address: Seq<char> },
}

/// The address that a change is about.
pub open spec fn subject(change: Change) -> Seq<char> {
    match change {
        Change::Register { address, .. } => address,
        Change::Unregister { address } => address,
    }
}

/// The registry after a change under the key `path`.
pub open spec fn applied(groups: Seq<GroupModel>, path: Seq<char>, change: Change) -> Seq<GroupModel> {
    match change {
        Change::Register { address, now } => registered(groups, path, address, now),
        Change::Unregister { address } => unregistered(groups, path, address),
    }
}

/// Groups that agree on their paths, place by place, are found under the
/// same paths.
pub proof fn lemma_same_paths(g: Seq<GroupModel>, r: Seq<GroupModel>, path: Seq<char>)
    requires
        g.len() == r.len(),
        forall|x: int| 0 <= x < g.len() ==> (#[trigger] g[x]).path == r[x].path,
        forall|a: int, b: int| 0 <= a < b < g.len() ==> (#[trigger] g[a]).path != (#[trigger] g[b]).path,
    ensures
        path_position(r, path) == path_position(g, path),
{
    if path_position(g, path) is Some {
        let x = path_position(g, path)->0;
        assert(g[x].path == r[x].path);
        assert forall|a: int, b: int| 0 <= a < b < r.len() implies (#[trigger] r[a]).path != (
        #[trigger] r[b]).path by {
            assert(g[a].path != g[b].path);
        }
        lemma_path_position(r, path, x);
    } else if path_position(r, path) is Some {
        let c = path_position(r, path)->0;
        assert(g[c].path == r[c].path);
    }
}

/// Members that agree on their addresses, place by place, are found under
/// the same addresses.
pub proof fn lemma_same_addresses(m: Seq<EndpointModel>, n: Seq<EndpointModel>, address: Seq<char>)
    requires
        m.len() == n.len(),
        forall|x: int| 0 <= x < m.len() ==> (#[trigger] m[x]).address == n[x].address,
        distinct_addresses(m),
    ensures
        address_position(n, address) == address_position(m, address),
        distinct_addresses(n),
{
    assert forall|a: int, b: int| 0 <= a < b < n.len() implies (#[trigger] n[a]).address != (
    #[trigger] n[b]).address by {
        assert(m[a].address != m[b].address);
    }
    if address_position(m, address) is Some {
        let x = address_position(m, address)->0;
        assert(m[x].address == n[x].address);
        lemma_address_position(n, address, x);
    } else if address_position(n, address) is Some {
        let c = address_position(n, address)->0;
        assert(m[c].address == n[c].address);
    }
}

/// A registration keeps a group valid and touches the heartbeat of its own
/// address only.
pub proof fn lemma_refreshed(g: GroupModel, address: Seq<char>, now: nat, other: Seq<char>)
    requires
        group_ok(g),
    ensures
        group_ok(refreshed(g, address, now)),
        refreshed(g, address, now).path == g.path,
        match address_position(refreshed(g, address, now).members, other) {
            Some(j) => if other == address {
                refreshed(g, address, now).members[j].last_seen == now
            } else {
                match address_position(g.members, other) {
                    Some(k) => refreshed(g, address, now).members[j].last_seen
                        == g.members[k].last_seen,
                    None => false,
                }
            },
            None => other != address && address_position(g.members, other) is None,
        },
{
    let e = EndpointModel { address, last_seen: now };
    let r = refreshed(g, address, now);
    match address_position(g.members, address) {
        Some(j) => {
            assert(0 <= j < g.members.len() && g.members[j].address == address);
            assert(r.members == g.members.update(j, e));
            lemma_same_addresses(g.members, r.members, other);
            if other == address {
                assert(address_position(r.members, other) == Some(j));
            } else if address_position(g.members, other) is Some {
                let k = address_position(g.members, other)->0;
                assert(g.members[k].address == other);
                assert(k != j);
            }
        },
        None => {
            assert(r.members == g.members.push(e));
            let last = g.members.len() as int;
            assert forall|a: int, b: int| 0 <= a < b < r.members.len() implies (
            #[trigger] r.members[a]).address != (#[trigger] r.members[b]).address by {
                if b < last {
                    assert(g.members[a].address != g.members[b].address);
                } else {
                    assert(g.members[a].address != address);
                }
            }
            if other == address {
                lemma_address_position(r.members, other, last);
            } else if address_position(g.members, other) is Some {
                let k = address_position(g.members, other)->0;
                assert(g.members[k].address == other);
                assert(r.members[k] == g.members[k]);
                lemma_address_position(r.members, other, k);
            } else if address_position(r.members, other) is Some {
                let c = address_position(r.members, other)->0;
                assert(r.members[c].address == other);
                assert(c < last);
                assert(g.members[c].address == other);
            }
        },
    }
}

/// A registration leaves a valid registry valid, sets the heartbeat of its
/// own pair and leaves every other pair as it was.
pub proof fn lemma_registered_at(
    groups: Seq<GroupModel>,
    path: Seq<char>,
    address: Seq<char>,
    now: nat,
    other_path: Seq<char>,
    other: Seq<char>,
)
    requires
        well_formed(groups),
        is_normal(path),
    ensures
        well_formed(registered(groups, path, address, now)),
        last_seen_at(registered(groups, path, address, now), other_path, other) == if other_path
            == path && other == address {
            Some(now)
        } else {
            last_seen_at(groups, other_path, other)
        },
{
    let r = registered(groups, path, address, now);
    let e = EndpointModel { address, last_seen: now };
    match path_position(groups, path) {
        Some(i) => {
            assert(0 <= i < groups.len() && groups[i].path == path);
            assert(group_ok(groups[i]));
            lemma_refreshed(groups[i], address, now, other);
            assert(r == groups.update(i, refreshed(groups[i], address, now)));
            assert forall|x: int| 0 <= x < groups.len() implies (#[trigger] groups[x]).path
                == r[x].path by {}
            lemma_same_paths(groups, r, other_path);
            assert forall|x: int| 0 <= x < r.len() implies group_ok(#[trigger] r[x]) by {
                if x != i {
                    assert(r[x] == groups[x]);
                }
            }
            assert forall|a: int, b: int| 0 <= a < b < r.len() implies (#[trigger] r[a]).path != (
            #[trigger] r[b]).path by {
                assert(groups[a].path != groups[b].path);
            }
            if path_position(groups, other_path) is Some {
                let x = path_position(groups, other_path)->0;
                assert(0 <= x < groups.len() && groups[x].path == other_path);
                if other_path != path {
                    assert(x != i);
                    assert(r[x] == groups[x]);
                } else {
                    lemma_path_position(groups, path, x);
                    assert(x == i);
                }
            }
        },
        None => {
            let fresh = GroupModel { path, members: seq![e], cursor: 0 };
            let last = groups.len() as int;
            assert(r == groups.push(fresh));
            assert(group_ok(fresh));
            assert forall|x: int| 0 <= x < r.len() implies group_ok(#[trigger] r[x]) by {
                if x < last {
                    assert(r[x] == groups[x]);
                }
            }
            assert forall|a: int, b: int| 0 <= a < b < r.len() implies (#[trigger] r[a]).path != (
            #[trigger] r[b]).path by {
                if b < last {
                    assert(groups[a].path != groups[b].path);
                } else {
                    assert(groups[a].path != path);
                }
            }
            if other_path == path {
                lemma_path_position(r, path, last);
                if other == address {
                    lemma_address_position(fresh.members, address, 0);
                } else if address_position(fresh.members, other) is Some {
                    let c = address_position(fresh.members, other)->0;
                    assert(fresh.members[c].address == other);
                }
            } else if path_position(groups, other_path) is Some {
                let x = path_position(groups, other_path)->0;
                assert(groups[x].path == other_path);
                assert(r[x] == groups[x]);
                lemma_path_position(r, other_path, x);
            } else if path_position(r, other_path) is Some {
                let c = path_position(r, other_path)->0;
                assert(r[c].path == other_path);
                assert(c < last);
                assert(groups[c].path == other_path);
            }
        },
    }
}

/// Without one of its members, a run of distinct addresses holds every
/// other member as before, and that one no more.
pub proof fn lemma_member_removed(m: Seq<EndpointModel>, j: int, other: Seq<char>)
    requires
        distinct_addresses(m),
        0 <= j < m.len(),
    ensures
        distinct_addresses(m.remove(j)),
        match address_position(m.remove(j), other) {
            Some(k) => other != m[j].address && match address_position(m, other) {
                Some(x) => m.remove(j)[k] == m[x],
                None => false,
            },
            None => other == m[j].address || address_position(m, other) is None,
        },
{
    let r = m.remove(j);
    assert forall|a: int, b: int| 0 <= a < b < r.len() implies (#[trigger] r[a]).address != (
    #[trigger] r[b]).address by {
        let a0 = if a < j { a } else { a + 1 };
        let b0 = if b < j { b } else { b + 1 };
        assert(m[a0].address != m[b0].address);
    }
    if address_position(r, other) is Some {
        let k = address_position(r, other)->0;
        assert(r[k].address == other);
        let x = if k < j { k } else { k + 1 };
        assert(m[x] == r[k]);
        lemma_address_position(m, other, x);
        if other == m[j].address {
            lemma_address_position(m, other, j);
        }
    } else if address_position(m, other) is Some && other != m[j].address {
        let x = address_position(m, other)->0;
        assert(m[x].address == other);
        let k = if x < j { x } else { x - 1 };
        assert(r[k] == m[x]);
    }
}

/// Without one of its groups, a valid registry holds every other group as
/// before, and that one no more.
pub proof fn lemma_group_removed(g: Seq<GroupModel>, i: int, other_path: Seq<char>)
    requires
        well_formed(g),
        0 <= i < g.len(),
    ensures
        well_formed(g.remove(i)),
        match path_position(g.remove(i), other_path) {
            Some(k) => other_path != g[i].path && match path_position(g, other_path) {
                Some(x) => g.remove(i)[k] == g[x],
                None => false,
            },
            None => other_path == g[i].path || path_position(g, other_path) is None,
        },
{
    let r = g.remove(i);
    assert forall|x: int| 0 <= x < r.len() implies group_ok(#[trigger] r[x]) by {
        let x0 = if x < i { x } else { x + 1 };
        assert(r[x] == g[x0]);
    }
    assert forall|a: int, b: int| 0 <= a < b < r.len() implies (#[trigger] r[a]).path != (
    #[trigger] r[b]).path by {
        let a0 = if a < i { a } else { a + 1 };
        let b0 = if b < i { b } else { b + 1 };
        assert(g[a0].path != g[b0].path);
    }
    if path_position(r, other_path) is Some {
        let k = path_position(r, other_path)->0;
        assert(r[k].path == other_path);
        let x = if k < i { k } else { k + 1 };
        assert(g[x] == r[k]);
        lemma_path_position(g, other_path, x);
        if other_path == g[i].path {
            lemma_path_position(g, other_path, i);
        }
    } else if path_position(g, other_path) is Some && other_path != g[i].path {
        let x = path_position(g, other_path)->0;
        assert(g[x].path == other_path);
        let k = if x < i { x } else { x - 1 };
        assert(r[k] == g[x]);
    }
}

/// An unregistration leaves a valid registry valid, removes its own pair
/// and leaves every other pair as it was.
pub proof fn lemma_unregistered_at(
    groups: Seq<GroupModel>,
    path: Seq<char>,
    address: Seq<char>,
    other_path: Seq<char>,
    other: Seq<char>,
)
    requires
        well_formed(groups),
    ensures
        well_formed(unregistered(groups, path, address)),
        last_seen_at(unregistered(groups, path, address), other_path, other) == if other_path
            == path && other == address {
            None
        } else {
            last_seen_at(groups, other_path, other)
        },
{
    let u = unregistered(groups, path, address);
    if path_position(groups, path) is Some {
        let i = path_position(groups, path)->0;
        assert(0 <= i < groups.len() && groups[i].path == path);
        assert(group_ok(groups[i]));
        let members = groups[i].members;
        if address_position(members, address) is Some {
            let j = address_position(members, address)->0;
            assert(0 <= j < members.len() && members[j].address == address);
            if members.len() == 1 {
                assert(u == groups.remove(i));
                lemma_group_removed(groups, i, other_path);
                if other_path == path && other != address {
                    if address_position(members, other) is Some {
                        let k = address_position(members, other)->0;
                        assert(members[k].address == other);
                    }
                }
            } else {
                let rest = members.remove(j);
                let cut = GroupModel {
                    members: rest,
                    cursor: crate::model::clamped(groups[i].cursor, rest.len()),
                    ..groups[i]
                };
                assert(u == groups.update(i, cut));
                lemma_member_removed(members, j, other);
                assert(group_ok(cut));
                assert forall|x: int| 0 <= x < groups.len() implies (#[trigger] groups[x]).path
                    == u[x].path by {}
                lemma_same_paths(groups, u, other_path);
                assert forall|x: int| 0 <= x < u.len() implies group_ok(#[trigger] u[x]) by {
                    if x != i {
                        assert(u[x] == groups[x]);
                    }
                }
                assert forall|a: int, b: int| 0 <= a < b < u.len() implies (#[trigger] u[a]).path != (
                #[trigger] u[b]).path by {
                    assert(groups[a].path != groups[b].path);
                }
                if path_position(groups, other_path) is Some {
                    let x = path_position(groups, other_path)->0;
                    assert(0 <= x < groups.len() && groups[x].path == other_path);
                    if other_path != path {
                        assert(x != i);
                        assert(u[x] == groups[x]);
                    } else {
                        assert(x == i);
                    }
                }
            }
        }
    }
}

/// A part of distinct members holds an address exactly when the address
/// was there on that side of the expiry test, with its old heartbeat.
pub proof fn lemma_part_at(
    members: Seq<EndpointModel>,
    now: nat,
    ttl: nat,
    dead: bool,
    address: Seq<char>,
)
    requires
        distinct_addresses(members),
    ensures
        distinct_addresses(part(members, now, ttl, dead)),
        match address_position(part(members, now, ttl, dead), address) {
            Some(k) => match address_position(members, address) {
                Some(j) => part(members, now, ttl, dead)[k] == members[j] && expired(
                    members[j],
                    now,
                    ttl,
                ) == dead,
                None => false,
            },
            None => match address_position(members, address) {
                Some(j) => expired(members[j], now, ttl) != dead,
                None => true,
            },
        },
{
    let p = part(members, now, ttl, dead);
    lemma_part(members, now, ttl, dead);
    if address_position(p, address) is Some {
        let k = address_position(p, address)->0;
        assert(0 <= k < p.len() && p[k].address == address);
        assert(members.contains(p[k]));
        let j = choose|j: int| 0 <= j < members.len() && members[j] == p[k];
        lemma_address_position(members, address, j);
    } else if address_position(members, address) is Some {
        let j = address_position(members, address)->0;
        assert(0 <= j < members.len() && members[j].address == address);
        if expired(members[j], now, ttl) == dead {
            assert(p.contains(members[j]));
            let k = choose|k: int| 0 <= k < p.len() && p[k] == members[j];
            assert(p[k].address == address);
        }
    }
}

/// A sweep leaves a valid registry valid, removes the pairs whose
/// heartbeat is older than `ttl` and leaves every other pair as it was.
pub proof fn lemma_swept_at(
    groups: Seq<GroupModel>,
    now: nat,
    ttl: nat,
    path: Seq<char>,
    address: Seq<char>,
)
    requires
        well_formed(groups),
    ensures
        well_formed(swept(groups, now, ttl)),
        last_seen_at(swept(groups, now, ttl), path, address) == match last_seen_at(
            groups,
            path,
            address,
        ) {
            Some(seen) => if now - seen > ttl {
                None
            } else {
                Some(seen)
            },
            None => None,
        },
{
    lemma_groups_part(groups, now, ttl, false);
    lemma_groups_part_at(groups, now, ttl, false, path);
    if path_position(groups, path) is Some {
        let i = path_position(groups, path)->0;
        assert(0 <= i < groups.len() && groups[i].path == path);
        assert(group_ok(groups[i]));
        lemma_part_at(groups[i].members, now, ttl, false, address);
        let rest = part(groups[i].members, now, ttl, false);
        if rest.len() == 0 {
            if address_position(rest, address) is Some {
                let k = address_position(rest, address)->0;
                assert(0 <= k < rest.len());
            }
        }
    }
}

/// An address is registered under a path exactly when the path's members
/// list it.
pub proof fn lemma_member_listed(groups: Seq<GroupModel>, path: Seq<char>, address: Seq<char>)
    ensures
        has_member(groups, path, address) <==> last_seen_at(groups, path, address) is Some,
        has_member(groups, path, address) <==> match members_at(groups, path) {
            Some(found) => found.contains(address),
            None => false,
        },
{
    if path_position(groups, path) is Some {
        let i = path_position(groups, path)->0;
        let members = groups[i].members;
        let found = addresses(members);
        if address_position(members, address) is Some {
            let j = address_position(members, address)->0;
            assert(0 <= j < members.len() && members[j].address == address);
            assert(found[j] == address);
        } else if found.contains(address) {
            let j = choose|j: int| 0 <= j < found.len() && found[j] == address;
            assert(members[j].address == address);
        }
    }
}

/// What a change does to any pair: a registration sets the heartbeat of
/// its own pair, an unregistration removes its own pair, and neither
/// touches another.
pub proof fn lemma_applied_at(
    groups: Seq<GroupModel>,
    path: Seq<char>,
    change: Change,
    other_path: Seq<char>,
    other: Seq<char>,
)
    requires
        well_formed(groups),
        is_normal(path),
    ensures
        well_formed(applied(groups, path, change)),
        last_seen_at(applied(groups, path, change), other_path, other) == if other_path == path
            && other == subject(change) {
            match change {
                Change::Register { now, .. } => Some(now),
                Change::Unregister { .. } => None,
            }
        } else {
            last_seen_at(groups, other_path, other)
        },
{
    match change {
        Change::Register { address, now } => {
            lemma_registered_at(groups, path, address, now, other_path, other);
        },
        Change::Unregister { address } => {
            lemma_unregistered_at(groups, path, address, other_path, other);
        },
    }
}

/// Registration is idempotent. After one registration the pair is there,
/// so that a second one reports an endpoint that is not new; the second
/// leaves the path's addresses as the first left them, and the address
/// stands among them exactly once.
pub proof fn law_registration_is_idempotent(
    groups: Seq<GroupModel>,
    path: Seq<char>,
    address: Seq<char>,
    first: nat,
    second: nat,
)
    requires
        well_formed(groups),
        is_normal(path),
    ensures
        has_member(registered(groups, path, address, first), path, address),
        well_formed(registered(registered(groups, path, address, first), path, address, second)),
        members_at(registered(registered(groups, path, address, first), path, address, second), path)
            == members_at(registered(groups, path, address, first), path),
        match members_at(registered(groups, path, address, first), path) {
            Some(found) => found.contains(address) && found.no_duplicates(),
            None => false,
        },
{
    let once = registered(groups, path, address, first);
    let twice = registered(once, path, address, second);
    lemma_registered_at(groups, path, address, first, path, address);
    lemma_registered_at(once, path, address, second, path, address);
    lemma_member_listed(once, path, address);
    let i = path_position(once, path)->0;
    assert(0 <= i < once.len() && once[i].path == path);
    assert(group_ok(once[i]));
    let members = once[i].members;
    let j = address_position(members, address)->0;
    assert(0 <= j < members.len() && members[j].address == address);
    let e = EndpointModel { address, last_seen: second };
    assert(twice == once.update(i, GroupModel { members: members.update(j, e), ..once[i] }));
    assert forall|x: int| 0 <= x < once.len() implies (#[trigger] once[x]).path == twice[x].path by {}
    lemma_same_paths(once, twice, path);
    assert(addresses(members.update(j, e)) =~= addresses(members));
    let found = addresses(members);
    assert forall|a: int, b: int| 0 <= a < found.len() && 0 <= b < found.len() && a != b implies found[a]
        != found[b] by {
        if a < b {
            assert(members[a].address != members[b].address);
        } else {
            assert(members[b].address != members[a].address);
        }
    }
}

/// Unregistering a pair that is not registered changes nothing.
pub proof fn law_unregister_absent_changes_nothing(
    groups: Seq<GroupModel>,
    path: Seq<char>,
    address: Seq<char>,
)
    requires
        !has_member(groups, path, address),
    ensures
        unregistered(groups, path, address) == groups,
{
}

/// Unregistration is idempotent and local: the pair is gone afterwards, a
/// second unregistration changes nothing more, and every other pair is as
/// it was before.
pub proof fn law_unregister_is_idempotent_and_local(
    groups: Seq<GroupModel>,
    path: Seq<char>,
    address: Seq<char>,
    other_path: Seq<char>,
    other: Seq<char>,
)
    requires
        well_formed(groups),
    ensures
        well_formed(unregistered(groups, path, address)),
        !has_member(unregistered(groups, path, address), path, address),
        unregistered(unregistered(groups, path, address), path, address) == unregistered(
            groups,
            path,
            address,
        ),
        !(other_path == path && other == address) ==> last_seen_at(
            unregistered(groups, path, address),
            other_path,
            other,
        ) == last_seen_at(groups, other_path, other),
{
    lemma_unregistered_at(groups, path, address, path, address);
    lemma_unregistered_at(groups, path, address, other_path, other);
    lemma_member_listed(unregistered(groups, path, address), path, address);
}

/// Expiry. An endpoint is listed right after its registration; a sweep
/// that runs when its heartbeat is older than `ttl` removes it, and a sweep
/// that runs before then keeps it.
pub proof fn law_silent_endpoint_expires(
    groups: Seq<GroupModel>,
    path: Seq<char>,
    address: Seq<char>,
    seen: nat,
    now: nat,
    ttl: nat,
)
    requires
        well_formed(groups),
        is_normal(path),
    ensures
        has_member(registered(groups, path, address, seen), path, address),
        has_member(swept(registered(groups, path, address, seen), now, ttl), path, address) <==> now
            - seen <= ttl,
        now - seen > ttl ==> match members_at(
            swept(registered(groups, path, address, seen), now, ttl),
            path,
        ) {
            Some(found) => !found.contains(address),
            None => true,
        },
{
    let once = registered(groups, path, address, seen);
    lemma_registered_at(groups, path, address, seen, path, address);
    lemma_swept_at(once, now, ttl, path, address);
    lemma_member_listed(once, path, address);
    lemma_member_listed(swept(once, now, ttl), path, address);
}

/// Two changes under one path that are about different addresses commute:
/// whichever is applied first, every pair ends with the same heartbeat or
/// the same absence, so that no order of the two loses an update.
pub proof fn law_changes_to_distinct_addresses_commute(
    groups: Seq<GroupModel>,
    path: Seq<char>,
    one: Change,
    two: Change,
    other_path: Seq<char>,
    other: Seq<char>,
)
    requires
        well_formed(groups),
        is_normal(path),
        subject(one) != subject(two),
    ensures
        last_seen_at(applied(applied(groups, path, one), path, two), other_path, other)
            == last_seen_at(applied(applied(groups, path, two), path, one), other_path, other),
        has_member(applied(applied(groups, path, one), path, two), other_path, other) == has_member(
            applied(applied(groups, path, two), path, one),
            other_path,
            other,
        ),
{
    lemma_applied_at(groups, path, one, other_path, other);
    lemma_applied_at(groups, path, two, other_path, other);
    lemma_applied_at(applied(groups, path, one), path, two, other_path, other);
    lemma_applied_at(applied(groups, path, two), path, one, other_path, other);
    lemma_member_listed(applied(applied(groups, path, one), path, two), other_path, other);
    lemma_member_listed(applied(applied(groups, path, two), path, one), other_path, other);
}

/// The status listing is exact: a path is listed if and only if it has
/// members, each line holds the path's members, and no line is empty.
pub proof fn law_listing_is_exact(groups: Seq<GroupModel>, path: Seq<char>)
    requires
        well_formed(groups),
    ensures
        listing(groups).len() == groups.len(),
        (exists|i: int| 0 <= i < listing(groups).len() && (#[trigger] listing(groups)[i]).path == path)
            <==> members_at(groups, path) is Some,
        forall|i: int|
            0 <= i < listing(groups).len() ==> (#[trigger] listing(groups)[i]).endpoints.len() > 0
                && members_at(groups, listing(groups)[i].path) == Some(
                listing(groups)[i].endpoints,
            ),
{
    let lines = listing(groups);
    if exists|i: int| 0 <= i < lines.len() && (#[trigger] lines[i]).path == path {
        let i = choose|i: int| 0 <= i < lines.len() && (#[trigger] lines[i]).path == path;
        lemma_path_position(groups, path, i);
    }
    if members_at(groups, path) is Some {
        let i = path_position(groups, path)->0;
        assert(lines[i].path == path);
    }
    assert forall|i: int| 0 <= i < lines.len() implies (#[trigger] lines[i]).endpoints.len() > 0
        && members_at(groups, lines[i].path) == Some(lines[i].endpoints) by {
        assert(group_ok(groups[i]));
        lemma_path_position(groups, lines[i].path, i);
    }
}

/// The registry after `k` successive selections under the key `path`.
pub open spec fn selected_times(groups: Seq<GroupModel>, path: Seq<char>, k: nat) -> Seq<GroupModel>
    decreases k,
{
    if k == 0 {
        groups
    } else {
        selected(selected_times(groups, path, (k - 1) as nat), path)
    }
}

/// Selections move the cursor of their own group and nothing else: after
/// `k` of them the group has its old members, and the next one hands out
/// the member that the round-robin order gives for position `k`.
pub proof fn lemma_selected_times(groups: Seq<GroupModel>, path: Seq<char>, k: nat)
    requires
        well_formed(groups),
        path_position(groups, path) is Some,
    ensures
        well_formed(selected_times(groups, path, k)),
        selected_times(groups, path, k).len() == groups.len(),
        path_position(selected_times(groups, path, k), path) == path_position(groups, path),
        forall|x: int|
            0 <= x < groups.len() ==> (#[trigger] selected_times(groups, path, k)[x]).path
                == groups[x].path && selected_times(groups, path, k)[x].members
                == groups[x].members,
        ({
            let i = path_position(groups, path)->0;
            let n = groups[i].members.len();
            &&& selected_times(groups, path, k)[i].cursor == advanced_by(n, groups[i].cursor, k)
            &&& pick(n, groups[i].cursor, k) < n
            &&& selection_at(selected_times(groups, path, k), path) == Some(
                groups[i].members[pick(n, groups[i].cursor, k) as int].address,
            )
        }),
    decreases k,
{
    let i = path_position(groups, path)->0;
    assert(0 <= i < groups.len() && groups[i].path == path);
    assert(group_ok(groups[i]));
    let n = groups[i].members.len();
    let now = selected_times(groups, path, k);
    if k > 0 {
        let before = selected_times(groups, path, (k - 1) as nat);
        lemma_selected_times(groups, path, (k - 1) as nat);
        assert(group_ok(before[i]));
        let moved = GroupModel { cursor: advanced(n, before[i].cursor), ..before[i] };
        assert(now == before.update(i, moved));
        vstd::arithmetic::div_mod::lemma_mod_bound(before[i].cursor as int + 1, n as int);
        vstd::arithmetic::div_mod::lemma_small_mod(before[i].cursor, n);
        assert(group_ok(moved));
        assert forall|x: int| 0 <= x < now.len() implies group_ok(#[trigger] now[x]) by {
            if x != i {
                assert(now[x] == before[x]);
            }
        }
        assert forall|a: int, b: int| 0 <= a < b < now.len() implies (#[trigger] now[a]).path != (
        #[trigger] now[b]).path by {
            assert(before[a].path != before[b].path);
        }
        assert forall|x: int| 0 <= x < before.len() implies (#[trigger] before[x]).path
            == now[x].path by {}
        lemma_same_paths(before, now, path);
    }
    assert(group_ok(now[i]));
    vstd::arithmetic::div_mod::lemma_small_mod(now[i].cursor, n);
}

/// Fairness of selection. In any window of as many consecutive selections
/// as the group has members, on a registry that is otherwise left alone,
/// every registered address is handed out at some position of the window.
pub proof fn law_selection_visits_every_member(
    groups: Seq<GroupModel>,
    path: Seq<char>,
    address: Seq<char>,
    start: nat,
)
    requires
        well_formed(groups),
        has_member(groups, path, address),
    ensures
        exists|k: nat|
            start <= k < start + groups[path_position(groups, path)->0].members.len()
                && selection_at(#[trigger] selected_times(groups, path, k), path) == Some(address),
{
    let i = path_position(groups, path)->0;
    let members = groups[i].members;
    let n = members.len();
    let j = address_position(members, address)->0;
    assert(0 <= j < n && members[j].address == address);
    law_window_visits_every_member(n, groups[i].cursor, start, j as nat);
    let k = choose|k: nat| start <= k < start + n && pick(n, groups[i].cursor, k) == j as nat;
    lemma_selected_times(groups, path, k);
    assert(selection_at(selected_times(groups, path, k), path) == Some(address));
}

/// In a group of at least two members, on a registry that is otherwise left
/// alone, two selections in immediate succession never hand out the same
/// address.
pub proof fn law_selection_never_repeats_at_once(groups: Seq<GroupModel>, path: Seq<char>, k: nat)
    requires
        well_formed(groups),
        match path_position(groups, path) {
            Some(i) => groups[i].members.len() >= 2,
            None => false,
        },
    ensures
        selection_at(selected_times(groups, path, k), path) is Some,
        selection_at(selected_times(groups, path, k), path) != selection_at(
            selected_times(groups, path, k + 1),
            path,
        ),
{
    let i = path_position(groups, path)->0;
    assert(0 <= i < groups.len());
    assert(group_ok(groups[i]));
    let members = groups[i].members;
    let n = members.len();
    lemma_selected_times(groups, path, k);
    lemma_selected_times(groups, path, k + 1);
    law_no_immediate_repeat(n, groups[i].cursor, k);
    let a = pick(n, groups[i].cursor, k) as int;
    let b = pick(n, groups[i].cursor, k + 1) as int;
    if a < b {
        assert(members[a].address != members[b].address);
    } else {
        assert(members[b].address != members[a].address);
    }
}

} // verus!
