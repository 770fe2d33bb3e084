//! Heartbeat expiry: which endpoints a sweep removes and which it keeps.

use crate::model::{
    clamped, distinct_addresses, group_ok, lemma_path_position, path_position, well_formed,
    EndpointModel, GroupModel,
};
use vstd::prelude::*;

verus! {

/// An endpoint has expired at `now` when it has been silent for longer than
/// `ttl`. A heartbeat that is not older than `now` never has.
pub open spec fn expired(e: EndpointModel, now: nat, ttl: nat) -> bool {
    now - e.last_seen > ttl
}

/// The members that have expired (`dead`) or that have not (`!dead`), in
/// their old order.
pub open spec fn part(members: Seq<EndpointModel>, now: nat, ttl: nat, dead: bool) -> Seq<
    EndpointModel,
>
    decreases members.len(),
{
    if members.len() == 0 {
        members
    } else {
        let head = part(members.drop_last(), now, ttl, dead);
        if expired(members.last(), now, ttl) == dead {
            head.push(members.last())
        } else {
            head
        }
    }
}

/// A group cut down to one part of its members, with its cursor brought
/// back into range.
pub open spec fn pruned(g: GroupModel, now: nat, ttl: nat, dead: bool) -> GroupModel {
    let rest = part(g.members, now, ttl, dead);
    GroupModel { members: rest, cursor: clamped(g.cursor, rest.len()), ..g }
}

/// Every group cut down to one part of its members, in the old order,
/// without the groups of which nothing is left.
pub open spec fn groups_part(groups: Seq<GroupModel>, now: nat, ttl: nat, dead: bool) -> Seq<
    GroupModel,
>
    decreases groups.len(),
{
    if groups.len() == 0 {
        groups
    } else {
        let head = groups_part(groups.drop_last(), now, ttl, dead);
        let g = pruned(groups.last(), now, ttl, dead);
        if g.members.len() > 0 {
            head.push(g)
        } else {
            head
        }
    }
}

/// The registry after a sweep at `now`: what has not expired.
pub open spec fn swept(groups: Seq<GroupModel>, now: nat, ttl: nat) -> Seq<GroupModel> {
    groups_part(groups, now, ttl, false)
}

/// What a sweep at `now` removes: what has expired.
pub open spec fn lapsed(groups: Seq<GroupModel>, now: nat, ttl: nat) -> Seq<GroupModel> {
    groups_part(groups, now, ttl, true)
}

/// A part holds exactly the members on its side of the expiry test, each
/// once if the addresses were distinct.
pub proof fn lemma_part(members: Seq<EndpointModel>, now: nat, ttl: nat, dead: bool)
    ensures
        part(members, now, ttl, dead).len() <= members.len(),
        forall|k: int|
            0 <= k < part(members, now, ttl, dead).len() ==> expired(
                #[trigger] part(members, now, ttl, dead)[k],
                now,
                ttl,
            ) == dead && members.contains(part(members, now, ttl, dead)[k]),
        forall|j: int|
            0 <= j < members.len() && expired(#[trigger] members[j], now, ttl) == dead ==> part(
                members,
                now,
                ttl,
                dead,
            ).contains(members[j]),
        distinct_addresses(members) ==> distinct_addresses(part(members, now, ttl, dead)),
    decreases members.len(),
{
    let p = part(members, now, ttl, dead);
    if members.len() > 0 {
        let rest = members.drop_last();
        let head = part(rest, now, ttl, dead);
        let last = members.last();
        lemma_part(rest, now, ttl, dead);
        let taken = expired(last, now, ttl) == dead;
        assert forall|k: int| 0 <= k < p.len() implies expired(#[trigger] p[k], now, ttl) == dead
            && members.contains(p[k]) by {
            if k < head.len() {
                assert(p[k] == head[k]);
                assert(rest.contains(head[k]));
                let i = choose|i: int| 0 <= i < rest.len() && rest[i] == head[k];
                assert(members[i] == p[k]);
            } else {
                assert(members[members.len() - 1] == p[k]);
            }
        }
        assert forall|j: int|
            0 <= j < members.len() && expired(#[trigger] members[j], now, ttl) == dead implies p.contains(
            members[j],
        ) by {
            if j < rest.len() {
                assert(rest[j] == members[j]);
                assert(head.contains(rest[j]));
                let k = choose|k: int| 0 <= k < head.len() && head[k] == rest[j];
                assert(p[k] == members[j]);
            } else {
                assert(p[p.len() - 1] == members[j]);
            }
        }
        if distinct_addresses(members) {
            assert(distinct_addresses(rest)) by {
                assert forall|a: int, b: int| 0 <= a < b < rest.len() implies (#[trigger] rest[a]).address
                    != (#[trigger] rest[b]).address by {
                    assert(members[a].address != members[b].address);
                }
            }
            assert forall|a: int, b: int| 0 <= a < b < p.len() implies (#[trigger] p[a]).address != (
            #[trigger] p[b]).address by {
                if b < head.len() {
                    assert(head[a].address != head[b].address);
                } else {
                    assert(taken);
                    assert(p[b] == last);
                    assert(p[a] == head[a]);
                    assert(rest.contains(head[a]));
                    let i = choose|i: int| 0 <= i < rest.len() && rest[i] == head[a];
                    assert(members[i].address != members[members.len() - 1].address);
                }
            }
        }
    }
}

/// Whether `r` is what is left of one of `groups`.
pub open spec fn left_of(r: GroupModel, groups: Seq<GroupModel>, now: nat, ttl: nat, dead: bool) -> bool {
    exists|i: int|
        0 <= i < groups.len() && r == pruned(#[trigger] groups[i], now, ttl, dead)
            && r.members.len() > 0
}

/// What is left of a valid registry is a valid registry, and holds what is
/// left of each group of which anything is left.
pub proof fn lemma_groups_part(groups: Seq<GroupModel>, now: nat, ttl: nat, dead: bool)
    requires
        well_formed(groups),
    ensures
        well_formed(groups_part(groups, now, ttl, dead)),
        groups_part(groups, now, ttl, dead).len() <= groups.len(),
        forall|k: int|
            0 <= k < groups_part(groups, now, ttl, dead).len() ==> left_of(
                #[trigger] groups_part(groups, now, ttl, dead)[k],
                groups,
                now,
                ttl,
                dead,
            ),
        forall|i: int|
            0 <= i < groups.len() && part((#[trigger] groups[i]).members, now, ttl, dead).len() > 0
                ==> groups_part(groups, now, ttl, dead).contains(
                pruned(groups[i], now, ttl, dead),
            ),
    decreases groups.len(),
{
    let r = groups_part(groups, now, ttl, dead);
    if groups.len() > 0 {
        let rest = groups.drop_last();
        let head = groups_part(rest, now, ttl, dead);
        let last = groups.last();
        let g = pruned(last, now, ttl, dead);
        assert(well_formed(rest)) by {
            assert forall|i: int| 0 <= i < rest.len() implies group_ok(#[trigger] rest[i]) by {
                assert(rest[i] == groups[i]);
            }
            assert forall|i: int, j: int| 0 <= i < j < rest.len() implies (#[trigger] rest[i]).path != (
            #[trigger] rest[j]).path by {
                assert(groups[i].path != groups[j].path);
            }
        }
        lemma_groups_part(rest, now, ttl, dead);
        lemma_part(last.members, now, ttl, dead);
        assert(group_ok(last));
        assert forall|k: int| 0 <= k < r.len() implies left_of(#[trigger] r[k], groups, now, ttl, dead) by {
            if k < head.len() {
                assert(r[k] == head[k]);
                assert(left_of(head[k], rest, now, ttl, dead));
                let i = choose|i: int|
                    0 <= i < rest.len() && head[k] == pruned(#[trigger] rest[i], now, ttl, dead)
                        && head[k].members.len() > 0;
                assert(rest[i] == groups[i]);
                assert(r[k] == pruned(groups[i], now, ttl, dead));
            } else {
                assert(r[k] == pruned(groups[groups.len() - 1], now, ttl, dead));
            }
        }
        assert forall|i: int|
            0 <= i < groups.len() && part((#[trigger] groups[i]).members, now, ttl, dead).len()
                > 0 implies r.contains(pruned(groups[i], now, ttl, dead)) by {
            if i < rest.len() {
                assert(rest[i] == groups[i]);
                assert(head.contains(pruned(rest[i], now, ttl, dead)));
                let k = choose|k: int|
                    0 <= k < head.len() && head[k] == pruned(rest[i], now, ttl, dead);
                assert(r[k] == pruned(groups[i], now, ttl, dead));
            } else {
                assert(r[r.len() - 1] == pruned(groups[i], now, ttl, dead));
            }
        }
        assert forall|k: int| 0 <= k < r.len() implies group_ok(#[trigger] r[k]) by {
            if k < head.len() {
                assert(r[k] == head[k]);
            } else {
                assert(r[k] == g);
            }
        }
        assert forall|a: int, b: int| 0 <= a < b < r.len() implies (#[trigger] r[a]).path != (
        #[trigger] r[b]).path by {
            if b < head.len() {
                assert(head[a].path != head[b].path);
            } else {
                assert(r[b] == g);
                assert(r[a] == head[a]);
                assert(left_of(head[a], rest, now, ttl, dead));
                let i = choose|i: int|
                    0 <= i < rest.len() && head[a] == pruned(#[trigger] rest[i], now, ttl, dead)
                        && head[a].members.len() > 0;
                assert(groups[i].path != groups[groups.len() - 1].path);
            }
        }
    }
}

/// What a path leads to in what is left of a valid registry: the part of
/// its old group, or nothing when that part is empty or the path unknown.
pub proof fn lemma_groups_part_at(
    groups: Seq<GroupModel>,
    now: nat,
    ttl: nat,
    dead: bool,
    path: Seq<char>,
)
    requires
        well_formed(groups),
    ensures
        match path_position(groups, path) {
            Some(i) => if part(groups[i].members, now, ttl, dead).len() > 0 {
                match path_position(groups_part(groups, now, ttl, dead), path) {
                    Some(k) => groups_part(groups, now, ttl, dead)[k] == pruned(
                        groups[i],
                        now,
                        ttl,
                        dead,
                    ),
                    None => false,
                }
            } else {
                path_position(groups_part(groups, now, ttl, dead), path) is None
            },
            None => path_position(groups_part(groups, now, ttl, dead), path) is None,
        },
{
    let r = groups_part(groups, now, ttl, dead);
    lemma_groups_part(groups, now, ttl, dead);
    if path_position(r, path) is Some {
        let k = path_position(r, path)->0;
        assert(0 <= k < r.len() && r[k].path == path);
        assert(left_of(r[k], groups, now, ttl, dead));
        let i = choose|i: int|
            0 <= i < groups.len() && r[k] == pruned(#[trigger] groups[i], now, ttl, dead)
                && r[k].members.len() > 0;
        lemma_path_position(groups, path, i);
    }
    if path_position(groups, path) is Some {
        let i = path_position(groups, path)->0;
        assert(0 <= i < groups.len() && groups[i].path == path);
        if part(groups[i].members, now, ttl, dead).len() > 0 {
            assert(r.contains(pruned(groups[i], now, ttl, dead)));
            let k = choose|k: int| 0 <= k < r.len() && r[k] == pruned(groups[i], now, ttl, dead);
            lemma_path_position(r, path, k);
        }
    }
}

} // verus!
