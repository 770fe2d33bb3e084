//! The registry: which endpoints are live under which path.

use crate::expiry::{expired, groups_part, lapsed, lemma_groups_part, part, pruned, swept};
use crate::forwarder::{best_cover, is_best_cover, lemma_best_cover};
use crate::laws::{
    lemma_registered_at, lemma_selected_times, lemma_unregistered_at, selected_times,
};
use crate::model::{
    address_position, addresses, distinct_addresses, group_ok, has_member, lemma_address_position,
    lemma_path_position, listing, members_at, path_position, registered, selected, selection_at,
    unregistered, well_formed, EndpointModel, GroupModel, StatusModel,
};
use crate::selector::{select, NoBackendAvailable};
use crate::text::{covers, key_covers, normalize, normalized, texts};
use vstd::prelude::*;
use vstd::string::*;

verus! {

/// A backend address registered under a path.
#[derive(Debug)]
pub struct Endpoint {
    pub address: String,
    pub last_seen: u64,
}

impl View for Endpoint {
    type V = EndpointModel;

    open spec fn view(&self) -> EndpointModel {
        EndpointModel { address: self.address@, last_seen: self.last_seen as nat }
    }
}

/// The endpoints registered under one path, with the group's cursor.
#[derive(Debug)]
pub struct ServiceGroup {
    pub path: String,
    pub endpoints: Vec<Endpoint>,
    pub cursor: usize,
}

impl View for ServiceGroup {
    type V = GroupModel;

    open spec fn view(&self) -> GroupModel {
        GroupModel {
            path: self.path@,
            members: members_of(self.endpoints@),
            cursor: self.cursor as nat,
        }
    }
}

/// The models of a run of endpoints.
pub open spec fn members_of(endpoints: Seq<Endpoint>) -> Seq<EndpointModel> {
    Seq::new(endpoints.len(), |j: int| endpoints[j]@)
}

/// The models of a run of groups.
pub open spec fn groups_of(groups: Seq<ServiceGroup>) -> Seq<GroupModel> {
    Seq::new(groups.len(), |i: int| groups[i]@)
}

/// One line of a status report: a path and the addresses registered under it.
#[derive(Debug)]
pub struct GroupStatus {
    pub path: String,
    pub endpoints: Vec<String>,
}

impl View for GroupStatus {
    type V = StatusModel;

    open spec fn view(&self) -> StatusModel {
        StatusModel { path: self.path@, endpoints: texts(self.endpoints@) }
    }
}

/// What a run of status lines says.
pub open spec fn statuses(lines: Seq<GroupStatus>) -> Seq<StatusModel> {
    Seq::new(lines.len(), |i: int| lines[i]@)
}

fn addresses_of(endpoints: &Vec<Endpoint>) -> (r: Vec<String>)
    ensures
        texts(r@) == addresses(members_of(endpoints@)),
{
    let mut out: Vec<String> = Vec::new();
    let mut j: usize = 0;
    while j < endpoints.len()
        invariant
            j <= endpoints.len(),
            out.len() == j,
            forall|k: int| 0 <= k < j ==> (#[trigger] out@[k])@ == endpoints@[k].address@,
        decreases endpoints.len() - j,
    {
        out.push(endpoints[j].address.clone());
        j = j + 1;
    }
    assert(texts(out@) =~= addresses(members_of(endpoints@)));
    out
}

/// Parts the endpoints of one group at `now`: those that stay, and the
/// addresses of those that have expired.
fn split_members(endpoints: &Vec<Endpoint>, now: u64, ttl: u64) -> (r: (Vec<Endpoint>, Vec<String>))
    ensures
        members_of(r.0@) == part(members_of(endpoints@), now as nat, ttl as nat, false),
        texts(r.1@) == addresses(part(members_of(endpoints@), now as nat, ttl as nat, true)),
{
    let mut live: Vec<Endpoint> = Vec::new();
    let mut dead: Vec<String> = Vec::new();
    let ghost all = members_of(endpoints@);
    let mut j: usize = 0;
    assert(all.subrange(0, 0) =~= Seq::<EndpointModel>::empty());
    assert(members_of(live@) =~= Seq::<EndpointModel>::empty());
    assert(texts(dead@) =~= Seq::<Seq<char>>::empty());
    assert(addresses(Seq::<EndpointModel>::empty()) =~= Seq::<Seq<char>>::empty());
    while j < endpoints.len()
        invariant
            j <= endpoints.len(),
            all == members_of(endpoints@),
            members_of(live@) == part(all.subrange(0, j as int), now as nat, ttl as nat, false),
            texts(dead@) == addresses(part(all.subrange(0, j as int), now as nat, ttl as nat, true)),
        decreases endpoints.len() - j,
    {
        let e = &endpoints[j];
        let ghost seen = all.subrange(0, j as int);
        let ghost next = all.subrange(0, j + 1);
        proof {
            assert(next.drop_last() =~= seen);
            assert(next.last() == e@);
        }
        if now > e.last_seen && now - e.last_seen > ttl {
            let ghost before = dead@;
            dead.push(e.address.clone());
            proof {
                assert(expired(e@, now as nat, ttl as nat));
                assert(texts(dead@) =~= texts(before).push(e.address@));
                assert(addresses(part(seen, now as nat, ttl as nat, true).push(e@)) =~= addresses(
                    part(seen, now as nat, ttl as nat, true),
                ).push(e.address@));
            }
        } else {
            let ghost before = live@;
            live.push(Endpoint { address: e.address.clone(), last_seen: e.last_seen });
            proof {
                assert(!expired(e@, now as nat, ttl as nat));
                assert(members_of(live@) =~= members_of(before).push(e@));
            }
        }
        j = j + 1;
    }
    assert(all.subrange(0, endpoints.len() as int) =~= all);
    (live, dead)
}

/// The live map from path to service group.
#[derive(Debug)]
pub struct Registry {
    groups: Vec<ServiceGroup>,
}

impl View for Registry {
    type V = Seq<GroupModel>;

    closed spec fn view(&self) -> Seq<GroupModel> {
        groups_of(self.groups@)
    }
}

fn find_member(endpoints: &Vec<Endpoint>, address: &String) -> (r: Option<usize>)
    requires
        distinct_addresses(members_of(endpoints@)),
    ensures
        match r {
            Some(j) => j < endpoints.len() && address_position(members_of(endpoints@), address@)
                == Some(j as int),
            None => address_position(members_of(endpoints@), address@) is None,
        },
{
    let mut j: usize = 0;
    while j < endpoints.len()
        invariant
            j <= endpoints.len(),
            distinct_addresses(members_of(endpoints@)),
            forall|k: int| 0 <= k < j ==> (#[trigger] members_of(endpoints@)[k]).address != address@,
        decreases endpoints.len() - j,
    {
        if endpoints[j].address == *address {
            proof {
                lemma_address_position(members_of(endpoints@), address@, j as int);
            }
            return Some(j);
        }
        j = j + 1;
    }
    None
}

fn find_group(groups: &Vec<ServiceGroup>, key: &String) -> (r: Option<usize>)
    requires
        well_formed(groups_of(groups@)),
    ensures
        match r {
            Some(i) => i < groups.len() && path_position(groups_of(groups@), key@) == Some(i as int),
            None => path_position(groups_of(groups@), key@) is None,
        },
{
    let mut i: usize = 0;
    while i < groups.len()
        invariant
            i <= groups.len(),
            well_formed(groups_of(groups@)),
            forall|k: int| 0 <= k < i ==> (#[trigger] groups_of(groups@)[k]).path != key@,
        decreases groups.len() - i,
    {
        if groups[i].path == *key {
            proof {
                lemma_path_position(groups_of(groups@), key@, i as int);
            }
            return Some(i);
        }
        i = i + 1;
    }
    None
}

impl Registry {
    /// Validity of the registry: see `well_formed`. It holds of every
    /// registry at all times.
    #[verifier::type_invariant]
    pub open spec fn wf(&self) -> bool {
        well_formed(self@)
    }

    /// An empty registry.
    pub fn new() -> (r: Registry)
        ensures
            r.wf(),
            r@ == Seq::<GroupModel>::empty(),
    {
        let groups: Vec<ServiceGroup> = Vec::new();
        assert(groups_of(groups@) =~= Seq::<GroupModel>::empty());
        Registry { groups }
    }

    /// Registers `address` under `path`, or refreshes its heartbeat when it
    /// is registered already. Returns whether the endpoint is new.
    pub fn register(&mut self, path: &str, address: &str, now: u64) -> (was_new: bool)
        ensures
            final(self).wf(),
            final(self)@ == registered(old(self)@, normalized(path@), address@, now as nat),
            was_new == !has_member(old(self)@, normalized(path@), address@),
    {
        proof {
            use_type_invariant(&*self);
        }
        let key = normalize(path);
        let address = address.to_owned();
        let ghost before = self@;
        let mut groups: Vec<ServiceGroup> = Vec::new();
        assert(groups_of(groups@) =~= Seq::<GroupModel>::empty());
        std::mem::swap(&mut self.groups, &mut groups);
        let was_new = match find_group(&groups, &key) {
            Some(i) => {
                match find_member(&groups[i].endpoints, &address) {
                    Some(j) => {
                        groups[i].endpoints[j].last_seen = now;
                        proof {
                            let e = EndpointModel { address: address@, last_seen: now as nat };
                            assert(groups_of(groups@)[i as int].members
                                =~= before[i as int].members.update(j as int, e));
                            assert(groups_of(groups@) =~= registered(
                                before,
                                key@,
                                address@,
                                now as nat,
                            ));
                        }
                        false
                    },
                    None => {
                        groups[i].endpoints.push(Endpoint { address, last_seen: now });
                        proof {
                            let e = EndpointModel { address: address@, last_seen: now as nat };
                            assert(groups_of(groups@)[i as int].members
                                =~= before[i as int].members.push(e));
                            assert(groups_of(groups@) =~= registered(
                                before,
                                key@,
                                address@,
                                now as nat,
                            ));
                        }
                        true
                    },
                }
            },
            None => {
                let mut endpoints: Vec<Endpoint> = Vec::new();
                endpoints.push(Endpoint { address, last_seen: now });
                groups.push(ServiceGroup { path: key, endpoints, cursor: 0 });
                proof {
                    let e = EndpointModel { address: address@, last_seen: now as nat };
                    assert(groups_of(groups@).last().members =~= seq![e]);
                    assert(groups_of(groups@) =~= registered(before, key@, address@, now as nat));
                }
                true
            },
        };
        proof {
            lemma_registered_at(before, key@, address@, now as nat, key@, address@);
        }
        self.groups = groups;
        was_new
    }

    /// Removes `address` from `path`, and the group with it when it was the
    /// last member. An absent path or address is left alone.
    pub fn unregister(&mut self, path: &str, address: &str)
        ensures
            final(self).wf(),
            final(self)@ == unregistered(old(self)@, normalized(path@), address@),
    {
        proof {
            use_type_invariant(&*self);
        }
        let key = normalize(path);
        let address = address.to_owned();
        let ghost before = self@;
        let mut groups: Vec<ServiceGroup> = Vec::new();
        assert(groups_of(groups@) =~= Seq::<GroupModel>::empty());
        std::mem::swap(&mut self.groups, &mut groups);
        match find_group(&groups, &key) {
            Some(i) => {
                match find_member(&groups[i].endpoints, &address) {
                    Some(j) => {
                        if groups[i].endpoints.len() == 1 {
                            groups.remove(i);
                            assert(groups_of(groups@) =~= before.remove(i as int));
                        } else {
                            groups[i].endpoints.remove(j);
                            if groups[i].cursor >= groups[i].endpoints.len() {
                                groups[i].cursor = 0;
                            }
                            proof {
                                let rest = before[i as int].members.remove(j as int);
                                assert(groups_of(groups@)[i as int].members =~= rest);
                                assert(groups_of(groups@) =~= unregistered(before, key@, address@));
                            }
                        }
                    },
                    None => {},
                }
            },
            None => {},
        }
        proof {
            lemma_unregistered_at(before, key@, address@, key@, address@);
        }
        self.groups = groups;
    }

    /// The addresses registered under `path`, in the order of their first
    /// registration; `None` when the path is unknown.
    pub fn query(&self, path: &str) -> (r: Option<Vec<String>>)
        ensures
            self.wf(),
            match r {
                Some(found) => members_at(self@, normalized(path@)) == Some(texts(found@))
                    && found@.len() > 0,
                None => members_at(self@, normalized(path@)) is None,
            },
    {
        proof {
            use_type_invariant(&*self);
        }
        let key = normalize(path);
        match find_group(&self.groups, &key) {
            Some(i) => {
                let found = addresses_of(&self.groups[i].endpoints);
                assert(texts(found@).len() == found@.len());
                Some(found)
            },
            None => None,
        }
    }

    /// The registry as it stands: every group with its addresses, in the
    /// order in which the paths were first registered.
    pub fn snapshot(&self) -> (r: Vec<GroupStatus>)
        ensures
            self.wf(),
            statuses(r@) == listing(self@),
            forall|i: int| 0 <= i < r@.len() ==> (#[trigger] r@[i]).endpoints@.len() > 0,
    {
        proof {
            use_type_invariant(&*self);
        }
        let mut out: Vec<GroupStatus> = Vec::new();
        let mut i: usize = 0;
        while i < self.groups.len()
            invariant
                i <= self.groups.len(),
                self.wf(),
                out.len() == i,
                forall|k: int| 0 <= k < i ==> (#[trigger] out@[k])@ == listing(self@)[k],
                forall|k: int| 0 <= k < i ==> (#[trigger] out@[k]).endpoints@.len() > 0,
            decreases self.groups.len() - i,
        {
            let endpoints = addresses_of(&self.groups[i].endpoints);
            proof {
                assert(group_ok(self@[i as int]));
                assert(texts(endpoints@).len() == endpoints@.len());
            }
            out.push(GroupStatus { path: self.groups[i].path.clone(), endpoints });
            i = i + 1;
        }
        assert(statuses(out@) =~= listing(self@));
        out
    }

    /// Hands out the next endpoint of `path` in round-robin order and moves
    /// the group's cursor on. An unknown path yields `NoBackendAvailable`
    /// and changes nothing.
    pub fn select(&mut self, path: &str) -> (r: Result<String, NoBackendAvailable>)
        ensures
            final(self).wf(),
            final(self)@ == selected(old(self)@, normalized(path@)),
            match r {
                Ok(address) => selection_at(old(self)@, normalized(path@)) == Some(address@),
                Err(_) => selection_at(old(self)@, normalized(path@)) is None,
            },
    {
        proof {
            use_type_invariant(&*self);
        }
        let key = normalize(path);
        let ghost before = self@;
        let i: usize = match find_group(&self.groups, &key) {
            Some(i) => i,
            None => {
                return Err(NoBackendAvailable);
            },
        };
        assert(group_ok(before[i as int]));
        let choice = match select(self.groups[i].endpoints.len(), self.groups[i].cursor) {
            Ok(choice) => choice,
            Err(e) => {
                return Err(e);
            },
        };
        let address = self.groups[i].endpoints[choice.index].address.clone();
        let mut groups: Vec<ServiceGroup> = Vec::new();
        assert(groups_of(groups@) =~= Seq::<GroupModel>::empty());
        std::mem::swap(&mut self.groups, &mut groups);
        groups[i].cursor = choice.next_cursor;
        proof {
            assert(groups_of(groups@)[i as int].members =~= before[i as int].members);
            assert(groups_of(groups@) =~= selected(before, key@));
            lemma_selected_times(before, key@, 1);
            assert(selected_times(before, key@, 1) == selected(selected_times(before, key@, 0), key@));
        }
        self.groups = groups;
        Ok(address)
    }

    /// Removes every endpoint that has been silent for longer than `ttl` at
    /// `now`, and every group that is left without members. Returns what was
    /// removed, path by path.
    pub fn sweep(&mut self, now: u64, ttl: u64) -> (removed: Vec<GroupStatus>)
        ensures
            final(self).wf(),
            final(self)@ == swept(old(self)@, now as nat, ttl as nat),
            statuses(removed@) == listing(lapsed(old(self)@, now as nat, ttl as nat)),
    {
        proof {
            use_type_invariant(&*self);
        }
        let ghost before = self@;
        let mut kept: Vec<ServiceGroup> = Vec::new();
        let mut removed: Vec<GroupStatus> = Vec::new();
        let mut i: usize = 0;
        proof {
            assert(before.subrange(0, 0) =~= Seq::<GroupModel>::empty());
            assert(groups_of(kept@) =~= Seq::<GroupModel>::empty());
            assert(statuses(removed@) =~= listing(Seq::<GroupModel>::empty()));
        }
        while i < self.groups.len()
            invariant
                i <= self.groups.len(),
                before == self@,
                groups_of(kept@) == groups_part(
                    before.subrange(0, i as int),
                    now as nat,
                    ttl as nat,
                    false,
                ),
                statuses(removed@) == listing(
                    groups_part(before.subrange(0, i as int), now as nat, ttl as nat, true),
                ),
            decreases self.groups.len() - i,
        {
            let group = &self.groups[i];
            let (live, dead) = split_members(&group.endpoints, now, ttl);
            let ghost seen = before.subrange(0, i as int);
            let ghost next = before.subrange(0, i + 1);
            proof {
                assert(next.drop_last() =~= seen);
                assert(next.last() == group@);
            }
            if live.len() > 0 {
                let cursor: usize = if group.cursor < live.len() {
                    group.cursor
                } else {
                    0
                };
                let ghost old_kept = kept@;
                kept.push(ServiceGroup { path: group.path.clone(), endpoints: live, cursor });
                proof {
                    assert(kept@.last()@ == pruned(group@, now as nat, ttl as nat, false));
                    assert(groups_of(kept@) =~= groups_of(old_kept).push(
                        pruned(group@, now as nat, ttl as nat, false),
                    ));
                }
            } else {
                assert(members_of(live@).len() == 0);
            }
            if dead.len() > 0 {
                let ghost old_removed = removed@;
                let ghost gone = groups_part(seen, now as nat, ttl as nat, true);
                let ghost g = pruned(group@, now as nat, ttl as nat, true);
                removed.push(GroupStatus { path: group.path.clone(), endpoints: dead });
                proof {
                    assert(texts(dead@).len() == dead@.len());
                    assert(g.members.len() > 0);
                    assert(statuses(removed@) =~= statuses(old_removed).push(removed@.last()@));
                    assert(listing(gone.push(g)) =~= listing(gone).push(
                        StatusModel { path: g.path, endpoints: addresses(g.members) },
                    ));
                }
            } else {
                assert(texts(dead@).len() == dead@.len());
            }
            i = i + 1;
        }
        proof {
            assert(before.subrange(0, self.groups.len() as int) =~= before);
            lemma_groups_part(before, now as nat, ttl as nat, false);
        }
        self.groups = kept;
        removed
    }
    /// The registered path that a request for `path` falls under: the
    /// longest one that covers it. `None` when none does.
    pub fn resolve(&self, path: &str) -> (r: Option<String>)
        ensures
            self.wf(),
            match best_cover(self@, normalized(path@)) {
                Some(i) => match r {
                    Some(key) => key@ == self@[i].path,
                    None => false,
                },
                None => r is None,
            },
    {
        proof {
            use_type_invariant(&*self);
        }
        let wanted = normalize(path);
        let mut best: Option<usize> = None;
        let mut best_len: usize = 0;
        let mut i: usize = 0;
        while i < self.groups.len()
            invariant
                i <= self.groups.len(),
                self.wf(),
                match best {
                    Some(b) => {
                        &&& b < i
                        &&& covers(self@[b as int].path, wanted@)
                        &&& best_len == self@[b as int].path.len()
                        &&& forall|j: int|
                            0 <= j < i && covers((#[trigger] self@[j]).path, wanted@)
                                ==> self@[j].path.len() <= best_len
                    },
                    None => forall|j: int| 0 <= j < i ==> !covers((#[trigger] self@[j]).path, wanted@),
                },
            decreases self.groups.len() - i,
        {
            let key = self.groups[i].path.as_str();
            if key_covers(key, wanted.as_str()) {
                let len: usize = key.unicode_len();
                if best.is_none() || len > best_len {
                    best = Some(i);
                    best_len = len;
                }
            }
            i = i + 1;
        }
        match best {
            Some(b) => {
                proof {
                    assert(is_best_cover(self@, wanted@, b as int));
                    lemma_best_cover(self@, wanted@, b as int);
                }
                Some(self.groups[b].path.clone())
            },
            None => {
                proof {
                    if best_cover(self@, wanted@) is Some {
                        let c = choose|c: int| is_best_cover(self@, wanted@, c);
                        assert(covers(self@[c].path, wanted@));
                    }
                }
                None
            },
        }
    }
}

} // verus!
