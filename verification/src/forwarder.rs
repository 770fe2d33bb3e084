//! The routing decisions of the reverse proxy: which registered path a
//! request falls under, which backend takes it, what is sent upstream and
//! what an upstream outcome becomes for the caller.
//!
//! A request is routed to the longest registered path that covers its own
//! path. One attempt is made per request: a failed connect is reported and
//! not retried against another member of the group.

use crate::model::{
    group_ok, lemma_path_position, path_position, selected, selection_at, well_formed, GroupModel,
};
use crate::registry::Registry;
use crate::text::{covers, is_normal, lemma_normal_is_fixed, normalized, pair_of, pairs_of};
use vstd::prelude::*;
use vstd::string::*;

verus! {

/// Whether group `i` covers `path` with a key that no other covering key
/// exceeds in length.
pub open spec fn is_best_cover(groups: Seq<GroupModel>, path: Seq<char>, i: int) -> bool {
    &&& 0 <= i < groups.len()
    &&& covers(groups[i].path, path)
    &&& forall|j: int|
        0 <= j < groups.len() && covers((#[trigger] groups[j]).path, path) ==> groups[j].path.len()
            <= groups[i].path.len()
}

/// The group that a request for `path` is routed to, if any covers it.
pub open spec fn best_cover(groups: Seq<GroupModel>, path: Seq<char>) -> Option<int> {
    if exists|i: int| is_best_cover(groups, path, i) {
        Some(choose|i: int| is_best_cover(groups, path, i))
    } else {
        None
    }
}

/// Two normal keys of one length that cover the same path are the same.
pub proof fn lemma_covers_same_length(a: Seq<char>, b: Seq<char>, path: Seq<char>)
    requires
        is_normal(a),
        is_normal(b),
        covers(a, path),
        covers(b, path),
        a.len() == b.len(),
    ensures
        a == b,
{
    let root = seq!['/'];
    if a.len() == 1 {
        assert(a =~= root);
        assert(b =~= root);
    } else {
        assert(a != root);
        assert(b != root);
        if a == path {
        } else if b == path {
        } else {
            assert(path.subrange(0, a.len() as int) == a);
            assert(path.subrange(0, b.len() as int) == b);
        }
    }
}

/// In a valid registry a path has at most one best cover, so that
/// `best_cover` names it.
pub proof fn lemma_best_cover(groups: Seq<GroupModel>, path: Seq<char>, i: int)
    requires
        well_formed(groups),
        is_best_cover(groups, path, i),
    ensures
        best_cover(groups, path) == Some(i),
{
    let c = choose|c: int| is_best_cover(groups, path, c);
    assert(group_ok(groups[i]));
    assert(group_ok(groups[c]));
    lemma_covers_same_length(groups[i].path, groups[c].path, path);
    if c < i {
        assert(groups[c].path != groups[i].path);
    } else if i < c {
        assert(groups[i].path != groups[c].path);
    }
}

/// A path that is registered itself is routed to its own group.
pub proof fn law_exact_path_is_best_cover(groups: Seq<GroupModel>, path: Seq<char>)
    requires
        well_formed(groups),
        path_position(groups, path) is Some,
    ensures
        best_cover(groups, path) == path_position(groups, path),
{
    let i = path_position(groups, path)->0;
    assert(0 <= i < groups.len() && groups[i].path == path);
    assert forall|j: int|
        0 <= j < groups.len() && covers((#[trigger] groups[j]).path, path) implies groups[j].path.len()
        <= groups[i].path.len() by {
        assert(group_ok(groups[j]));
        assert(group_ok(groups[i]));
    }
    lemma_best_cover(groups, path, i);
}

/// Whether `address` holds `://` at position `i`.
pub open spec fn scheme_at(address: Seq<char>, i: int) -> bool {
    &&& 0 <= i
    &&& i + 3 <= address.len()
    &&& address[i] == ':'
    &&& address[i + 1] == '/'
    &&& address[i + 2] == '/'
}

/// Whether `address` names its scheme, that is, holds `://` somewhere.
pub open spec fn has_scheme(address: Seq<char>) -> bool {
    exists|i: int| scheme_at(address, i)
}

/// The base of the upstream address: the backend's address, behind
/// `http://` where it is a host and a port and names no scheme.
pub open spec fn base_of(address: Seq<char>) -> Seq<char> {
    if has_scheme(address) {
        address
    } else {
        "http://"@ + address
    }
}

/// The upstream address of a request: the base of the backend's address,
/// the request's path as it came, and its query string behind a question
/// mark if it has one.
pub open spec fn target_of(address: Seq<char>, path: Seq<char>, query: Seq<char>) -> Seq<char> {
    if query.len() == 0 {
        base_of(address) + path
    } else {
        base_of(address) + path + seq!['?'] + query
    }
}

/// Why a request got no upstream answer.
#[derive(Clone, Copy, Debug, PartialEq, Eq, Structural)]
pub enum FailureKind {
    /// No backend is registered for the path, or none could be reached.
    UpstreamUnavailable,
    /// The backend was reached and the exchange failed.
    UpstreamProtocolError,
}

/// A failure as the caller sees it.
#[derive(Debug)]
pub struct GatewayFailure {
    pub kind: FailureKind,
    pub status: u16,
    pub message: String,
}

/// The status of a request for which no backend is registered.
pub const STATUS_UNAVAILABLE: u16 = 503;

/// The status of a request whose backend failed.
pub const STATUS_BAD_GATEWAY: u16 = 502;

/// Where a request goes.
#[derive(Debug)]
pub struct Route {
    /// The registered path that covers the request.
    pub key: String,
    /// The backend chosen from that path's group.
    pub address: String,
    /// The address to call upstream.
    pub target: String,
}

/// Decides whether an address names its scheme.
pub fn names_scheme(address: &str) -> (r: bool)
    ensures
        r == has_scheme(address@),
{
    let n: usize = address.unicode_len();
    if n < 3 {
        return false;
    }
    let last: usize = n - 3;
    let mut i: usize = 0;
    while i <= last
        invariant
            i <= last + 1,
            last == n - 3,
            n == address@.len(),
            forall|k: int| 0 <= k < i ==> !scheme_at(address@, k),
        decreases last + 1 - i,
    {
        if address.get_char(i) == ':' && address.get_char(i + 1) == '/' && address.get_char(i + 2)
            == '/' {
            assert(scheme_at(address@, i as int));
            return true;
        }
        i = i + 1;
    }
    false
}

/// Builds the upstream address of a request.
pub fn build_target(address: &str, path: &str, query: &str) -> (r: String)
    ensures
        r@ == target_of(address@, path@, query@),
{
    let mut out = if names_scheme(address) {
        String::from_str(address)
    } else {
        String::from_str("http://").concat(address)
    };
    out.append(path);
    if query.unicode_len() > 0 {
        proof {
            reveal_strlit("?");
            assert("?"@ =~= seq!['?']);
        }
        out.append("?");
        out.append(query);
    }
    out
}

/// The failure that answers a request without a backend.
pub fn unavailable() -> (r: GatewayFailure)
    ensures
        r.kind == FailureKind::UpstreamUnavailable,
        r.status == STATUS_UNAVAILABLE,
        r.message@ == "no matching backend"@,
{
    GatewayFailure {
        kind: FailureKind::UpstreamUnavailable,
        status: STATUS_UNAVAILABLE,
        message: String::from_str("no matching backend"),
    }
}

/// Routes one request: finds the longest registered path that covers the
/// request's path, takes the next backend of its group in round-robin
/// order and builds the upstream address. Without a covering path the
/// request fails as `UpstreamUnavailable` and the registry is untouched.
pub fn route(registry: &mut Registry, path: &str, query: &str) -> (r: Result<Route, GatewayFailure>)
    ensures
        final(registry).wf(),
        match best_cover(old(registry)@, normalized(path@)) {
            Some(i) => {
                &&& final(registry)@ == selected(old(registry)@, old(registry)@[i].path)
                &&& match r {
                    Ok(route) => {
                        &&& route.key@ == old(registry)@[i].path
                        &&& Some(route.address@) == selection_at(
                            old(registry)@,
                            old(registry)@[i].path,
                        )
                        &&& route.target@ == target_of(route.address@, path@, query@)
                    },
                    Err(_) => false,
                }
            },
            None => {
                &&& final(registry)@ == old(registry)@
                &&& match r {
                    Ok(_) => false,
                    Err(failure) => {
                        &&& failure.kind == FailureKind::UpstreamUnavailable
                        &&& failure.status == STATUS_UNAVAILABLE
                        &&& failure.message@ == "no matching backend"@
                    },
                }
            },
        },
{
    let ghost before = registry@;
    match registry.resolve(path) {
        Some(key) => {
            proof {
                let i = best_cover(before, normalized(path@))->0;
                assert(is_best_cover(before, normalized(path@), i));
                assert(group_ok(before[i]));
                lemma_normal_is_fixed(key@);
                lemma_path_position(before, key@, i);
            }
            match registry.select(key.as_str()) {
                Ok(address) => {
                    let target = build_target(address.as_str(), path, query);
                    Ok(Route { key, address, target })
                },
                Err(_) => {
                    proof {
                        assert(false);
                    }
                    Err(unavailable())
                },
            }
        },
        None => Err(unavailable()),
    }
}

/// Whether two characters are the same letter, not counting the case of
/// the letters `A` to `Z`.
pub open spec fn same_letter(a: char, b: char) -> bool {
    ||| a == b
    ||| ('A' as u32 <= a as u32 <= 'Z' as u32 && b as u32 == a as u32 + 32)
    ||| ('A' as u32 <= b as u32 <= 'Z' as u32 && a as u32 == b as u32 + 32)
}

/// Whether two header names are the same, not counting case.
pub open spec fn same_name(a: Seq<char>, b: Seq<char>) -> bool {
    &&& a.len() == b.len()
    &&& forall|i: int| 0 <= i < a.len() ==> same_letter(#[trigger] a[i], b[i])
}

/// Whether a header belongs to one hop or to one host and is therefore not
/// passed on upstream.
pub open spec fn is_hop_by_hop(name: Seq<char>) -> bool {
    ||| same_name(name, "connection"@)
    ||| same_name(name, "keep-alive"@)
    ||| same_name(name, "proxy-authenticate"@)
    ||| same_name(name, "proxy-authorization"@)
    ||| same_name(name, "te"@)
    ||| same_name(name, "trailer"@)
    ||| same_name(name, "transfer-encoding"@)
    ||| same_name(name, "upgrade"@)
    ||| same_name(name, "host"@)
}

/// The headers that are passed on upstream: all but the hop-by-hop ones,
/// in their old order.
pub open spec fn passed_on(hs: Seq<(Seq<char>, Seq<char>)>) -> Seq<(Seq<char>, Seq<char>)>
    decreases hs.len(),
{
    if hs.len() == 0 {
        hs
    } else {
        let head = passed_on(hs.drop_last());
        if is_hop_by_hop(hs.last().0) {
            head
        } else {
            head.push(hs.last())
        }
    }
}

/// Decides whether two header names are the same, not counting case.
pub fn names_match(a: &str, b: &str) -> (r: bool)
    ensures
        r == same_name(a@, b@),
{
    let n: usize = a.unicode_len();
    if n != b.unicode_len() {
        return false;
    }
    let mut i: usize = 0;
    while i < n
        invariant
            i <= n,
            n == a@.len(),
            n == b@.len(),
            forall|j: int| 0 <= j < i ==> same_letter(#[trigger] a@[j], b@[j]),
        decreases n - i,
    {
        let x: u32 = a.get_char(i) as u32;
        let y: u32 = b.get_char(i) as u32;
        let same = x == y || (65 <= x && x <= 90 && y == x + 32) || (65 <= y && y <= 90 && x == y
            + 32);
        if !same {
            proof {
                assert(!same_letter(a@[i as int], b@[i as int]));
            }
            return false;
        }
        i = i + 1;
    }
    true
}

/// Decides whether a header is left out of the upstream request.
pub fn hop_by_hop(name: &str) -> (r: bool)
    ensures
        r == is_hop_by_hop(name@),
{
    names_match(name, "connection") || names_match(name, "keep-alive") || names_match(
        name,
        "proxy-authenticate",
    ) || names_match(name, "proxy-authorization") || names_match(name, "te") || names_match(
        name,
        "trailer",
    ) || names_match(name, "transfer-encoding") || names_match(name, "upgrade") || names_match(
        name,
        "host",
    )
}

/// Copies the headers of a request for the upstream call, leaving out the
/// hop-by-hop and host headers.
pub fn forward_headers(headers: &Vec<(String, String)>) -> (r: Vec<(String, String)>)
    ensures
        pairs_of(r@) == passed_on(pairs_of(headers@)),
{
    let mut out: Vec<(String, String)> = Vec::new();
    let ghost all = pairs_of(headers@);
    let mut i: usize = 0;
    proof {
        assert(all.subrange(0, 0) =~= Seq::<(Seq<char>, Seq<char>)>::empty());
        assert(pairs_of(out@) =~= Seq::<(Seq<char>, Seq<char>)>::empty());
    }
    while i < headers.len()
        invariant
            i <= headers.len(),
            all == pairs_of(headers@),
            pairs_of(out@) == passed_on(all.subrange(0, i as int)),
        decreases headers.len() - i,
    {
        let h = &headers[i];
        proof {
            assert(all.subrange(0, i + 1).drop_last() =~= all.subrange(0, i as int));
            assert(all.subrange(0, i + 1).last() == pair_of(*h));
        }
        if !hop_by_hop(h.0.as_str()) {
            let ghost before = out@;
            out.push((h.0.clone(), h.1.clone()));
            proof {
                assert(pairs_of(out@) =~= pairs_of(before).push(pair_of(*h)));
            }
        }
        i = i + 1;
    }
    assert(all.subrange(0, headers.len() as int) =~= all);
    out
}

/// How the upstream call ended.
#[derive(Debug)]
pub enum UpstreamOutcome {
    /// The backend answered.
    Responded { status: u16, headers: Vec<(String, String)> },
    /// No connection could be made.
    ConnectFailed { reason: String },
    /// No connection was made within the connect timeout.
    TimedOut,
    /// The connection was made and the exchange failed.
    Broken { reason: String },
}

/// What the caller gets.
#[derive(Debug)]
pub enum GatewayResponse {
    /// The backend's answer, as it came.
    Relay { status: u16, headers: Vec<(String, String)> },
    /// A failure of the gateway's own.
    Failure(GatewayFailure),
}

/// Turns the outcome of the upstream call into the caller's response: an
/// answer is relayed with its status and headers as they came, a failed or
/// timed-out connect becomes `UpstreamUnavailable` and a broken exchange
/// `UpstreamProtocolError`, both with the status of a bad gateway and a
/// message that ends with the reason given.
pub fn conclude(outcome: UpstreamOutcome) -> (r: GatewayResponse)
    ensures
        match outcome {
            UpstreamOutcome::Responded { status, headers } => r matches GatewayResponse::Relay {
                status: s,
                headers: h,
            } && s == status && h == headers,
            UpstreamOutcome::ConnectFailed { reason } => r matches GatewayResponse::Failure(f)
                && f.kind == FailureKind::UpstreamUnavailable && f.status == STATUS_BAD_GATEWAY
                && f.message@ == "upstream connect failed: "@ + reason@,
            UpstreamOutcome::TimedOut => r matches GatewayResponse::Failure(f) && f.kind
                == FailureKind::UpstreamUnavailable && f.status == STATUS_BAD_GATEWAY && f.message@
                == "upstream connect timed out"@,
            UpstreamOutcome::Broken { reason } => r matches GatewayResponse::Failure(f) && f.kind
                == FailureKind::UpstreamProtocolError && f.status == STATUS_BAD_GATEWAY
                && f.message@ == "upstream exchange failed: "@ + reason@,
        },
{
    match outcome {
        UpstreamOutcome::Responded { status, headers } => GatewayResponse::Relay { status, headers },
        UpstreamOutcome::ConnectFailed { reason } => GatewayResponse::Failure(
            GatewayFailure {
                kind: FailureKind::UpstreamUnavailable,
                status: STATUS_BAD_GATEWAY,
                message: String::from_str("upstream connect failed: ").concat(reason.as_str()),
            },
        ),
        UpstreamOutcome::TimedOut => GatewayResponse::Failure(
            GatewayFailure {
                kind: FailureKind::UpstreamUnavailable,
                status: STATUS_BAD_GATEWAY,
                message: String::from_str("upstream connect timed out"),
            },
        ),
        UpstreamOutcome::Broken { reason } => GatewayResponse::Failure(
            GatewayFailure {
                kind: FailureKind::UpstreamProtocolError,
                status: STATUS_BAD_GATEWAY,
                message: String::from_str("upstream exchange failed: ").concat(reason.as_str()),
            },
        ),
    }
}

} // verus!
