//! The management interface: what `ping`, `status`, `query`, `reg` and
//! `unreg` answer, given the request's parts as plain values.

use crate::model::{
    has_member, listing, members_at, registered, unregistered, GroupModel, StatusModel,
};
use crate::outside::{percent_decode, percent_decoded, querify, query_pairs};
use crate::registry::{statuses, GroupStatus, Registry};
use crate::text::{
    after_last_slash, ends_with, has_suffix, normalized, pairs_of, tail_segment, texts,
};
use vstd::prelude::*;
use vstd::string::*;

verus! {

/// Why a management request is refused.
#[derive(Clone, Copy, Debug, PartialEq, Eq, Structural)]
pub enum ApiError {
    /// Neither `path` nor `paths` was given.
    MissingPath,
    /// A path taken from the request's address is not valid percent-encoded
    /// UTF-8.
    BadEncoding,
}

impl ApiError {
    /// The message that the caller is sent.
    pub fn message(&self) -> (r: String)
        ensures
            r@ == match *self {
                ApiError::MissingPath => "param path and paths not find"@,
                ApiError::BadEncoding => "path is not valid percent-encoded text"@,
            },
    {
        match self {
            ApiError::MissingPath => String::from_str("param path and paths not find"),
            ApiError::BadEncoding => String::from_str("path is not valid percent-encoded text"),
        }
    }
}

/// The content of an optional string.
pub open spec fn opt_text(s: Option<String>) -> Option<Seq<char>> {
    match s {
        Some(s) => Some(s@),
        None => None,
    }
}

/// The contents of an optional run of strings.
pub open spec fn opt_texts(s: Option<Vec<String>>) -> Option<Seq<Seq<char>>> {
    match s {
        Some(s) => Some(texts(s@)),
        None => None,
    }
}

/// A text that is there and not empty.
pub open spec fn nonempty(v: Option<Seq<char>>) -> Option<Seq<char>> {
    match v {
        Some(s) => if s.len() > 0 {
            Some(s)
        } else {
            None
        },
        None => None,
    }
}

/// The reply that a run of query pairs asks for: the decoded value of the
/// first pair named `reply` whose value decodes to something not empty.
pub open spec fn reply_from_pairs(pairs: Seq<(Seq<char>, Seq<char>)>) -> Option<Seq<char>>
    decreases pairs.len(),
{
    if pairs.len() == 0 {
        None
    } else if pairs[0].0 == "reply"@ && nonempty(percent_decoded(pairs[0].1)) is Some {
        nonempty(percent_decoded(pairs[0].1))
    } else {
        reply_from_pairs(pairs.drop_first())
    }
}

/// The reply that a query string asks for.
pub open spec fn reply_from_query(query: Seq<char>) -> Option<Seq<char>> {
    if query.len() == 0 {
        None
    } else {
        reply_from_pairs(query_pairs(query))
    }
}

/// The reply that the request's path asks for: its decoded last segment,
/// unless the path ends with `/ping` or that segment is empty.
pub open spec fn reply_from_path(path: Seq<char>) -> Option<Seq<char>> {
    if ends_with(path, "/ping"@) {
        None
    } else {
        match tail_segment(path) {
            Some(segment) => nonempty(percent_decoded(segment)),
            None => None,
        }
    }
}

/// The reply of a ping: the first that is there and not empty of the
/// body's, the query string's and the path's, and `pong` without any.
pub open spec fn chosen_reply(
    body: Option<Seq<char>>,
    from_query: Option<Seq<char>>,
    from_path: Option<Seq<char>>,
) -> Seq<char> {
    match nonempty(body) {
        Some(reply) => reply,
        None => match nonempty(from_query) {
            Some(reply) => reply,
            None => match nonempty(from_path) {
                Some(reply) => reply,
                None => "pong"@,
            },
        },
    }
}

/// The reply of a ping with the given body, query string and path.
pub open spec fn reply_of(body: Option<Seq<char>>, query: Seq<char>, path: Seq<char>) -> Seq<char> {
    chosen_reply(body, reply_from_query(query), reply_from_path(path))
}

fn keep_nonempty(v: Option<String>) -> (r: Option<String>)
    ensures
        opt_text(r) == nonempty(opt_text(v)),
{
    match v {
        Some(s) => if s.as_str().unicode_len() > 0 {
            Some(s)
        } else {
            None
        },
        None => None,
    }
}

/// Picks the reply of a ping among the three places that may name one.
pub fn choose_reply(body: Option<String>, from_query: Option<String>, from_path: Option<String>) -> (r:
    String)
    ensures
        r@ == chosen_reply(opt_text(body), opt_text(from_query), opt_text(from_path)),
{
    match keep_nonempty(body) {
        Some(reply) => reply,
        None => match keep_nonempty(from_query) {
            Some(reply) => reply,
            None => match keep_nonempty(from_path) {
                Some(reply) => reply,
                None => String::from_str("pong"),
            },
        },
    }
}

/// Finds the reply that a run of query pairs asks for.
pub fn reply_in_pairs(pairs: &Vec<(String, String)>) -> (r: Option<String>)
    ensures
        opt_text(r) == reply_from_pairs(pairs_of(pairs@)),
{
    let key = String::from_str("reply");
    let ghost all = pairs_of(pairs@);
    let mut i: usize = 0;
    assert(all.subrange(0, all.len() as int) =~= all);
    while i < pairs.len()
        invariant
            i <= pairs.len(),
            all == pairs_of(pairs@),
            key@ == "reply"@,
            reply_from_pairs(all) == reply_from_pairs(all.subrange(i as int, all.len() as int)),
        decreases pairs.len() - i,
    {
        let ghost rest = all.subrange(i as int, all.len() as int);
        proof {
            assert(rest[0] == all[i as int]);
            assert(rest.drop_first() =~= all.subrange(i + 1, all.len() as int));
        }
        if pairs[i].0 == key {
            let found = keep_nonempty(percent_decode(pairs[i].1.as_str()));
            if found.is_some() {
                return found;
            }
        }
        i = i + 1;
    }
    None
}

/// Finds the reply that the request's path asks for.
pub fn reply_in_path(path: &str) -> (r: Option<String>)
    ensures
        opt_text(r) == reply_from_path(path@),
{
    if has_suffix(path, "/ping") {
        return None;
    }
    match after_last_slash(path) {
        Some(segment) => keep_nonempty(percent_decode(segment)),
        None => None,
    }
}

/// Resolves the reply of a ping: the body's `reply` comes first, then the
/// query string's `reply=`, then the last segment of the path, then `pong`.
pub fn get_reply_param(body_reply: Option<String>, query: &str, path: &str) -> (r: String)
    ensures
        r@ == reply_of(opt_text(body_reply), query@, path@),
{
    let from_query = if query.unicode_len() > 0 {
        let pairs = querify(query);
        reply_in_pairs(&pairs)
    } else {
        None
    };
    let from_path = reply_in_path(path);
    choose_reply(body_reply, from_query, from_path)
}

/// The answer to a ping.
#[derive(Debug)]
pub struct PingResponse {
    pub reply: String,
    pub now: u64,
    pub server: String,
}

/// How the server names itself: its name, a slash and its version.
pub open spec fn server_banner(version: Seq<char>) -> Seq<char> {
    "httpproxy"@ + "/"@ + version
}

/// Answers a ping at `now` with the reply that the request asks for.
pub fn ping(body_reply: Option<String>, query: &str, path: &str, now: u64, version: &str) -> (r:
    PingResponse)
    ensures
        r.reply@ == reply_of(opt_text(body_reply), query@, path@),
        r.now == now,
        r.server@ == server_banner(version@),
{
    let reply = get_reply_param(body_reply, query, path);
    let mut server = String::from_str("httpproxy");
    server.append("/");
    server.append(version);
    PingResponse { reply, now, server }
}

/// The answer to a status request.
#[derive(Debug)]
pub struct StatusResponse {
    pub startup: u64,
    pub services: Vec<GroupStatus>,
}

/// Reports when the server started and what is registered.
pub fn status(registry: &Registry, startup_time: u64) -> (r: StatusResponse)
    ensures
        r.startup == startup_time,
        statuses(r.services@) == listing(registry@),
{
    StatusResponse { startup: startup_time, services: registry.snapshot() }
}

/// What a query asks for, as the request's body gives it.
#[derive(Debug)]
pub struct QueryRequest {
    pub path: Option<String>,
    pub paths: Option<Vec<String>>,
}

/// The answer to a query.
#[derive(Debug)]
pub enum QueryResponse {
    /// The addresses registered under the one path asked for, if any.
    Single { services: Option<Vec<String>> },
    /// The paths asked for that have addresses, each with them.
    Multiple { list: Vec<GroupStatus> },
}

/// What an answer to a query says.
pub enum QueryModel {
    Single { services: Option<Seq<Seq<char>>> },
    Multiple { list: Seq<StatusModel> },
}

impl View for QueryResponse {
    type V = QueryModel;

    open spec fn view(&self) -> QueryModel {
        match *self {
            QueryResponse::Single { services } => QueryModel::Single {
                services: opt_texts(services),
            },
            QueryResponse::Multiple { list } => QueryModel::Multiple { list: statuses(list@) },
        }
    }
}

/// The paths among `paths` that have addresses, each with them, in the
/// order in which they were asked for.
pub open spec fn found_among(groups: Seq<GroupModel>, paths: Seq<Seq<char>>) -> Seq<StatusModel>
    decreases paths.len(),
{
    if paths.len() == 0 {
        Seq::empty()
    } else {
        let head = found_among(groups, paths.drop_last());
        match members_at(groups, normalized(paths.last())) {
            Some(found) => head.push(StatusModel { path: paths.last(), endpoints: found }),
            None => head,
        }
    }
}

/// The answer to a query whose path, if it has one, is known.
pub open spec fn answer_of(
    groups: Seq<GroupModel>,
    path: Option<Seq<char>>,
    paths: Option<Seq<Seq<char>>>,
) -> Result<QueryModel, ApiError> {
    match path {
        Some(p) => Ok(QueryModel::Single { services: members_at(groups, normalized(p)) }),
        None => match paths {
            Some(ps) => Ok(QueryModel::Multiple { list: found_among(groups, ps) }),
            None => Err(ApiError::MissingPath),
        },
    }
}

/// The path that the request's address names, where its body names none:
/// the decoded last segment, unless the address ends with `/query`. The
/// inner `None` stands for a segment that cannot be decoded.
pub open spec fn path_in_url(url_path: Seq<char>) -> Option<Option<Seq<char>>> {
    if ends_with(url_path, "/query"@) {
        None
    } else {
        match tail_segment(url_path) {
            Some(segment) => Some(percent_decoded(segment)),
            None => None,
        }
    }
}

/// The answer to a query with the given address and body.
pub open spec fn query_answer(
    groups: Seq<GroupModel>,
    url_path: Seq<char>,
    path: Option<Seq<char>>,
    paths: Option<Seq<Seq<char>>>,
) -> Result<QueryModel, ApiError> {
    if path is Some {
        answer_of(groups, path, paths)
    } else {
        match path_in_url(url_path) {
            Some(Some(p)) => answer_of(groups, Some(p), paths),
            Some(None) => Err(ApiError::BadEncoding),
            None => answer_of(groups, None, paths),
        }
    }
}

/// Answers a query whose path, if it has one, is known: one path is
/// answered with its addresses, a list of paths with those of them that
/// have any, and a request that names neither is refused.
pub fn answer_query(registry: &Registry, path: Option<String>, paths: Option<Vec<String>>) -> (r:
    Result<QueryResponse, ApiError>)
    ensures
        match r {
            Ok(response) => answer_of(registry@, opt_text(path), opt_texts(paths)) == Ok::<
                QueryModel,
                ApiError,
            >(response@),
            Err(e) => answer_of(registry@, opt_text(path), opt_texts(paths)) == Err::<
                QueryModel,
                ApiError,
            >(e),
        },
{
    proof {
        use_type_invariant(&*registry);
    }
    match path {
        Some(p) => Ok(QueryResponse::Single { services: registry.query(p.as_str()) }),
        None => match paths {
            Some(ps) => {
                let mut list: Vec<GroupStatus> = Vec::new();
                let ghost all = texts(ps@);
                let mut i: usize = 0;
                proof {
                    assert(all.subrange(0, 0) =~= Seq::<Seq<char>>::empty());
                    assert(statuses(list@) =~= Seq::<StatusModel>::empty());
                }
                while i < ps.len()
                    invariant
                        i <= ps.len(),
                        registry.wf(),
                        all == texts(ps@),
                        statuses(list@) == found_among(registry@, all.subrange(0, i as int)),
                    decreases ps.len() - i,
                {
                    proof {
                        assert(all.subrange(0, i + 1).drop_last() =~= all.subrange(0, i as int));
                        assert(all.subrange(0, i + 1).last() == ps@[i as int]@);
                    }
                    match registry.query(ps[i].as_str()) {
                        Some(endpoints) => {
                            let ghost before = list@;
                            list.push(GroupStatus { path: ps[i].clone(), endpoints });
                            proof {
                                assert(statuses(list@) =~= statuses(before).push(list@.last()@));
                            }
                        },
                        None => {},
                    }
                    i = i + 1;
                }
                assert(all.subrange(0, ps.len() as int) =~= all);
                Ok(QueryResponse::Multiple { list })
            },
            None => Err(ApiError::MissingPath),
        },
    }
}

/// Answers a query. Where the body names no path and the request's address
/// does not end with `/query`, the last segment of the address is the path
/// asked for.
pub fn query(registry: &Registry, url_path: &str, request: QueryRequest) -> (r: Result<
    QueryResponse,
    ApiError,
>)
    ensures
        match r {
            Ok(response) => query_answer(
                registry@,
                url_path@,
                opt_text(request.path),
                opt_texts(request.paths),
            ) == Ok::<QueryModel, ApiError>(response@),
            Err(e) => query_answer(
                registry@,
                url_path@,
                opt_text(request.path),
                opt_texts(request.paths),
            ) == Err::<QueryModel, ApiError>(e),
        },
{
    let QueryRequest { path, paths } = request;
    if path.is_none() && !has_suffix(url_path, "/query") {
        match after_last_slash(url_path) {
            Some(segment) => match percent_decode(segment) {
                Some(decoded) => answer_query(registry, Some(decoded), paths),
                None => Err(ApiError::BadEncoding),
            },
            None => answer_query(registry, None, paths),
        }
    } else {
        answer_query(registry, path, paths)
    }
}

/// What a registration or an unregistration asks for, as the request's body
/// gives it.
#[derive(Debug)]
pub struct RegRequest {
    pub endpoint: String,
    pub path: Option<String>,
    pub paths: Option<Vec<String>>,
}

/// The answer to a registration: the endpoint, and the paths under which it
/// was not registered before.
#[derive(Debug)]
pub struct RegResponse {
    pub endpoint: String,
    pub added: Vec<String>,
}

/// The paths that a request names: `path` first, if it is there, then
/// `paths` in their order.
pub open spec fn subjects(path: Option<Seq<char>>, paths: Option<Seq<Seq<char>>>) -> Seq<Seq<char>> {
    (match path {
        Some(p) => seq![p],
        None => Seq::empty(),
    }) + (match paths {
        Some(ps) => ps,
        None => Seq::empty(),
    })
}

/// The registry after `address` has registered under each of `paths` in
/// turn.
pub open spec fn registered_each(
    groups: Seq<GroupModel>,
    paths: Seq<Seq<char>>,
    address: Seq<char>,
    now: nat,
) -> Seq<GroupModel>
    decreases paths.len(),
{
    if paths.len() == 0 {
        groups
    } else {
        registered(
            registered_each(groups, paths.drop_last(), address, now),
            normalized(paths.last()),
            address,
            now,
        )
    }
}

/// Those of `paths` under which `address` was new when its turn came.
pub open spec fn newly_registered(
    groups: Seq<GroupModel>,
    paths: Seq<Seq<char>>,
    address: Seq<char>,
    now: nat,
) -> Seq<Seq<char>>
    decreases paths.len(),
{
    if paths.len() == 0 {
        Seq::empty()
    } else {
        let head = newly_registered(groups, paths.drop_last(), address, now);
        if has_member(
            registered_each(groups, paths.drop_last(), address, now),
            normalized(paths.last()),
            address,
        ) {
            head
        } else {
            head.push(paths.last())
        }
    }
}

/// The registry after `address` has left each of `paths` in turn.
pub open spec fn unregistered_each(
    groups: Seq<GroupModel>,
    paths: Seq<Seq<char>>,
    address: Seq<char>,
) -> Seq<GroupModel>
    decreases paths.len(),
{
    if paths.len() == 0 {
        groups
    } else {
        unregistered(
            unregistered_each(groups, paths.drop_last(), address),
            normalized(paths.last()),
            address,
        )
    }
}

/// The paths that a request names, `path` before `paths`.
pub fn collect_subjects(path: &Option<String>, paths: &Option<Vec<String>>) -> (r: Vec<String>)
    ensures
        texts(r@) == subjects(opt_text(*path), opt_texts(*paths)),
{
    let mut out: Vec<String> = Vec::new();
    match path {
        Some(p) => {
            out.push(p.clone());
        },
        None => {},
    }
    let ghost first = texts(out@);
    assert(first =~= match opt_text(*path) {
        Some(p) => seq![p],
        None => Seq::<Seq<char>>::empty(),
    });
    match paths {
        Some(ps) => {
            let mut i: usize = 0;
            while i < ps.len()
                invariant
                    i <= ps.len(),
                    texts(out@) == first + texts(ps@).subrange(0, i as int),
                decreases ps.len() - i,
            {
                let ghost before = out@;
                out.push(ps[i].clone());
                proof {
                    assert(texts(out@) =~= texts(before).push(ps@[i as int]@));
                    assert(first + texts(ps@).subrange(0, i + 1) =~= (first + texts(ps@).subrange(
                        0,
                        i as int,
                    )).push(ps@[i as int]@));
                }
                i = i + 1;
            }
            assert(texts(ps@).subrange(0, ps.len() as int) =~= texts(ps@));
        },
        None => {
            assert(first + Seq::<Seq<char>>::empty() =~= first);
        },
    }
    out
}

/// Registers `endpoint` under each of `paths` in turn, as a registration or
/// as a heartbeat. Returns the paths under which it was new.
pub fn register_each(registry: &mut Registry, paths: &Vec<String>, endpoint: &str, now: u64) -> (added:
    Vec<String>)
    ensures
        final(registry).wf(),
        final(registry)@ == registered_each(old(registry)@, texts(paths@), endpoint@, now as nat),
        texts(added@) == newly_registered(old(registry)@, texts(paths@), endpoint@, now as nat),
{
    proof {
        use_type_invariant(&*registry);
    }
    let ghost before = registry@;
    let ghost all = texts(paths@);
    let mut added: Vec<String> = Vec::new();
    let mut i: usize = 0;
    proof {
        assert(all.subrange(0, 0) =~= Seq::<Seq<char>>::empty());
        assert(texts(added@) =~= Seq::<Seq<char>>::empty());
    }
    while i < paths.len()
        invariant
            i <= paths.len(),
            registry.wf(),
            all == texts(paths@),
            registry@ == registered_each(before, all.subrange(0, i as int), endpoint@, now as nat),
            texts(added@) == newly_registered(
                before,
                all.subrange(0, i as int),
                endpoint@,
                now as nat,
            ),
        decreases paths.len() - i,
    {
        proof {
            assert(all.subrange(0, i + 1).drop_last() =~= all.subrange(0, i as int));
            assert(all.subrange(0, i + 1).last() == paths@[i as int]@);
        }
        if registry.register(paths[i].as_str(), endpoint, now) {
            let ghost old_added = added@;
            added.push(paths[i].clone());
            proof {
                assert(texts(added@) =~= texts(old_added).push(paths@[i as int]@));
            }
        }
        i = i + 1;
    }
    assert(all.subrange(0, paths.len() as int) =~= all);
    added
}

/// Removes `endpoint` from each of `paths` in turn.
pub fn unregister_each(registry: &mut Registry, paths: &Vec<String>, endpoint: &str)
    ensures
        final(registry).wf(),
        final(registry)@ == unregistered_each(old(registry)@, texts(paths@), endpoint@),
{
    proof {
        use_type_invariant(&*registry);
    }
    let ghost before = registry@;
    let ghost all = texts(paths@);
    let mut i: usize = 0;
    proof {
        assert(all.subrange(0, 0) =~= Seq::<Seq<char>>::empty());
    }
    while i < paths.len()
        invariant
            i <= paths.len(),
            registry.wf(),
            all == texts(paths@),
            registry@ == unregistered_each(before, all.subrange(0, i as int), endpoint@),
        decreases paths.len() - i,
    {
        proof {
            assert(all.subrange(0, i + 1).drop_last() =~= all.subrange(0, i as int));
            assert(all.subrange(0, i + 1).last() == paths@[i as int]@);
        }
        registry.unregister(paths[i].as_str(), endpoint);
        i = i + 1;
    }
    assert(all.subrange(0, paths.len() as int) =~= all);
}

/// Registers the request's endpoint under each path that the request
/// names, `path` before `paths`; a repeated registration is a heartbeat. A
/// request that names no path is refused and changes nothing.
pub fn reg(registry: &mut Registry, request: &RegRequest, now: u64) -> (r: Result<
    RegResponse,
    ApiError,
>)
    ensures
        final(registry).wf(),
        match r {
            Ok(response) => {
                &&& request.path is Some || request.paths is Some
                &&& final(registry)@ == registered_each(
                    old(registry)@,
                    subjects(opt_text(request.path), opt_texts(request.paths)),
                    request.endpoint@,
                    now as nat,
                )
                &&& response.endpoint@ == request.endpoint@
                &&& texts(response.added@) == newly_registered(
                    old(registry)@,
                    subjects(opt_text(request.path), opt_texts(request.paths)),
                    request.endpoint@,
                    now as nat,
                )
            },
            Err(e) => {
                &&& request.path is None && request.paths is None
                &&& e == ApiError::MissingPath
                &&& final(registry)@ == old(registry)@
            },
        },
{
    proof {
        use_type_invariant(&*registry);
    }
    if request.path.is_none() && request.paths.is_none() {
        return Err(ApiError::MissingPath);
    }
    let paths = collect_subjects(&request.path, &request.paths);
    let added = register_each(registry, &paths, request.endpoint.as_str(), now);
    Ok(RegResponse { endpoint: request.endpoint.clone(), added })
}

/// Removes the request's endpoint from each path that the request names,
/// `path` before `paths`; a pair that is not registered is passed over. A
/// request that names no path is refused and changes nothing.
pub fn unreg(registry: &mut Registry, request: &RegRequest) -> (r: Result<(), ApiError>)
    ensures
        final(registry).wf(),
        match r {
            Ok(_) => {
                &&& request.path is Some || request.paths is Some
                &&& final(registry)@ == unregistered_each(
                    old(registry)@,
                    subjects(opt_text(request.path), opt_texts(request.paths)),
                    request.endpoint@,
                )
            },
            Err(e) => {
                &&& request.path is None && request.paths is None
                &&& e == ApiError::MissingPath
                &&& final(registry)@ == old(registry)@
            },
        },
{
    proof {
        use_type_invariant(&*registry);
    }
    if request.path.is_none() && request.paths.is_none() {
        return Err(ApiError::MissingPath);
    }
    let paths = collect_subjects(&request.path, &request.paths);
    unregister_each(registry, &paths, request.endpoint.as_str());
    Ok(())
}

} // verus!
