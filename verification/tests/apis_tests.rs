use httpproxy::apis::{
    answer_query, choose_reply, collect_subjects, get_reply_param, ping, query, reg,
    register_each, reply_in_pairs, reply_in_path, status, unreg, unregister_each, ApiError,
    QueryRequest, QueryResponse, RegRequest,
};
use httpproxy::registry::{GroupStatus, Registry};

fn strings(items: &[&str]) -> Vec<String> {
    items.iter().map(|s| s.to_string()).collect()
}

fn pairs(items: &[(&str, &str)]) -> Vec<(String, String)> {
    items.iter().map(|(k, v)| (k.to_string(), v.to_string())).collect()
}

fn lines(status: &[GroupStatus]) -> Vec<(String, Vec<String>)> {
    status.iter().map(|g| (g.path.clone(), g.endpoints.clone())).collect()
}

fn some(s: &str) -> Option<String> {
    Some(s.to_string())
}

fn request(endpoint: &str, path: Option<&str>, paths: Option<&[&str]>) -> RegRequest {
    RegRequest {
        endpoint: endpoint.to_string(),
        path: path.map(|p| p.to_string()),
        paths: paths.map(strings),
    }
}

#[test]
fn reply_comes_from_the_body_first() {
    assert_eq!(get_reply_param(some("body"), "reply=query", "/api/gw/ping/path"), "body");
}

#[test]
fn reply_comes_from_the_query_string_second() {
    assert_eq!(get_reply_param(None, "reply=query", "/api/gw/ping/path"), "query");
    assert_eq!(get_reply_param(some(""), "a=1&reply=query&reply=later", "/api/gw/ping"), "query");
}

#[test]
fn reply_comes_from_the_path_third() {
    assert_eq!(get_reply_param(None, "", "/api/gw/ping/path"), "path");
    assert_eq!(get_reply_param(None, "other=1", "/api/gw/ping/path"), "path");
    assert_eq!(get_reply_param(None, "reply=", "/api/gw/ping/path"), "path");
}

#[test]
fn reply_is_pong_by_default() {
    assert_eq!(get_reply_param(None, "", "/api/gw/ping"), "pong");
    assert_eq!(get_reply_param(None, "", "/api/gw/ping/"), "pong");
    assert_eq!(get_reply_param(some(""), "reply", "/api/gw/ping"), "pong");
    assert_eq!(get_reply_param(None, "", ""), "pong");
}

#[test]
fn reply_is_percent_decoded() {
    assert_eq!(get_reply_param(None, "reply=a%20b", "/api/gw/ping"), "a b");
    assert_eq!(get_reply_param(None, "", "/api/gw/ping/hi%21"), "hi!");
    assert_eq!(get_reply_param(None, "reply=a+b", "/api/gw/ping"), "a+b");
    assert_eq!(get_reply_param(None, "reply=%ff&reply=ok", "/api/gw/ping"), "ok");
    assert_eq!(get_reply_param(None, "", "/api/gw/ping/%ff"), "pong");
}

#[test]
fn query_pairs_without_an_equals_sign_are_passed_over() {
    assert_eq!(get_reply_param(None, "reply&reply=x=y", "/api/gw/ping"), "x");
    assert_eq!(get_reply_param(None, "noreply=1&&reply=z&", "/api/gw/ping"), "z");
}

#[test]
fn reply_in_pairs_takes_the_first_that_decodes_to_something() {
    assert_eq!(reply_in_pairs(&pairs(&[("a", "1"), ("reply", "x"), ("reply", "y")])), some("x"));
    assert_eq!(reply_in_pairs(&pairs(&[("reply", ""), ("reply", "y")])), some("y"));
    assert_eq!(reply_in_pairs(&pairs(&[("reply", "%41")])), some("A"));
    assert_eq!(reply_in_pairs(&pairs(&[("Reply", "x")])), None);
    assert_eq!(reply_in_pairs(&Vec::new()), None);
}

#[test]
fn reply_in_path_skips_the_ping_route_itself() {
    assert_eq!(reply_in_path("/api/gw/ping"), None);
    assert_eq!(reply_in_path("/api/gw/ping/echo"), some("echo"));
    assert_eq!(reply_in_path("/api/gw/ping/"), None);
    assert_eq!(reply_in_path("noslash"), None);
}

#[test]
fn choose_reply_follows_the_priority() {
    assert_eq!(choose_reply(some("b"), some("q"), some("p")), "b");
    assert_eq!(choose_reply(some(""), some("q"), some("p")), "q");
    assert_eq!(choose_reply(None, None, some("p")), "p");
    assert_eq!(choose_reply(None, some(""), some("")), "pong");
    assert_eq!(choose_reply(None, None, None), "pong");
}

#[test]
fn ping_answers_with_reply_time_and_server() {
    let answer = ping(None, "reply=hello", "/api/gw/ping", 1700000000, "1.2.3");
    assert_eq!(answer.reply, "hello");
    assert_eq!(answer.now, 1700000000);
    assert_eq!(answer.server, "httpproxy/1.2.3");
}

#[test]
fn status_reports_startup_and_services() {
    let mut r = Registry::new();
    let empty = status(&r, 42);
    assert_eq!(empty.startup, 42);
    assert!(empty.services.is_empty());
    r.register("/svc/a", "one", 0);
    r.register("/svc/a", "two", 0);
    let full = status(&r, 42);
    assert_eq!(lines(&full.services), vec![("/svc/a".to_string(), strings(&["one", "two"]))]);
}

#[test]
fn query_for_one_path_from_the_body() {
    let mut r = Registry::new();
    r.register("/svc/a", "one", 0);
    let found = query(
        &r,
        "/api/gw/query",
        QueryRequest { path: some("/svc/a"), paths: Some(strings(&["/svc/b"])) },
    );
    match found {
        Ok(QueryResponse::Single { services }) => assert_eq!(services, Some(strings(&["one"]))),
        _ => panic!("one path is answered with its services"),
    }
    let missing = query(&r, "/api/gw/query", QueryRequest { path: some("/svc/x"), paths: None });
    match missing {
        Ok(QueryResponse::Single { services }) => assert_eq!(services, None),
        _ => panic!("an unknown path is answered with nothing"),
    }
}

#[test]
fn query_for_one_path_from_the_address() {
    let mut r = Registry::new();
    r.register("/svc", "one", 0);
    r.register("/a b", "two", 0);
    match query(&r, "/api/gw/query/svc", QueryRequest { path: None, paths: None }) {
        Ok(QueryResponse::Single { services }) => assert_eq!(services, Some(strings(&["one"]))),
        _ => panic!("the last segment is the path"),
    }
    match query(&r, "/api/gw/query/a%20b", QueryRequest { path: None, paths: None }) {
        Ok(QueryResponse::Single { services }) => assert_eq!(services, Some(strings(&["two"]))),
        _ => panic!("the last segment is decoded"),
    }
    match query(&r, "/api/gw/query/%2Fsvc", QueryRequest { path: None, paths: None }) {
        Ok(QueryResponse::Single { services }) => assert_eq!(services, Some(strings(&["one"]))),
        _ => panic!("the last segment is decoded"),
    }
}

#[test]
fn query_for_several_paths_omits_the_empty_ones() {
    let mut r = Registry::new();
    r.register("/svc/a", "one", 0);
    r.register("/svc/c", "three", 0);
    let request =
        QueryRequest { path: None, paths: Some(strings(&["/svc/c", "/svc/b", "/svc/a/"])) };
    match query(&r, "/api/gw/query", request) {
        Ok(QueryResponse::Multiple { list }) => assert_eq!(
            lines(&list),
            vec![
                ("/svc/c".to_string(), strings(&["three"])),
                ("/svc/a/".to_string(), strings(&["one"])),
            ]
        ),
        _ => panic!("several paths are answered with a list"),
    }
}

#[test]
fn query_without_a_path_is_refused() {
    let r = Registry::new();
    let refused = query(&r, "/api/gw/query", QueryRequest { path: None, paths: None });
    assert_eq!(refused.unwrap_err(), ApiError::MissingPath);
    assert_eq!(ApiError::MissingPath.message(), "param path and paths not find");
    let refused = answer_query(&r, None, None);
    assert_eq!(refused.unwrap_err(), ApiError::MissingPath);
    let refused = query(&r, "query", QueryRequest { path: None, paths: None });
    assert_eq!(refused.unwrap_err(), ApiError::MissingPath);
}

#[test]
fn query_with_an_undecodable_segment_is_refused() {
    let r = Registry::new();
    let refused = query(&r, "/api/gw/query/%ff", QueryRequest { path: None, paths: None });
    assert_eq!(refused.unwrap_err(), ApiError::BadEncoding);
    assert_eq!(ApiError::BadEncoding.message(), "path is not valid percent-encoded text");
}

#[test]
fn reg_registers_path_and_paths() {
    let mut r = Registry::new();
    let answer = reg(&mut r, &request("e:1", Some("/a"), Some(&["/b", "/a", "/c"])), 5).unwrap();
    assert_eq!(answer.endpoint, "e:1");
    assert_eq!(answer.added, strings(&["/a", "/b", "/c"]));
    assert_eq!(
        lines(&r.snapshot()),
        vec![
            ("/a".to_string(), strings(&["e:1"])),
            ("/b".to_string(), strings(&["e:1"])),
            ("/c".to_string(), strings(&["e:1"])),
        ]
    );
    let again = reg(&mut r, &request("e:1", Some("/a"), None), 6).unwrap();
    assert!(again.added.is_empty());
    assert_eq!(r.query("/a"), Some(strings(&["e:1"])));
}

#[test]
fn reg_is_a_heartbeat() {
    let mut r = Registry::new();
    reg(&mut r, &request("e:1", Some("/a"), None), 0).unwrap();
    reg(&mut r, &request("e:2", Some("/a"), None), 0).unwrap();
    reg(&mut r, &request("e:1", None, Some(&["/a"])), 25).unwrap();
    r.sweep(40, 30);
    assert_eq!(r.query("/a"), Some(strings(&["e:1"])));
}

#[test]
fn reg_without_a_path_is_refused() {
    let mut r = Registry::new();
    let refused = reg(&mut r, &request("e:1", None, None), 0);
    assert_eq!(refused.unwrap_err(), ApiError::MissingPath);
    assert!(r.snapshot().is_empty());
    let accepted = reg(&mut r, &request("e:1", None, Some(&[])), 0).unwrap();
    assert!(accepted.added.is_empty());
    assert!(r.snapshot().is_empty());
}

#[test]
fn unreg_removes_path_and_paths() {
    let mut r = Registry::new();
    reg(&mut r, &request("e:1", None, Some(&["/a", "/b", "/c"])), 0).unwrap();
    reg(&mut r, &request("e:2", Some("/b"), None), 0).unwrap();
    assert_eq!(unreg(&mut r, &request("e:1", Some("/a"), Some(&["/b", "/zzz"]))), Ok(()));
    assert_eq!(
        lines(&r.snapshot()),
        vec![("/b".to_string(), strings(&["e:2"])), ("/c".to_string(), strings(&["e:1"]))]
    );
    assert_eq!(unreg(&mut r, &request("e:1", Some("/a"), Some(&["/b", "/zzz"]))), Ok(()));
    assert_eq!(r.snapshot().len(), 2);
}

#[test]
fn unreg_without_a_path_is_refused() {
    let mut r = Registry::new();
    r.register("/a", "e:1", 0);
    assert_eq!(unreg(&mut r, &request("e:1", None, None)), Err(ApiError::MissingPath));
    assert_eq!(r.query("/a"), Some(strings(&["e:1"])));
}

#[test]
fn subjects_are_path_then_paths() {
    assert_eq!(collect_subjects(&some("/a"), &Some(strings(&["/b", "/c"]))), strings(&["/a", "/b", "/c"]));
    assert_eq!(collect_subjects(&None, &Some(strings(&["/b"]))), strings(&["/b"]));
    assert_eq!(collect_subjects(&some("/a"), &None), strings(&["/a"]));
    assert!(collect_subjects(&None, &None).is_empty());
}

#[test]
fn register_each_and_unregister_each_go_in_order() {
    let mut r = Registry::new();
    let added = register_each(&mut r, &strings(&["/a", "/a/", "/b"]), "e", 0);
    assert_eq!(added, strings(&["/a", "/b"]));
    unregister_each(&mut r, &strings(&["/b", "/b", "/x"]), "e");
    assert_eq!(lines(&r.snapshot()), vec![("/a".to_string(), strings(&["e"]))]);
}
