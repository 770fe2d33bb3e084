use httpproxy::registry::{GroupStatus, Registry};
use httpproxy::selector::{select, NoBackendAvailable, Selection};

fn strings(items: &[&str]) -> Vec<String> {
    items.iter().map(|s| s.to_string()).collect()
}

fn lines(status: &[GroupStatus]) -> Vec<(String, Vec<String>)> {
    status.iter().map(|g| (g.path.clone(), g.endpoints.clone())).collect()
}

#[test]
fn register_then_query_lists_the_endpoint() {
    let mut r = Registry::new();
    assert!(r.register("/svc/a", "10.0.0.1:8080", 100));
    assert_eq!(r.query("/svc/a"), Some(strings(&["10.0.0.1:8080"])));
}

#[test]
fn second_endpoint_joins_the_group() {
    let mut r = Registry::new();
    r.register("/svc/a", "10.0.0.1:8080", 100);
    assert!(r.register("/svc/a", "10.0.0.2:8080", 101));
    let found = r.query("/svc/a").unwrap();
    assert_eq!(found.len(), 2);
    assert!(found.contains(&"10.0.0.1:8080".to_string()));
    assert!(found.contains(&"10.0.0.2:8080".to_string()));
    assert_eq!(found, strings(&["10.0.0.1:8080", "10.0.0.2:8080"]));
}

#[test]
fn unregister_leaves_the_other_endpoint() {
    let mut r = Registry::new();
    r.register("/svc/a", "10.0.0.1:8080", 100);
    r.register("/svc/a", "10.0.0.2:8080", 101);
    r.unregister("/svc/a", "10.0.0.1:8080");
    assert_eq!(r.query("/svc/a"), Some(strings(&["10.0.0.2:8080"])));
}

#[test]
fn silent_endpoint_is_swept_and_leaves_the_status() {
    let mut r = Registry::new();
    r.register("/svc/a", "10.0.0.2:8080", 100);
    assert_eq!(r.query("/svc/a"), Some(strings(&["10.0.0.2:8080"])));
    let removed = r.sweep(131, 30);
    assert_eq!(lines(&removed), vec![("/svc/a".to_string(), strings(&["10.0.0.2:8080"]))]);
    assert_eq!(r.query("/svc/a"), None);
    assert!(r.snapshot().is_empty());
}

#[test]
fn registration_is_idempotent() {
    let mut r = Registry::new();
    assert!(r.register("/svc/a", "10.0.0.1:8080", 1));
    assert!(!r.register("/svc/a", "10.0.0.1:8080", 2));
    assert_eq!(r.query("/svc/a"), Some(strings(&["10.0.0.1:8080"])));
    assert_eq!(r.snapshot().len(), 1);
}

#[test]
fn heartbeat_refreshes_the_time_in_place() {
    let mut r = Registry::new();
    r.register("/svc/a", "one", 0);
    r.register("/svc/a", "two", 0);
    assert!(!r.register("/svc/a", "one", 50));
    let removed = r.sweep(60, 30);
    assert_eq!(lines(&removed), vec![("/svc/a".to_string(), strings(&["two"]))]);
    assert_eq!(r.query("/svc/a"), Some(strings(&["one"])));
}

#[test]
fn unregister_of_an_absent_pair_changes_nothing() {
    let mut r = Registry::new();
    r.register("/svc/a", "one", 0);
    r.register("/svc/b", "two", 0);
    r.unregister("/svc/a", "missing");
    r.unregister("/svc/none", "one");
    r.unregister("/svc/a", "two");
    assert_eq!(
        lines(&r.snapshot()),
        vec![
            ("/svc/a".to_string(), strings(&["one"])),
            ("/svc/b".to_string(), strings(&["two"])),
        ]
    );
}

#[test]
fn unregister_twice_is_unregister_once() {
    let mut r = Registry::new();
    r.register("/svc/a", "one", 0);
    r.register("/svc/a", "two", 0);
    r.unregister("/svc/a", "one");
    r.unregister("/svc/a", "one");
    assert_eq!(r.query("/svc/a"), Some(strings(&["two"])));
}

#[test]
fn last_unregister_removes_the_group() {
    let mut r = Registry::new();
    r.register("/svc/a", "one", 0);
    r.unregister("/svc/a", "one");
    assert_eq!(r.query("/svc/a"), None);
    assert!(r.snapshot().is_empty());
}

#[test]
fn query_of_an_unknown_path_is_absent() {
    let r = Registry::new();
    assert_eq!(r.query("/nothing"), None);
}

#[test]
fn paths_are_normalised_on_both_sides() {
    let mut r = Registry::new();
    assert!(r.register("svc/a/", "one", 0));
    assert!(!r.register("/svc/a", "one", 1));
    assert_eq!(r.query("/svc/a//"), Some(strings(&["one"])));
    assert_eq!(lines(&r.snapshot()), vec![("/svc/a".to_string(), strings(&["one"]))]);
    r.unregister("svc/a", "one");
    assert_eq!(r.query("/svc/a"), None);
}

#[test]
fn empty_path_is_the_root() {
    let mut r = Registry::new();
    assert!(r.register("", "one", 0));
    assert_eq!(r.query("/"), Some(strings(&["one"])));
    assert_eq!(r.query("///"), Some(strings(&["one"])));
}

#[test]
fn sweep_keeps_what_is_exactly_ttl_old() {
    let mut r = Registry::new();
    r.register("/svc/a", "one", 100);
    assert!(r.sweep(130, 30).is_empty());
    assert_eq!(r.query("/svc/a"), Some(strings(&["one"])));
    assert_eq!(r.sweep(131, 30).len(), 1);
    assert_eq!(r.query("/svc/a"), None);
}

#[test]
fn sweep_with_a_clock_behind_the_heartbeat_keeps_the_endpoint() {
    let mut r = Registry::new();
    r.register("/svc/a", "one", 100);
    assert!(r.sweep(10, 0).is_empty());
    assert_eq!(r.query("/svc/a"), Some(strings(&["one"])));
}

#[test]
fn sweep_removes_only_the_silent_ones() {
    let mut r = Registry::new();
    r.register("/svc/a", "old", 0);
    r.register("/svc/a", "new", 90);
    r.register("/svc/b", "gone", 10);
    r.register("/svc/c", "stays", 95);
    let removed = r.sweep(100, 30);
    assert_eq!(
        lines(&removed),
        vec![
            ("/svc/a".to_string(), strings(&["old"])),
            ("/svc/b".to_string(), strings(&["gone"])),
        ]
    );
    assert_eq!(
        lines(&r.snapshot()),
        vec![
            ("/svc/a".to_string(), strings(&["new"])),
            ("/svc/c".to_string(), strings(&["stays"])),
        ]
    );
}

#[test]
fn status_lists_exactly_the_live_paths() {
    let mut r = Registry::new();
    assert!(r.snapshot().is_empty());
    r.register("/svc/a", "one", 0);
    r.register("/svc/b", "two", 0);
    r.register("/svc/b", "three", 0);
    r.unregister("/svc/a", "one");
    let status = r.snapshot();
    assert_eq!(lines(&status), vec![("/svc/b".to_string(), strings(&["two", "three"]))]);
    assert!(status.iter().all(|g| !g.endpoints.is_empty()));
}

#[test]
fn changes_to_distinct_addresses_commute() {
    let mut one = Registry::new();
    one.register("/svc/a", "x", 0);
    let mut two = Registry::new();
    two.register("/svc/a", "x", 0);

    one.register("/svc/a", "y", 1);
    one.unregister("/svc/a", "x");
    two.unregister("/svc/a", "x");
    two.register("/svc/a", "y", 1);
    assert_eq!(one.query("/svc/a"), Some(strings(&["y"])));
    assert_eq!(two.query("/svc/a"), Some(strings(&["y"])));
}

#[test]
fn select_goes_round_the_group() {
    let mut r = Registry::new();
    r.register("/svc/a", "one", 0);
    r.register("/svc/a", "two", 0);
    r.register("/svc/a", "three", 0);
    let mut seen = Vec::new();
    for _ in 0..6 {
        seen.push(r.select("/svc/a").unwrap());
    }
    assert_eq!(seen, strings(&["one", "two", "three", "one", "two", "three"]));
}

#[test]
fn select_window_visits_each_member_and_never_repeats_at_once() {
    let mut r = Registry::new();
    let members = ["a", "b", "c", "d"];
    for m in members {
        r.register("/svc", m, 0);
    }
    r.select("/svc").unwrap();
    let mut seen = Vec::new();
    for _ in 0..12 {
        seen.push(r.select("/svc").unwrap());
    }
    for w in seen.windows(4) {
        for m in members {
            assert!(w.contains(&m.to_string()));
        }
    }
    for w in seen.windows(2) {
        assert_ne!(w[0], w[1]);
    }
}

#[test]
fn select_on_an_unknown_path_has_no_backend() {
    let mut r = Registry::new();
    assert_eq!(r.select("/svc/a"), Err(NoBackendAvailable));
    r.register("/svc/a", "one", 0);
    r.unregister("/svc/a", "one");
    assert_eq!(r.select("/svc/a"), Err(NoBackendAvailable));
}

#[test]
fn select_after_a_removal_stays_in_range() {
    let mut r = Registry::new();
    r.register("/svc", "a", 0);
    r.register("/svc", "b", 0);
    r.register("/svc", "c", 0);
    r.select("/svc").unwrap();
    r.select("/svc").unwrap();
    r.unregister("/svc", "c");
    assert_eq!(r.select("/svc").unwrap(), "a");
    assert_eq!(r.select("/svc").unwrap(), "b");
}

#[test]
fn selector_picks_cursor_mod_n_and_advances() {
    assert_eq!(select(3, 0), Ok(Selection { index: 0, next_cursor: 1 }));
    assert_eq!(select(3, 2), Ok(Selection { index: 2, next_cursor: 0 }));
    assert_eq!(select(3, 7), Ok(Selection { index: 1, next_cursor: 2 }));
    assert_eq!(select(1, 0), Ok(Selection { index: 0, next_cursor: 0 }));
    assert_eq!(select(0, 5), Err(NoBackendAvailable));
}

#[test]
fn resolve_takes_the_longest_covering_path() {
    let mut r = Registry::new();
    r.register("/svc", "short", 0);
    r.register("/svc/a", "long", 0);
    assert_eq!(r.resolve("/svc/a/resource"), Some("/svc/a".to_string()));
    assert_eq!(r.resolve("/svc/a"), Some("/svc/a".to_string()));
    assert_eq!(r.resolve("/svc/ab"), Some("/svc".to_string()));
    assert_eq!(r.resolve("/svc"), Some("/svc".to_string()));
    assert_eq!(r.resolve("/other"), None);
    r.register("/", "root", 0);
    assert_eq!(r.resolve("/other"), Some("/".to_string()));
    assert_eq!(r.resolve("/svc/a/x"), Some("/svc/a".to_string()));
}
