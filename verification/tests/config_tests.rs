use httpproxy::clock::{timestamp_of, unix_timestamp};
use httpproxy::config::{
    banner_text, listen_address, parse_number, port_of, startup, AppConf, StartupConfigError, MAX_THREADS,
};
use httpproxy::monitor::{ExpiryMonitor, DEFAULT_SWEEP_INTERVAL, DEFAULT_TTL};
use httpproxy::registry::Registry;

#[test]
fn default_settings() {
    let conf = AppConf::default();
    assert_eq!(conf.log_level, "info");
    assert_eq!(conf.log_file, "");
    assert_eq!(conf.log_max, "10m");
    assert!(!conf.log_async);
    assert!(!conf.no_console);
    assert_eq!(conf.threads, "1");
    assert_eq!(conf.listen, "127.0.0.1:3003");
    assert_eq!(conf.conn_timeout, "3");
    assert_eq!(conf.gw_path, "/api/gw");
}

#[test]
fn default_settings_start() {
    let s = startup(&AppConf::default(), false).unwrap();
    assert_eq!(s.connect_timeout, 3);
    assert_eq!(s.threads, 1);
    assert_eq!(s.listen, "127.0.0.1:3003");
    assert_eq!(s.port, 3003);
    assert_eq!(s.gw_prefix, "/api/gw/");
}

#[test]
fn numbers_are_read_in_base_ten() {
    assert_eq!(parse_number("0", 10), Some(0));
    assert_eq!(parse_number("007", 10), Some(7));
    assert_eq!(parse_number("+12", 100), Some(12));
    assert_eq!(parse_number("4294967295", 4294967295), Some(4294967295));
    assert_eq!(parse_number("18446744073709551615", u64::MAX), Some(u64::MAX));
}

#[test]
fn what_is_no_number_is_refused() {
    assert_eq!(parse_number("", 10), None);
    assert_eq!(parse_number("+", 10), None);
    assert_eq!(parse_number("-1", 10), None);
    assert_eq!(parse_number("1 ", 10), None);
    assert_eq!(parse_number("1a", 10), None);
    assert_eq!(parse_number("++1", 10), None);
    assert_eq!(parse_number("١", 10), None);
    assert_eq!(parse_number("11", 10), None);
    assert_eq!(parse_number("4294967296", 4294967295), None);
    assert_eq!(parse_number("18446744073709551616", u64::MAX), None);
    assert_eq!(parse_number("99999999999999999999999", u64::MAX), None);
}

#[test]
fn port_alone_listens_on_every_interface() {
    assert_eq!(listen_address(":3003"), "0.0.0.0:3003");
    assert_eq!(listen_address("127.0.0.1:80"), "127.0.0.1:80");
    assert_eq!(listen_address(""), "");
}

#[test]
fn bad_connect_timeout_stops_the_start() {
    let mut conf = AppConf::default();
    conf.conn_timeout = "soon".to_string();
    conf.threads = "many".to_string();
    assert_eq!(startup(&conf, false).unwrap_err(), StartupConfigError::ConnectTimeout);
    conf.conn_timeout = "4294967296".to_string();
    assert_eq!(startup(&conf, true).unwrap_err(), StartupConfigError::ConnectTimeout);
    assert_eq!(
        StartupConfigError::ConnectTimeout.message(),
        "argument conn-timeout is malformed"
    );
}

#[test]
fn bad_listen_address_stops_the_start() {
    let mut conf = AppConf::default();
    conf.threads = "many".to_string();
    for listen in ["", "localhost", "127.0.0.1:", "127.0.0.1:http", "127.0.0.1:65536", "3003"] {
        conf.listen = listen.to_string();
        assert_eq!(startup(&conf, false).unwrap_err(), StartupConfigError::Listen);
    }
    conf.conn_timeout = "x".to_string();
    assert_eq!(startup(&conf, false).unwrap_err(), StartupConfigError::ConnectTimeout);
    assert_eq!(StartupConfigError::Listen.message(), "argument listen is malformed");
}

#[test]
fn port_stands_behind_the_last_colon() {
    assert_eq!(port_of("127.0.0.1:3003"), Some(3003));
    assert_eq!(port_of("[::1]:65535"), Some(65535));
    assert_eq!(port_of("host:0"), Some(0));
    assert_eq!(port_of(":80"), None);
    assert_eq!(port_of("host"), None);
    assert_eq!(port_of("host:"), None);
    assert_eq!(port_of("host:65536"), None);
    assert_eq!(port_of("host:8o"), None);
}

#[test]
fn bad_threads_stop_the_start() {
    let mut conf = AppConf::default();
    conf.threads = "many".to_string();
    assert_eq!(startup(&conf, true).unwrap_err(), StartupConfigError::Threads);
    assert_eq!(StartupConfigError::Threads.message(), "argument threads is malformed");
}

#[test]
fn thread_count_depends_on_the_build() {
    let mut conf = AppConf::default();
    conf.threads = "2".to_string();
    assert_eq!(startup(&conf, false).unwrap_err(), StartupConfigError::ThreadCount);
    assert_eq!(startup(&conf, true).unwrap().threads, 2);
    conf.threads = "0".to_string();
    assert_eq!(startup(&conf, false).unwrap_err(), StartupConfigError::ThreadCount);
    assert_eq!(startup(&conf, true).unwrap().threads, 0);
    conf.threads = "256".to_string();
    assert_eq!(startup(&conf, true).unwrap().threads, MAX_THREADS);
    conf.threads = "257".to_string();
    assert_eq!(startup(&conf, true).unwrap_err(), StartupConfigError::ThreadCount);
    assert_eq!(
        StartupConfigError::ThreadCount.message(),
        "the number of threads is out of range"
    );
}

#[test]
fn startup_completes_listen_and_prefix() {
    let mut conf = AppConf::default();
    conf.listen = ":8080".to_string();
    conf.gw_path = "/gw".to_string();
    conf.conn_timeout = "15".to_string();
    let s = startup(&conf, false).unwrap();
    assert_eq!(s.listen, "0.0.0.0:8080");
    assert_eq!(s.port, 8080);
    assert_eq!(s.gw_prefix, "/gw/");
    assert_eq!(s.connect_timeout, 15);
}

#[test]
fn monitor_defaults() {
    let m = ExpiryMonitor::with_defaults(100);
    assert_eq!(DEFAULT_TTL, 30);
    assert_eq!(DEFAULT_SWEEP_INTERVAL, 10);
    assert_eq!(m, ExpiryMonitor { ttl: 30, sweep_interval: 10, next_sweep: 110 });
    assert_eq!(ExpiryMonitor::new(5, 7, u64::MAX - 3).next_sweep, u64::MAX);
}

#[test]
fn monitor_sweeps_when_due() {
    let mut r = Registry::new();
    r.register("/svc/a", "one", 0);
    r.register("/svc/a", "two", 25);
    let mut m = ExpiryMonitor::new(30, 10, 0);
    let early = m.tick(&mut r, 5);
    assert!(early.removed.is_empty());
    assert_eq!(early.wait, 5);
    assert_eq!(m.next_sweep, 10);
    let kept = m.tick(&mut r, 10);
    assert!(kept.removed.is_empty());
    assert_eq!(kept.wait, 10);
    assert_eq!(m.next_sweep, 20);
    let late = m.tick(&mut r, 31);
    assert_eq!(late.removed.len(), 1);
    assert_eq!(late.removed[0].path, "/svc/a");
    assert_eq!(late.removed[0].endpoints, vec!["one".to_string()]);
    assert_eq!(late.wait, 10);
    assert_eq!(m.next_sweep, 41);
    assert_eq!(r.query("/svc/a"), Some(vec!["two".to_string()]));
    let last = m.tick(&mut r, 60);
    assert_eq!(last.removed.len(), 1);
    assert_eq!(r.query("/svc/a"), None);
    assert!(r.snapshot().is_empty());
}

#[test]
fn refreshed_endpoint_outlives_the_sweeps() {
    let mut r = Registry::new();
    let mut m = ExpiryMonitor::new(30, 10, 0);
    for now in 0..200u64 {
        if now % 20 == 0 {
            r.register("/svc/a", "alive", now);
        }
        m.tick(&mut r, now);
        assert_eq!(r.query("/svc/a"), Some(vec!["alive".to_string()]));
    }
}

#[test]
fn clock_is_past_the_epoch() {
    let t = unix_timestamp();
    assert!(t > 1_600_000_000);
    assert!(unix_timestamp() >= t);
}

#[test]
fn banner_takes_the_version_in_place() {
    assert_eq!(banner_text("Ver: %     |", "1.2.3"), Some("Ver: 1.2.3 |".to_string()));
    assert_eq!(banner_text("Ver: %|", "7"), Some("Ver: 7|".to_string()));
    assert_eq!(banner_text("a%bc%d", "xy"), Some("axyc%d".to_string()));
    assert_eq!(banner_text("Ver: %", "1.2.3"), Some("Ver: 1.2.3".to_string()));
    assert_eq!(banner_text("Ver: % ", "1.2.3"), Some("Ver: 1.2.3".to_string()));
    assert_eq!(banner_text("Ver: %.", ""), Some("Ver: .".to_string()));
    assert_eq!(banner_text("no mark", "1.2.3"), None);
    assert_eq!(banner_text("", "1"), None);
}

#[test]
fn clock_before_the_epoch_reads_zero() {
    assert_eq!(timestamp_of(None), 0);
    assert_eq!(timestamp_of(Some(0)), 0);
    assert_eq!(timestamp_of(Some(1_700_000_000)), 1_700_000_000);
    assert_eq!(timestamp_of(Some(u64::MAX)), u64::MAX);
}
