//! The configuration that the gateway starts with, and the checks that it
//! has to pass before a request is served.

use crate::text::{last_of, last_position};
use vstd::prelude::*;
use vstd::string::*;

verus! {

/// The settings of the gateway, as the command line or a file gives them.
#[derive(Debug)]
pub struct AppConf {
    pub log_level: String,
    pub log_file: String,
    pub log_max: String,
    pub log_async: bool,
    pub no_console: bool,
    pub threads: String,
    pub listen: String,
    pub conn_timeout: String,
    pub gw_path: String,
}

impl Default for AppConf {
    fn default() -> (r: AppConf)
        ensures
            r.log_level@ == "info"@,
            r.log_file@ == Seq::<char>::empty(),
            r.log_max@ == "10m"@,
            !r.log_async,
            !r.no_console,
            r.threads@ == "1"@,
            r.listen@ == "127.0.0.1:3003"@,
            r.conn_timeout@ == "3"@,
            r.gw_path@ == "/api/gw"@,
    {
        AppConf {
            log_level: String::from_str("info"),
            log_file: String::new(),
            log_max: String::from_str("10m"),
            log_async: false,
            no_console: false,
            threads: String::from_str("1"),
            listen: String::from_str("127.0.0.1:3003"),
            conn_timeout: String::from_str("3"),
            gw_path: String::from_str("/api/gw"),
        }
    }
}

/// Whether `c` is one of the digits `0` to `9`.
pub open spec fn is_digit(c: char) -> bool {
    '0' as u32 <= c as u32 <= '9' as u32
}

/// The number that a digit stands for.
pub open spec fn digit_value(c: char) -> nat {
    (c as u32 - '0' as u32) as nat
}

/// Whether `s` holds digits only.
pub open spec fn all_digits(s: Seq<char>) -> bool {
    forall|i: int| 0 <= i < s.len() ==> is_digit(#[trigger] s[i])
}

/// The number that a run of digits stands for, read in base ten.
pub open spec fn decimal_value(s: Seq<char>) -> nat
    decreases s.len(),
{
    if s.len() == 0 {
        0
    } else {
        decimal_value(s.drop_last()) * 10 + digit_value(s.last())
    }
}

/// The digits of a number's text: the text without a leading plus sign.
pub open spec fn digits_of(s: Seq<char>) -> Seq<char> {
    if s.len() > 0 && s[0] == '+' {
        s.drop_first()
    } else {
        s
    }
}

/// The number that `s` stands for, if it is one and not above `max`: an
/// optional plus sign and at least one digit, nothing else.
pub open spec fn number_of(s: Seq<char>, max: nat) -> Option<nat> {
    let digits = digits_of(s);
    if digits.len() > 0 && all_digits(digits) && decimal_value(digits) <= max {
        Some(decimal_value(digits))
    } else {
        None
    }
}

/// A run of digits stands for no less than any of its beginnings.
pub proof fn lemma_decimal_value_grows(s: Seq<char>, k: int)
    requires
        0 <= k <= s.len(),
    ensures
        decimal_value(s.subrange(0, k)) <= decimal_value(s),
    decreases s.len() - k,
{
    if k == s.len() {
        assert(s.subrange(0, k) == s);
    } else {
        lemma_decimal_value_grows(s, k + 1);
        assert(s.subrange(0, k + 1).drop_last() == s.subrange(0, k));
    }
}

/// Reads a number not above `max` from its text in base ten.
pub fn parse_number(text: &str, max: u64) -> (r: Option<u64>)
    ensures
        match r {
            Some(n) => number_of(text@, max as nat) == Some(n as nat),
            None => number_of(text@, max as nat) is None,
        },
{
    let n: usize = text.unicode_len();
    let start: usize = if n > 0 && text.get_char(0) == '+' {
        1
    } else {
        0
    };
    let ghost digits = digits_of(text@);
    assert(digits == text@.subrange(start as int, n as int));
    if start == n {
        return None;
    }
    let mut value: u64 = 0;
    let mut i: usize = start;
    assert(digits.subrange(0, 0) =~= Seq::<char>::empty());
    while i < n
        invariant
            start <= i <= n,
            start < n,
            n == text@.len(),
            digits == text@.subrange(start as int, n as int),
            digits == digits_of(text@),
            all_digits(digits.subrange(0, i - start)),
            value == decimal_value(digits.subrange(0, i - start)),
            value <= max,
        decreases n - i,
    {
        let c: u32 = text.get_char(i) as u32;
        let ghost seen = digits.subrange(0, i - start);
        let ghost next = digits.subrange(0, i - start + 1);
        proof {
            assert(next.drop_last() =~= seen);
            assert(next.last() == text@[i as int]);
        }
        if c < 48 || c > 57 {
            proof {
                assert(!is_digit(digits[i - start]));
            }
            return None;
        }
        let d: u64 = (c - 48) as u64;
        proof {
            assert(d == digit_value(text@[i as int]));
            assert(decimal_value(next) == value * 10 + d);
            lemma_decimal_value_grows(digits, i - start + 1);
        }
        if d > max || value > (max - d) / 10 {
            proof {
                assert(value * 10 + d > max) by (nonlinear_arith)
                    requires
                        d > max || (d <= max && value > (max - d) / 10),
                        value >= 0,
                        d >= 0,
                ;
            }
            return None;
        }
        proof {
            assert(value * 10 + d <= max) by (nonlinear_arith)
                requires
                    d <= max,
                    value <= (max - d) / 10,
            ;
            assert forall|j: int| 0 <= j < next.len() implies is_digit(#[trigger] next[j]) by {
                if j < seen.len() {
                    assert(seen[j] == next[j]);
                }
            }
        }
        value = value * 10 + d;
        i = i + 1;
    }
    assert(digits.subrange(0, n - start) =~= digits);
    Some(value)
}

/// The address to listen on: an address that is a port alone, written with
/// a leading colon, stands for that port on every interface.
pub open spec fn listen_on(listen: Seq<char>) -> Seq<char> {
    if listen.len() > 0 && listen[0] == ':' {
        "0.0.0.0"@ + listen
    } else {
        listen
    }
}

/// Completes the address to listen on.
pub fn listen_address(listen: &str) -> (r: String)
    ensures
        r@ == listen_on(listen@),
{
    if listen.unicode_len() > 0 && listen.get_char(0) == ':' {
        String::from_str("0.0.0.0").concat(listen)
    } else {
        String::from_str(listen)
    }
}

/// The highest port there is.
pub const MAX_PORT: u64 = 65535;

/// The port of an address to listen on: the number behind its last colon,
/// where something stands before that colon.
pub open spec fn listen_port(listen: Seq<char>) -> Option<nat> {
    match last_of(listen, ':') {
        Some(i) => if i > 0 {
            number_of(listen.subrange(i + 1, listen.len() as int), MAX_PORT as nat)
        } else {
            None
        },
        None => None,
    }
}

/// Reads the port of an address to listen on.
pub fn port_of(listen: &str) -> (r: Option<u16>)
    ensures
        match r {
            Some(port) => listen_port(listen@) == Some(port as nat),
            None => listen_port(listen@) is None,
        },
{
    let n: usize = listen.unicode_len();
    match last_position(listen, ':') {
        Some(i) => if i > 0 {
            match parse_number(listen.substring_char(i + 1, n), MAX_PORT) {
                Some(port) => Some(port as u16),
                None => None,
            }
        } else {
            None
        },
        None => None,
    }
}

/// Why the gateway does not start.
#[derive(Clone, Copy, Debug, PartialEq, Eq, Structural)]
pub enum StartupConfigError {
    /// The connect timeout is not a number of seconds.
    ConnectTimeout,
    /// The address to listen on has no host or no port.
    Listen,
    /// The number of threads is not a number.
    Threads,
    /// The number of threads is one that the build does not support.
    ThreadCount,
}

impl StartupConfigError {
    /// The message that the failed start is reported with.
    pub fn message(&self) -> (r: String)
        ensures
            r@ == match *self {
                StartupConfigError::ConnectTimeout => "argument conn-timeout is malformed"@,
                StartupConfigError::Listen => "argument listen is malformed"@,
                StartupConfigError::Threads => "argument threads is malformed"@,
                StartupConfigError::ThreadCount => "the number of threads is out of range"@,
            },
    {
        match self {
            StartupConfigError::ConnectTimeout => String::from_str(
                "argument conn-timeout is malformed",
            ),
            StartupConfigError::Listen => String::from_str("argument listen is malformed"),
            StartupConfigError::Threads => String::from_str("argument threads is malformed"),
            StartupConfigError::ThreadCount => String::from_str(
                "the number of threads is out of range",
            ),
        }
    }
}

/// The most threads that a build with several threads runs.
pub const MAX_THREADS: usize = 256;

/// What the gateway starts with, once its settings have been checked.
#[derive(Debug)]
pub struct Startup {
    /// The connect timeout of the upstream client, in seconds.
    pub connect_timeout: u32,
    /// The number of worker threads; 0 leaves the choice to the runtime.
    pub threads: usize,
    /// The address to listen on.
    pub listen: String,
    /// The port of that address.
    pub port: u16,
    /// The prefix of the management interface, with its closing slash.
    pub gw_prefix: String,
}

/// Whether a build runs with `threads` threads: one that has a single
/// thread with exactly 1, one that has several with at most `MAX_THREADS`.
pub open spec fn threads_allowed(threads: nat, multi_thread: bool) -> bool {
    if multi_thread {
        threads <= MAX_THREADS
    } else {
        threads == 1
    }
}

/// What the checks make of the settings: the connect timeout, the port and
/// the number of threads.
pub struct Checked {
    pub connect_timeout: nat,
    pub port: nat,
    pub threads: nat,
}

/// The settings that pass the checks, or the first check that fails: the
/// connect timeout, then the address to listen on, then the number of
/// threads, then its range.
pub open spec fn checked(
    conn_timeout: Seq<char>,
    listen: Seq<char>,
    threads: Seq<char>,
    multi_thread: bool,
) -> Result<Checked, StartupConfigError> {
    match number_of(conn_timeout, u32::MAX as nat) {
        None => Err(StartupConfigError::ConnectTimeout),
        Some(connect_timeout) => match listen_port(listen_on(listen)) {
            None => Err(StartupConfigError::Listen),
            Some(port) => match number_of(threads, usize::MAX as nat) {
                None => Err(StartupConfigError::Threads),
                Some(count) => if threads_allowed(count, multi_thread) {
                    Ok(Checked { connect_timeout, port, threads: count })
                } else {
                    Err(StartupConfigError::ThreadCount)
                },
            },
        },
    }
}

/// Checks the settings that the gateway cannot start without and completes
/// the others. Of the address to listen on it checks that it has a host and
/// a port; whether the host is an address of this machine is left to the
/// server.
pub fn startup(conf: &AppConf, multi_thread: bool) -> (r: Result<Startup, StartupConfigError>)
    ensures
        match r {
            Ok(s) => {
                &&& checked(conf.conn_timeout@, conf.listen@, conf.threads@, multi_thread) == Ok::<
                    Checked,
                    StartupConfigError,
                >(
                    (Checked {
                        connect_timeout: s.connect_timeout as nat,
                        port: s.port as nat,
                        threads: s.threads as nat,
                    }),
                )
                &&& s.listen@ == listen_on(conf.listen@)
                &&& s.gw_prefix@ == conf.gw_path@ + "/"@
            },
            Err(e) => checked(conf.conn_timeout@, conf.listen@, conf.threads@, multi_thread) == Err::<
                Checked,
                StartupConfigError,
            >(e),
        },
{
    let timeout: u32 = match parse_number(conf.conn_timeout.as_str(), u32::MAX as u64) {
        Some(t) => t as u32,
        None => {
            return Err(StartupConfigError::ConnectTimeout);
        },
    };
    let listen = listen_address(conf.listen.as_str());
    let port: u16 = match port_of(listen.as_str()) {
        Some(p) => p,
        None => {
            return Err(StartupConfigError::Listen);
        },
    };
    let threads: usize = match parse_number(conf.threads.as_str(), usize::MAX as u64) {
        Some(t) => t as usize,
        None => {
            return Err(StartupConfigError::Threads);
        },
    };
    let allowed = if multi_thread {
        threads <= MAX_THREADS
    } else {
        threads == 1
    };
    if !allowed {
        return Err(StartupConfigError::ThreadCount);
    }
    Ok(
        Startup {
            connect_timeout: timeout,
            threads,
            listen,
            port,
            gw_prefix: conf.gw_path.clone().concat("/"),
        },
    )
}

/// Whether the first `mark` of `s` stands at `i`.
pub open spec fn is_first(s: Seq<char>, mark: char, i: int) -> bool {
    &&& 0 <= i < s.len()
    &&& s[i] == mark
    &&& forall|j: int| 0 <= j < i ==> s[j] != mark
}

/// The banner with the version written over the percent sign at `i` and
/// over as many of the characters behind it as the version is longer than
/// that sign, so that what follows keeps its column.
pub open spec fn banner_with(template: Seq<char>, version: Seq<char>, i: int) -> Seq<char> {
    let covered = if version.len() > 0 {
        version.len() - 1
    } else {
        0
    };
    let resume = if i + 1 + covered <= template.len() {
        i + 1 + covered
    } else {
        template.len() as int
    };
    template.subrange(0, i) + version + template.subrange(resume, template.len() as int)
}

/// Writes the version into a banner at its first percent sign. A banner
/// without a percent sign gives `None`.
pub fn banner_text(template: &str, version: &str) -> (r: Option<String>)
    ensures
        match r {
            Some(text) => exists|i: int|
                is_first(template@, '%', i) && text@ == banner_with(template@, version@, i),
            None => forall|i: int| 0 <= i < template@.len() ==> template@[i] != '%',
        },
{
    let n: usize = template.unicode_len();
    let mut i: usize = 0;
    while i < n && template.get_char(i) != '%'
        invariant
            i <= n,
            n == template@.len(),
            forall|j: int| 0 <= j < i ==> template@[j] != '%',
        decreases n - i,
    {
        i = i + 1;
    }
    if i == n {
        return None;
    }
    let len: usize = version.unicode_len();
    let covered: usize = if len > 0 {
        len - 1
    } else {
        0
    };
    let resume: usize = if covered <= n - (i + 1) {
        i + 1 + covered
    } else {
        n
    };
    let mut text = String::from_str(template.substring_char(0, i));
    text.append(version);
    text.append(template.substring_char(resume, n));
    assert(is_first(template@, '%', i as int));
    Some(text)
}

} // verus!
