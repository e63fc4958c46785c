use pfm::config::Config;
use pfm::forward::{forward_arg, make_forward};
use pfm::port::{find_available_port, resolve_local_port};
use pfm::surface::{classify_kill_outcome, parse_index, parse_ports, KillOutcome};
use pfm::Error;

#[test]
fn parse_ports_pair_and_single() {
    assert_eq!(parse_ports("8080:80").unwrap(), (8080, 80));
    assert_eq!(parse_ports("3000").unwrap(), (3000, 3000));
    assert_eq!(parse_ports("1:65535").unwrap(), (1, 65535));
}

#[test]
fn parse_ports_rejects_bad_input() {
    assert_eq!(parse_ports("").unwrap_err(), Error::BadPortSpec);
    assert_eq!(parse_ports("0").unwrap_err(), Error::BadPortSpec);
    assert_eq!(parse_ports("0:80").unwrap_err(), Error::BadPortSpec);
    assert_eq!(parse_ports("+81").unwrap_err(), Error::BadPortSpec);
    assert_eq!(parse_ports("a:b").unwrap_err(), Error::BadPortSpec);
    assert_eq!(parse_ports("1:2:3").unwrap_err(), Error::BadPortSpec);
    assert_eq!(parse_ports(":80").unwrap_err(), Error::BadPortSpec);
    assert_eq!(parse_ports("70000").unwrap_err(), Error::BadPortSpec);
    assert_eq!(parse_ports("8080:").unwrap_err(), Error::BadPortSpec);
    assert_eq!(parse_ports("-1:2").unwrap_err(), Error::BadPortSpec);
}

#[test]
fn find_available_scans_upward() {
    let probe = |p: u16| p != 9000 && p != 9001;
    assert_eq!(find_available_port(9000, &probe), Some(9002));
    assert_eq!(find_available_port(9002, &probe), Some(9002));
    assert_eq!(find_available_port(65535, &|_p: u16| true), None);
    assert_eq!(find_available_port(65530, &|_p: u16| false), None);
}

#[test]
fn resolve_local_port_keeps_a_free_port() {
    assert_eq!(resolve_local_port(8080, &|_p: u16| true).unwrap(), (8080, false));
}

#[test]
fn resolve_local_port_remaps_a_busy_port() {
    let probe = |p: u16| p != 9000;
    assert_eq!(resolve_local_port(9000, &probe).unwrap(), (9001, true));
}

#[test]
fn resolve_local_port_gives_up_when_nothing_is_free() {
    assert_eq!(resolve_local_port(65534, &|_p: u16| false).unwrap_err(), Error::NoPortAvailable);
    assert_eq!(resolve_local_port(65535, &|_p: u16| false).unwrap_err(), Error::NoPortAvailable);
}

#[test]
fn parse_index_reads_decimal_indices() {
    assert_eq!(parse_index("7"), Some(7));
    assert_eq!(parse_index("007"), Some(7));
    assert_eq!(parse_index("+3"), Some(3));
    assert_eq!(parse_index("0"), Some(0));
    assert_eq!(parse_index("x"), None);
    assert_eq!(parse_index(""), None);
    assert_eq!(parse_index("1.5"), None);
    assert_eq!(parse_index("99999999999999999999999999"), None);
}

#[test]
fn resolve_targets_mixes_indices_ids_and_failures() {
    let mut c = Config::new();
    c.add_forward(make_forward("a.example", 1, 1, None));
    c.add_forward(make_forward("b.example", 2, 2, None));
    let tokens = vec![String::from("0"), String::from("zzz"), String::from("9")];
    let (ids, bad) = c.resolve_delete_targets(&tokens);
    assert_eq!(ids, vec![String::from("a.example_1_1"), String::from("zzz")]);
    assert_eq!(bad, vec![String::from("9")]);
}

#[test]
fn kill_success_is_stopped() {
    let r = classify_kill_outcome(true, "");
    assert_eq!(r, KillOutcome::Stopped);
    assert!(r.is_success());
}

#[test]
fn kill_of_an_exited_pid_is_not_an_error() {
    let r = classify_kill_outcome(false, "kill: (4242): No such process");
    assert_eq!(r, KillOutcome::AlreadyStopped);
    assert!(r.is_success());
}

#[test]
fn kill_failure_is_reported() {
    let r = classify_kill_outcome(false, "kill: (1): Operation not permitted");
    assert_eq!(r, KillOutcome::Failed);
    assert!(!r.is_success());
}

#[test]
fn forward_arg_names_loopback() {
    assert_eq!(forward_arg(8080, 80), "8080:localhost:80");
}
