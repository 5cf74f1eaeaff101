use ovs_unixctl::error::Error;
use ovs_unixctl::locator;
use ovs_unixctl::loopback::ScriptTransport;
use ovs_unixctl::ovs::{parse_command_listing, parse_version_banner, OvsUnixCtl};

fn ctl_with(replies: Vec<&str>) -> OvsUnixCtl<ScriptTransport> {
    let owned: Vec<String> = replies.into_iter().map(|s| s.to_string()).collect();
    OvsUnixCtl::new(ScriptTransport::new(owned))
}

#[test]
fn locate_scenario() {
    // /tmp/x/daemon.pid holding "4242\n" names /tmp/x/daemon.4242.ctl.
    assert_eq!(
        locator::pidfile_path("/tmp/x", "daemon"),
        "/tmp/x/daemon.pid"
    );
    let sock = locator::socket_path_from_pidfile("/tmp/x", "daemon", "4242\n").unwrap();
    assert_eq!(sock, "/tmp/x/daemon.4242.ctl");
    let found = locator::socket_lookup(sock, true).unwrap();
    assert_eq!(found, "/tmp/x/daemon.4242.ctl");
}

#[test]
fn locate_empty_pidfile_is_protocol_error() {
    let err = locator::socket_path_from_pidfile("/tmp/x", "daemon", " \t\n").unwrap_err();
    assert!(matches!(err, Error::Protocol(_)));
}

#[test]
fn locate_missing_socket_is_socket_error() {
    let err = locator::socket_lookup("/tmp/x/daemon.1.ctl".to_string(), false).unwrap_err();
    assert!(matches!(err, Error::Socket(_)));
}

#[test]
fn path_join_handles_separators() {
    assert_eq!(locator::path_join("/run", "a.pid"), "/run/a.pid");
    assert_eq!(locator::path_join("/run/", "a.pid"), "/run/a.pid");
    assert_eq!(locator::path_join("", "a.pid"), "a.pid");
    assert_eq!(locator::default_run_dir(), "/var/run/openvswitch");
}

#[test]
fn trim_strips_both_ends() {
    assert_eq!(locator::trim_str("  4242 \n"), "4242");
    assert_eq!(locator::trim_str("4242"), "4242");
    assert_eq!(locator::trim_str(" \t\r\n"), "");
    assert_eq!(locator::trim_str("a b"), "a b");
}

#[test]
fn list_commands() {
    let mut ovs = ctl_with(vec![
        r#"{"result":"The available commands are:\n  list-commands\n  dpif-netdev/bond-show [dp]\n  version\n","error":null,"id":1}"#,
    ]);
    let cmds = ovs.list_commands().unwrap();
    assert!(cmds.iter().any(|(cmd, _args)| cmd == "list-commands"));
    assert!(cmds
        .iter()
        .any(|(cmd, args)| (cmd, args) == (&"dpif-netdev/bond-show".to_string(), &"[dp]".to_string())));
}

#[test]
fn list_commands_without_banner_fails() {
    let mut ovs = ctl_with(vec![r#"{"result":"something else","error":null,"id":1}"#]);
    assert!(matches!(ovs.list_commands().unwrap_err(), Error::Protocol(_)));
}

#[test]
fn list_commands_without_result_fails() {
    let mut ovs = ctl_with(vec![r#"{"result":null,"error":null,"id":1}"#]);
    assert!(matches!(ovs.list_commands().unwrap_err(), Error::Protocol(_)));
}

#[test]
fn parse_command_listing_splits_lines() {
    let listing = "The available commands are:\n  one\n  two a [b]\n";
    let cmds = parse_command_listing(listing).unwrap();
    assert_eq!(cmds.len(), 2);
    assert_eq!(cmds[0], ("one".to_string(), "".to_string()));
    assert_eq!(cmds[1], ("two".to_string(), "a [b]".to_string()));
}

#[test]
fn version() {
    let mut ovs = ctl_with(vec![
        r#"{"result":"ovs-vswitchd (Open vSwitch) 3.3.0","error":null,"id":1}"#,
    ]);
    let (x, y, z, patch) = ovs.version().unwrap();
    assert_eq!((x, y, z), (3, 3, 0));
    assert_eq!(patch, "");
    assert!(x + y + z > 0);
}

#[test]
fn version_with_patch_tail() {
    let parsed = parse_version_banner("ovs-vswitchd (Open vSwitch) 2.17.9-3.el9").unwrap();
    assert_eq!(parsed, (2, 17, 9, "3.el9".to_string()));
}

#[test]
fn version_rejects_unexpected_banners() {
    for text in [
        "something else",
        "ovs-vswitchd (Open vSwitch) ",
        "ovs-vswitchd (Open vSwitch) 3.3",
        "ovs-vswitchd (Open vSwitch) a.b.c",
        "ovs-vswitchd (Open vSwitch) 3.3.99999999999",
    ] {
        let err = parse_version_banner(text).unwrap_err();
        assert!(matches!(err, Error::Protocol(_)), "accepted: {}", text);
    }
}

#[test]
fn vlog() {
    let vlog_listing = r#"{"result":"module     console    syslog    file\n---------  -------    ------    ----\nbacktrace  OFF        ERR       INFO\nunixctl    OFF        ERR       INFO\n","error":null,"id":1}"#;
    let vlog_listing_after = r#"{"result":"module     console    syslog    file\n---------  -------    ------    ----\nbacktrace  OFF        ERR       INFO\nunixctl    OFF        ERR       DBG\n","error":null,"id":3}"#;
    let mut ovs = ctl_with(vec![
        vlog_listing,
        r#"{"result":"","error":null,"id":2}"#,
        vlog_listing_after,
    ]);

    let vlog = ovs.run("vlog/list", Vec::new()).unwrap().unwrap();
    assert_eq!(get_vlog_level(vlog, "unixctl"), "INFO");

    ovs.run("vlog/set", vec!["unixctl:dbg".to_string()]).unwrap();

    let vlog = ovs.run("vlog/list", Vec::new()).unwrap().unwrap();
    assert_eq!(get_vlog_level(vlog, "unixctl"), "DBG");
}

fn get_vlog_level(vlog: String, name: &str) -> String {
    let levels: Vec<(&str, &str)> = vlog
        .lines()
        .skip(2)
        .map(|l| {
            let parts = l.split_whitespace().collect::<Vec<&str>>();
            assert_eq!(parts.len(), 4);
            (parts[0], parts[3])
        })
        .collect();
    let (_, level) = levels.iter().find(|(module, _)| *module == name).unwrap();
    level.to_string()
}
