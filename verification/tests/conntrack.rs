use egress_resolver::addr::Ipv4Addr;
use egress_resolver::addr_map::AddrMap;
use egress_resolver::conntrack::{
    deleted_nothing, interpret_kill, kill, kill_set, CONNTRACK, NO_MATCH_SUMMARY,
};
use egress_resolver::exec::Output;
use egress_resolver::fake::FakeExec;
use egress_resolver::name_set::NameSet;

fn ip(s: &str) -> Ipv4Addr {
    Ipv4Addr::parse(s).unwrap()
}

fn map(v: &[&str]) -> AddrMap {
    let mut m = AddrMap::new();
    for a in v {
        m = m.with(ip(a), &NameSet::new());
    }
    m
}

#[test]
fn production_kills_only_retired_addresses() {
    let prod = map(&["200.225.47.181", "35.213.62.127"]);
    let maint = map(&["200.225.47.181", "35.213.62.127", "198.203.203.37"]);
    assert_eq!(
        kill_set("production", &prod, &maint),
        vec![ip("198.203.203.37")]
    );
}

#[test]
fn maintenance_and_stopped_kill_everything_seen() {
    let prod = map(&["200.225.47.181"]);
    let maint = map(&["200.225.47.181", "198.203.203.37"]);
    let expected = vec![ip("198.203.203.37"), ip("200.225.47.181")];
    assert_eq!(kill_set("maintenance", &prod, &maint), expected);
    assert_eq!(kill_set("stopped", &prod, &maint), expected);
    assert_eq!(kill_set("", &prod, &maint), expected);
}

#[test]
fn kill_runs_one_destination_delete_per_address_and_tolerates_no_match() {
    let mut ex = FakeExec::default()
        .respond_stderr(
            1,
            "conntrack v1.4.8 (conntrack-tools): 0 flow entries have been deleted.\n",
        )
        .respond_stderr(
            0,
            "conntrack v1.4.8 (conntrack-tools): 2 flow entries have been deleted.\n",
        );
    let failed = kill(&mut ex, &[ip("1.1.1.1"), ip("2.2.2.2")]);
    assert!(failed.is_empty(), "{failed:?}");
    assert_eq!(ex.calls.len(), 2);
    assert_eq!(ex.calls[0].args, vec!["-D", "-d", "1.1.1.1"]);
    assert_eq!(ex.calls[0].program, CONNTRACK);
    assert_eq!(ex.calls[1].args, vec!["-D", "-d", "2.2.2.2"]);
    assert_eq!(ex.calls[1].stdin, None);
}

#[test]
fn kill_treats_exit_1_without_no_match_summary_as_failure() {
    // conntrack exits 1 for operational errors too
    let mut ex = FakeExec::default()
        .respond_stderr(
            1,
            "conntrack v1.4.8 (conntrack-tools): Operation failed: No such file or directory\n",
        )
        .respond(1, "");
    let failed = kill(&mut ex, &[ip("1.1.1.1"), ip("2.2.2.2")]);
    assert_eq!(failed.len(), 2, "{failed:?}");
    assert!(failed[0].1.contains("Operation failed"));
    assert_eq!(failed[1], (ip("2.2.2.2"), "status 1: ".to_string()));
}

#[test]
fn kill_reports_other_exit_codes_as_failures() {
    let mut ex = FakeExec::default().respond(2, "");
    let failed = kill(&mut ex, &[ip("1.1.1.1")]);
    assert_eq!(failed.len(), 1);
    assert_eq!(failed[0].0, ip("1.1.1.1"));
}

#[test]
fn the_summary_counts_on_either_stream() {
    let out = Output {
        status: 1,
        stdout: format!("{NO_MATCH_SUMMARY}."),
        stderr: String::new(),
    };
    assert!(deleted_nothing(&out));
    assert_eq!(interpret_kill(Ok(out)), None);
    let out = Output {
        status: -9,
        stdout: format!("{NO_MATCH_SUMMARY}."),
        stderr: " killed \n".to_string(),
    };
    assert_eq!(interpret_kill(Ok(out)), Some("status -9: killed".to_string()));
    assert_eq!(
        interpret_kill(Err("not found".to_string())),
        Some("not found".to_string())
    );
}

#[test]
fn nothing_known_means_nothing_to_kill() {
    assert!(kill_set("production", &map(&["1.1.1.1"]), &map(&[])).is_empty());
    let mut ex = FakeExec::new();
    assert!(kill(&mut ex, &[]).is_empty());
    assert!(ex.calls.is_empty());
}

#[test]
fn a_summary_of_ten_deleted_entries_is_no_zero() {
    let summary = |n: &str| Output {
        status: 1,
        stdout: String::new(),
        stderr: format!("conntrack v1.4.8 (conntrack-tools): {n} flow entries have been deleted.\n"),
    };
    assert!(deleted_nothing(&summary("0")));
    assert!(!deleted_nothing(&summary("10")));
    assert!(!deleted_nothing(&summary("1")));
    assert!(!deleted_nothing(&summary("100")));
    assert!(deleted_nothing(&summary("10 of 20, 0")));
    let on_stdout = Output {
        status: 1,
        stdout: NO_MATCH_SUMMARY.to_string(),
        stderr: summary("10").stderr,
    };
    assert!(deleted_nothing(&on_stdout));
    let ten = "conntrack v1.4.8 (conntrack-tools): 10 flow entries have been deleted.";
    let mut ex = FakeExec::default().respond_stderr(1, ten).respond_stderr(0, ten);
    let failed = kill(&mut ex, &[ip("1.1.1.1"), ip("2.2.2.2")]);
    assert_eq!(failed, vec![(ip("1.1.1.1"), format!("status 1: {ten}"))]);
}
