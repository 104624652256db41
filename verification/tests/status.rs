use egress_resolver::addr::Ipv4Addr;
use egress_resolver::answers::Outcome;
use egress_resolver::fresh::{carry_forward, FreshTimes};
use egress_resolver::plan::{NameState, Source};
use egress_resolver::status::{PrevStatus, ShownTimes, Status, SCHEMA};
use egress_resolver::secs::Secs;

fn ip(s: &str) -> Ipv4Addr {
    Ipv4Addr::parse(s).unwrap()
}

fn at(secs: f64) -> Secs {
    Secs { bits: secs.to_bits() }
}

fn shown(st: &Status) -> ShownTimes {
    let generated = f64::from_bits(st.generated_uptime_secs.bits);
    ShownTimes {
        generated: generated.to_string(),
        ages: st
            .last_fresh_uptime_secs
            .list()
            .iter()
            .map(|(_, t)| (generated - f64::from_bits(t.bits)).max(0.0).to_string())
            .collect(),
    }
}

fn status() -> Status {
    Status {
        schema: SCHEMA,
        boot_id: "b".to_string(),
        generated_uptime_secs: at(12.5),
        answers_uptime_secs: Some(at(12.0)),
        applied_answers_uptime_secs: Some(at(12.0)),
        mode: "production".to_string(),
        apply_ok: true,
        hosts_ok: true,
        conntrack_ok: false,
        required_satisfied: true,
        required_fresh: true,
        last_fresh_uptime_secs: FreshTimes::new().with("rpc.buildernet.org".to_string(), at(10.0)),
        endpoints: vec![NameState {
            name: "rpc.buildernet.org".to_string(),
            required: true,
            outcome: Outcome::Resolved,
            source: Source::Fresh,
            addrs: vec![ip("200.225.47.181")],
            error: None,
        }],
        production: vec![ip("200.225.47.181")],
        maintenance: vec![ip("200.225.47.181")],
        added: vec![],
        removed: vec![],
        killed: vec![],
        kill_failed: vec![ip("198.203.203.37")],
        errors: vec!["conntrack -D 198.203.203.37: status 2".to_string()],
    }
}

#[test]
fn metrics_and_json_render() {
    let st = status();
    assert!(!st.all_ok());
    let m = st.to_metrics(&shown(&st));
    assert!(m.contains("egress_resolver_mode{mode=\"production\"} 1\n"));
    assert!(m.contains("egress_resolver_mode{mode=\"maintenance\"} 0\n"));
    assert!(m.contains("egress_resolver_endpoint_addresses{name=\"rpc.buildernet.org\"} 1\n"));
    assert!(m.contains("egress_resolver_required_satisfied 1\n"));
    assert!(m.contains("egress_resolver_required_fresh 1\n"));
    assert!(m.contains("egress_resolver_conntrack_ok 0\n"));
    assert!(m.contains("egress_resolver_kill_failed 1\n"));
    assert!(m.contains(
        "egress_resolver_endpoint_fresh_age_seconds{name=\"rpc.buildernet.org\"} 2.5\n"
    ));
    // The text format allows exactly one HELP/TYPE header per metric family;
    // node-exporter drops the whole file otherwise.
    let mut help_names: Vec<&str> = m
        .lines()
        .filter_map(|l| l.strip_prefix("# HELP "))
        .map(|l| l.split(' ').next().unwrap())
        .collect();
    let total = help_names.len();
    assert_eq!(total, 14);
    help_names.sort_unstable();
    help_names.dedup();
    assert_eq!(help_names.len(), total, "duplicate HELP headers:\n{m}");
    // samples of a family must directly follow its header (no interleaving)
    let mut current = "";
    for line in m.lines() {
        if let Some(rest) = line.strip_prefix("# HELP ") {
            current = rest.split(' ').next().unwrap();
        } else if !line.starts_with('#') {
            assert!(
                line.starts_with(current),
                "sample {line:?} outside family {current:?}"
            );
        }
    }
}

#[test]
fn the_metrics_text_is_exact() {
    let mut st = status();
    st.endpoints[0].source = Source::LastKnownGood;
    st.last_fresh_uptime_secs = FreshTimes::new()
        .with("z.example".to_string(), at(20.0))
        .with("a.example".to_string(), at(12.25));
    let expected = "\
# HELP egress_resolver_last_run_uptime_seconds System uptime when egress-resolver last ran.
# TYPE egress_resolver_last_run_uptime_seconds gauge
egress_resolver_last_run_uptime_seconds 12.5
# HELP egress_resolver_apply_ok 1 if the firewall chains hold the planned policy.
# TYPE egress_resolver_apply_ok gauge
egress_resolver_apply_ok 1
# HELP egress_resolver_hosts_ok 1 if the container hosts file was written from the installed policy.
# TYPE egress_resolver_hosts_ok gauge
egress_resolver_hosts_ok 1
# HELP egress_resolver_conntrack_ok 1 if every attempted conntrack deletion succeeded.
# TYPE egress_resolver_conntrack_ok gauge
egress_resolver_conntrack_ok 0
# HELP egress_resolver_required_satisfied 1 if every required endpoint has an installed, published address.
# TYPE egress_resolver_required_satisfied gauge
egress_resolver_required_satisfied 1
# HELP egress_resolver_required_fresh 1 if every required endpoint was resolved by a fresh authenticated answer in the last run.
# TYPE egress_resolver_required_fresh gauge
egress_resolver_required_fresh 1
# HELP egress_resolver_production_addresses Addresses currently allowed in production mode.
# TYPE egress_resolver_production_addresses gauge
egress_resolver_production_addresses 1
# HELP egress_resolver_maintenance_addresses Addresses dropped in maintenance mode (seen since boot).
# TYPE egress_resolver_maintenance_addresses gauge
egress_resolver_maintenance_addresses 1
# HELP egress_resolver_kill_failed Destinations whose conntrack deletion failed in the last run.
# TYPE egress_resolver_kill_failed gauge
egress_resolver_kill_failed 1
# HELP egress_resolver_errors Number of errors recorded in the last run.
# TYPE egress_resolver_errors gauge
egress_resolver_errors 1
# HELP egress_resolver_mode Current searcher network mode (1 for the active one).
# TYPE egress_resolver_mode gauge
egress_resolver_mode{mode=\"production\"} 1
egress_resolver_mode{mode=\"maintenance\"} 0
egress_resolver_mode{mode=\"stopped\"} 0
# HELP egress_resolver_endpoint_addresses Addresses for an endpoint name.
# TYPE egress_resolver_endpoint_addresses gauge
egress_resolver_endpoint_addresses{name=\"rpc.buildernet.org\"} 1
# HELP egress_resolver_endpoint_fresh 1 if the endpoint's addresses come from a fresh authenticated answer.
# TYPE egress_resolver_endpoint_fresh gauge
egress_resolver_endpoint_fresh{name=\"rpc.buildernet.org\"} 0
# HELP egress_resolver_endpoint_fresh_age_seconds Seconds since the endpoint's installed addresses last came from a fresh answer (absent if never this boot).
# TYPE egress_resolver_endpoint_fresh_age_seconds gauge
egress_resolver_endpoint_fresh_age_seconds{name=\"a.example\"} 0.25
egress_resolver_endpoint_fresh_age_seconds{name=\"z.example\"} 0
";
    assert_eq!(st.to_metrics(&shown(&st)), expected);
}

#[test]
fn prev_status_loads_only_from_this_boot() {
    let parsed = || PrevStatus {
        boot_id: "b1".to_string(),
        answers_uptime_secs: Some(at(100.5)),
        applied_answers_uptime_secs: None,
        last_fresh_uptime_secs: FreshTimes::new().with("rpc.buildernet.org".to_string(), at(99.0)),
    };
    let prev = PrevStatus::load(Some(parsed()), "b1").unwrap();
    assert_eq!(prev.answers_uptime_secs, Some(at(100.5)));
    assert_eq!(
        prev.last_fresh_uptime_secs.get("rpc.buildernet.org"),
        Some(at(99.0))
    );
    assert!(PrevStatus::load(Some(parsed()), "b2").is_none(), "other boot ignored");
    // older schema without the new fields still loads
    let old = PrevStatus { boot_id: "b1".to_string(), ..PrevStatus::default() };
    let prev = PrevStatus::load(Some(old), "b1").unwrap();
    assert!(prev.answers_uptime_secs.is_none() && prev.last_fresh_uptime_secs.list().is_empty());
    assert!(PrevStatus::load(None, "b1").is_none());
}

#[test]
fn fresh_times_are_carried_forward() {
    let state = |name: &str, source: Source| NameState {
        name: name.to_string(),
        required: false,
        outcome: Outcome::Transient,
        source,
        addrs: vec![],
        error: None,
    };
    let prev = FreshTimes::new()
        .with("kept".to_string(), at(1.0))
        .with("dropped".to_string(), at(2.0))
        .with("renewed".to_string(), at(3.0))
        .with("renewed".to_string(), at(4.0));
    assert_eq!(prev.get("renewed"), Some(at(4.0)));
    let names = vec![
        state("renewed", Source::Fresh),
        state("kept", Source::LastKnownGood),
        state("never", Source::Missing),
        state("cleared", Source::Empty),
    ];
    let next = carry_forward(&prev, &names, at(9.0));
    let listed: Vec<(&str, Secs)> =
        next.list().iter().map(|(n, t)| (n.as_str(), *t)).collect();
    assert_eq!(
        listed,
        vec![("cleared", at(9.0)), ("kept", at(1.0)), ("renewed", at(9.0))]
    );
}

#[test]
fn times_are_shown_as_given() {
    let mut st = status();
    st.generated_uptime_secs = at(100.3);
    st.last_fresh_uptime_secs = FreshTimes::new().with("rpc.buildernet.org".to_string(), at(50.1));
    let m = st.to_metrics(&shown(&st));
    assert!(m.contains("egress_resolver_last_run_uptime_seconds 100.3\n"));
    assert!(m.contains(
        "egress_resolver_endpoint_fresh_age_seconds{name=\"rpc.buildernet.org\"} 50.199999999999996\n"
    ));
}
