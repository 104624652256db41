use egress_resolver::addr::Ipv4Addr;
use egress_resolver::answers::{Answers, NameResult, Outcome};
use egress_resolver::config::{Config, Endpoint, FirewallConfig, ResolverConfig};
use egress_resolver::iptables::{entries_to_map, RuleEntry};
use egress_resolver::name_set::name_set;
use egress_resolver::plan::{
    compute, names_from_kernel, required_fresh, required_satisfied, NameState, Plan, Source,
};
use egress_resolver::secs::Secs;

fn cfg() -> Config {
    let endpoint = |name: &str, required: bool| Endpoint { name: name.to_string(), required };
    Config::parse(Ok(Config {
        resolver: ResolverConfig {
            servers: vec![ip("1.1.1.1")],
            server_name: "cloudflare-dns.com".to_string(),
            port: 853,
            timeout_secs: 5,
            attempts: 3,
            deadline_secs: 30,
            require_authenticated: true,
        },
        firewall: FirewallConfig {
            production_chain: "P".to_string(),
            maintenance_chain: "M".to_string(),
            port: 443,
            max_addresses: 4,
        },
        endpoints: vec![
            endpoint("rpc.buildernet.org", true),
            endpoint("direct-us.buildernet.org", false),
            endpoint("direct-ap.buildernet.org", false),
        ],
        static_hosts: vec![],
    }))
    .unwrap()
}

fn ip(s: &str) -> Ipv4Addr {
    Ipv4Addr::parse(s).unwrap()
}

fn ok(name: &str, addrs: &[&str]) -> NameResult {
    NameResult {
        name: name.to_string(),
        outcome: Outcome::Resolved,
        addrs: addrs.iter().map(|a| ip(a)).collect(),
        min_ttl: Some(300),
        server: Some("1.1.1.1".to_string()),
        error: None,
    }
}

fn transient(name: &str) -> NameResult {
    NameResult {
        name: name.to_string(),
        outcome: Outcome::Transient,
        addrs: vec![],
        min_ttl: None,
        server: None,
        error: Some("SERVFAIL".to_string()),
    }
}

fn empty(name: &str) -> NameResult {
    NameResult {
        name: name.to_string(),
        outcome: Outcome::Empty,
        addrs: vec![],
        min_ttl: None,
        server: Some("1.1.1.1".to_string()),
        error: Some("NXDOMAIN".to_string()),
    }
}

fn answers(results: Vec<NameResult>) -> Answers {
    Answers {
        schema: 1,
        generated_uptime_secs: Secs { bits: 100.0f64.to_bits() },
        results,
    }
}

fn entry(ipv4: &str, names: &[&str]) -> RuleEntry {
    RuleEntry {
        ip: ip(ipv4),
        names: name_set(names.iter().map(|s| s.to_string()).collect()),
    }
}

fn state<'a>(p: &'a Plan, name: &str) -> &'a NameState {
    p.names.iter().find(|n| n.name == name).unwrap()
}

#[test]
fn fresh_answers_build_union_and_maintenance_grows() {
    let a = answers(vec![
        ok("rpc.buildernet.org", &["200.225.47.181", "200.225.47.183"]),
        ok("direct-us.buildernet.org", &["200.225.47.181", "200.225.47.183"]),
        ok("direct-ap.buildernet.org", &["35.213.62.127"]),
    ]);
    let current_maint = vec![entry("198.203.203.37", &["direct-ap.buildernet.org"])];
    let p = compute(&cfg(), &a, &[], &current_maint);
    assert!(p.error.is_none());
    assert_eq!(p.production.len(), 3);
    assert_eq!(
        p.production.get(ip("200.225.47.181")).unwrap().list(),
        &vec!["direct-us.buildernet.org", "rpc.buildernet.org"]
    );
    // retired IP stays dropped; new ones are added
    assert_eq!(p.maintenance.len(), 4);
    assert!(p.maintenance.contains_key(ip("198.203.203.37")));
    assert_eq!(p.added.len(), 3);
    assert!(p.removed.is_empty());
    assert!(p.required_satisfied());
    assert!(p.names.iter().all(|n| n.source == Source::Fresh));
}

#[test]
fn transient_failure_keeps_last_known_good_per_name() {
    let current_prod = vec![
        entry("200.225.47.181", &["rpc.buildernet.org", "direct-us.buildernet.org"]),
        entry("34.104.157.101", &["direct-ap.buildernet.org"]),
    ];
    let a = answers(vec![
        ok("rpc.buildernet.org", &["200.225.47.181"]),
        ok("direct-us.buildernet.org", &["200.225.47.181"]),
        transient("direct-ap.buildernet.org"),
    ]);
    let p = compute(&cfg(), &a, &current_prod, &current_prod);
    let ap = state(&p, "direct-ap.buildernet.org");
    assert_eq!(ap.source, Source::LastKnownGood);
    assert_eq!(ap.addrs, vec![ip("34.104.157.101")]);
    assert_eq!(ap.error.as_deref(), Some("SERVFAIL"));
    assert!(p.production.contains_key(ip("34.104.157.101")));
    assert!(p.added.is_empty() && p.removed.is_empty());
}

#[test]
fn transient_failure_without_history_is_missing() {
    let a = answers(vec![
        transient("rpc.buildernet.org"),
        ok("direct-us.buildernet.org", &["200.225.47.181"]),
        ok("direct-ap.buildernet.org", &["35.213.62.127"]),
    ]);
    let p = compute(&cfg(), &a, &[], &[]);
    let rpc = state(&p, "rpc.buildernet.org");
    assert_eq!(rpc.source, Source::Missing);
    assert!(!p.required_satisfied(), "rpc is required and has no address");
    assert_eq!(p.production.len(), 2);
}

#[test]
fn authenticated_negative_clears_name_and_removes_ip() {
    let current_prod = vec![
        entry("200.225.47.181", &["rpc.buildernet.org", "direct-us.buildernet.org"]),
        entry("198.203.203.37", &["direct-ap.buildernet.org"]),
    ];
    let a = answers(vec![
        ok("rpc.buildernet.org", &["200.225.47.181"]),
        ok("direct-us.buildernet.org", &["200.225.47.181"]),
        empty("direct-ap.buildernet.org"),
    ]);
    let p = compute(&cfg(), &a, &current_prod, &current_prod);
    let ap = state(&p, "direct-ap.buildernet.org");
    assert_eq!(ap.source, Source::Empty);
    assert!(ap.addrs.is_empty());
    assert_eq!(p.removed, vec![ip("198.203.203.37")]);
    // still dropped in maintenance for the rest of the boot
    assert!(p.maintenance.contains_key(ip("198.203.203.37")));
}

#[test]
fn ip_moving_between_names_is_not_a_removal() {
    let current_prod = vec![entry("200.225.47.181", &["rpc.buildernet.org"])];
    let a = answers(vec![
        ok("rpc.buildernet.org", &["200.225.47.183"]),
        ok("direct-us.buildernet.org", &["200.225.47.181"]),
        ok("direct-ap.buildernet.org", &["35.213.62.127"]),
    ]);
    let p = compute(&cfg(), &a, &current_prod, &current_prod);
    assert!(!p.removed.contains(&ip("200.225.47.181")));
    assert_eq!(p.added, vec![ip("35.213.62.127"), ip("200.225.47.183")]);
}

#[test]
fn non_global_address_fails_the_name_transiently() {
    let current_prod = vec![entry("200.225.47.181", &["rpc.buildernet.org"])];
    let a = answers(vec![
        ok("rpc.buildernet.org", &["200.225.47.183", "169.254.169.254"]),
        ok("direct-us.buildernet.org", &["200.225.47.183"]),
        ok("direct-ap.buildernet.org", &["35.213.62.127"]),
    ]);
    let p = compute(&cfg(), &a, &current_prod, &current_prod);
    let rpc = state(&p, "rpc.buildernet.org");
    assert_eq!(rpc.source, Source::LastKnownGood);
    assert_eq!(rpc.addrs, vec![ip("200.225.47.181")]);
    assert_eq!(
        rpc.error.as_deref(),
        Some("answer contains non-global address(es): [169.254.169.254]")
    );
    assert!(!p.production.contains_key(ip("169.254.169.254")));
}

#[test]
fn exceeding_max_addresses_keeps_previous_chain() {
    let current_prod = vec![entry("200.225.47.181", &["rpc.buildernet.org"])];
    let a = answers(vec![
        ok("rpc.buildernet.org", &["1.1.1.1", "1.1.1.2", "1.1.1.3"]),
        ok("direct-us.buildernet.org", &["1.1.1.4", "1.1.1.5"]),
        ok("direct-ap.buildernet.org", &["1.1.1.6"]),
    ]);
    let p = compute(&cfg(), &a, &current_prod, &current_prod);
    assert!(p.error.is_some());
    assert_eq!(
        p.error.as_deref(),
        Some("resolved 6 addresses, more than max_addresses=4; keeping previous chain")
    );
    assert_eq!(p.production, entries_to_map(&current_prod));
    assert!(p.added.is_empty() && p.removed.is_empty());
}

#[test]
fn exactly_max_addresses_is_accepted() {
    let a = answers(vec![
        ok("rpc.buildernet.org", &["1.1.1.1", "1.1.1.2", "1.1.1.3"]),
        ok("direct-us.buildernet.org", &["1.1.1.4", "1.1.1.1"]),
    ]);
    let p = compute(&cfg(), &a, &[], &[]);
    assert!(p.error.is_none());
    assert_eq!(p.production.len(), 4);
}

#[test]
fn missing_result_for_endpoint_is_transient() {
    let a = answers(vec![ok("rpc.buildernet.org", &["200.225.47.181"])]);
    let p = compute(&cfg(), &a, &[], &[]);
    let us = state(&p, "direct-us.buildernet.org");
    assert_eq!(us.outcome, Outcome::Transient);
    assert_eq!(us.source, Source::Missing);
    assert_eq!(us.error.as_deref(), Some("no result for name"));
}

#[test]
fn repeated_addresses_count_once_and_the_first_result_counts() {
    let a = answers(vec![
        ok("rpc.buildernet.org", &["8.8.8.8", "1.1.1.1", "8.8.8.8"]),
        ok("rpc.buildernet.org", &["9.9.9.9"]),
        ok("direct-us.buildernet.org", &[]),
    ]);
    let p = compute(&cfg(), &a, &[], &[]);
    assert_eq!(
        state(&p, "rpc.buildernet.org").addrs,
        vec![ip("8.8.8.8"), ip("1.1.1.1")]
    );
    assert_eq!(
        state(&p, "direct-us.buildernet.org").error.as_deref(),
        Some("ok outcome without addresses")
    );
}

#[test]
fn an_installed_plan_asks_for_nothing_more() {
    let current_prod = vec![
        entry("198.203.203.37", &["direct-ap.buildernet.org"]),
        entry("34.104.157.101", &["direct-us.buildernet.org"]),
    ];
    let a = answers(vec![
        ok("rpc.buildernet.org", &["200.225.47.181"]),
        transient("direct-us.buildernet.org"),
        empty("direct-ap.buildernet.org"),
    ]);
    let p = compute(&cfg(), &a, &current_prod, &current_prod);
    let entries = |m: &egress_resolver::addr_map::AddrMap| -> Vec<RuleEntry> {
        m.keys()
            .into_iter()
            .map(|ip| RuleEntry { ip, names: m.get(ip).unwrap().clone() })
            .collect()
    };
    let again = compute(&cfg(), &a, &entries(&p.production), &entries(&p.maintenance));
    assert_eq!(again.production, p.production);
    assert_eq!(again.maintenance, p.maintenance);
    assert!(again.added.is_empty() && again.removed.is_empty());
    // what the next run reads back for a name is what was installed for it
    let kernel = names_from_kernel(&cfg(), &entries(&p.production), "later");
    assert_eq!(kernel[0].addrs, vec![ip("200.225.47.181")]);
    assert_eq!(kernel[1].addrs, vec![ip("34.104.157.101")]);
    assert!(kernel[2].addrs.is_empty());
}

#[test]
fn without_answers_the_chain_stays() {
    let current_prod = vec![
        entry("198.203.203.37", &["direct-ap.buildernet.org"]),
        entry("34.104.157.101", &["rpc.buildernet.org", "direct-us.buildernet.org"]),
    ];
    let p = compute(&cfg(), &answers(vec![]), &current_prod, &[]);
    assert_eq!(p.production, entries_to_map(&current_prod));
    assert_eq!(p.maintenance, entries_to_map(&current_prod));
    assert!(required_satisfied(&p.names));
    assert!(!required_fresh(&p.names));
}

#[test]
fn kernel_states_carry_the_reason() {
    let current = vec![entry("34.104.157.101", &["rpc.buildernet.org"])];
    let names = names_from_kernel(&cfg(), &current, "why");
    assert_eq!(names.len(), 3);
    assert_eq!(
        names[0],
        NameState {
            name: "rpc.buildernet.org".to_string(),
            required: true,
            outcome: Outcome::Transient,
            source: Source::LastKnownGood,
            addrs: vec![ip("34.104.157.101")],
            error: Some("why".to_string()),
        }
    );
    assert_eq!(names[1].source, Source::Missing);
}

#[test]
fn names_are_recorded_in_their_normalized_form() {
    let mut c = cfg();
    c.endpoints[0].name = " RPC.BuilderNet.org. ".to_string();
    let a = answers(vec![ok("rpc.buildernet.org", &["200.225.47.181"])]);
    let p = compute(&c, &a, &[], &[]);
    assert_eq!(p.names[0].name, "rpc.buildernet.org");
    assert_eq!(p.names[0].source, Source::Fresh);
    assert_eq!(
        p.production.get(ip("200.225.47.181")).unwrap().list(),
        &vec!["rpc.buildernet.org"]
    );
}
