use egress_resolver::addr::Ipv4Addr;
use egress_resolver::answers::{Answers, NameResult, Outcome, SCHEMA};
use egress_resolver::apply::{
    apply_firewall, load_answers, verify_chains, DatedAnswers, ANSWERS_MAX_AGE_SECS,
};
use egress_resolver::config::{Config, Endpoint, FirewallConfig, ResolverConfig, StaticHost};
use egress_resolver::fake::FakeExec;
use egress_resolver::iptables::{parse_chain, IPTABLES_RESTORE};
use egress_resolver::plan::{compute, Source};
use egress_resolver::run::start;
use egress_resolver::status;
use egress_resolver::status::{PrevStatus, ShownTimes, Status};
use egress_resolver::secs::Secs;

fn ip(s: &str) -> Ipv4Addr {
    Ipv4Addr::parse(s).unwrap()
}

fn at(secs: f64) -> Secs {
    Secs { bits: secs.to_bits() }
}

fn config() -> Config {
    let endpoint = |name: &str, required: bool| Endpoint { name: name.to_string(), required };
    Config::parse(Ok(Config {
        resolver: ResolverConfig {
            servers: vec![ip("1.1.1.1")],
            server_name: "cloudflare-dns.com".to_string(),
            port: 853,
            timeout_secs: 5,
            attempts: 3,
            deadline_secs: 30,
            require_authenticated: true,
        },
        firewall: FirewallConfig {
            production_chain: "P".to_string(),
            maintenance_chain: "M".to_string(),
            port: 443,
            max_addresses: 3,
        },
        endpoints: vec![
            endpoint("rpc.buildernet.org", true),
            endpoint("direct-ap.buildernet.org", false),
        ],
        static_hosts: vec![StaticHost {
            ip: ip("3.149.14.12"),
            names: vec!["tx.tee-searcher.flashbots.net".to_string()],
        }],
    }))
    .unwrap()
}

fn dated(answers: Answers, now: f64) -> DatedAnswers {
    let generated = f64::from_bits(answers.generated_uptime_secs.bits);
    let age = now - generated;
    DatedAnswers {
        answers,
        age: at(age),
        age_text: format!("{age:.0}"),
        generated_text: format!("{generated:.0}"),
    }
}

/// The files a run reads and writes.
struct Host {
    mode: String,
    answers: Result<(Vec<NameResult>, f64), String>,
    hosts_error: Option<String>,
    hosts: String,
    prev: Option<PrevStatus>,
}

impl Host {
    fn new() -> Host {
        Host {
            mode: "maintenance".to_string(),
            answers: Err("No such file or directory (os error 2)".to_string()),
            hosts_error: None,
            hosts: String::new(),
            prev: None,
        }
    }

    fn answers(&mut self, results: Vec<NameResult>, generated: f64) {
        self.answers = Ok((results, generated));
    }

    fn run(&mut self, ex: &mut FakeExec, now: f64) -> Result<Status, String> {
        let cfg = config();
        let parsed = match &self.answers {
            Ok((results, generated)) => Ok(dated(
                Answers {
                    schema: SCHEMA,
                    generated_uptime_secs: at(*generated),
                    results: results.clone(),
                },
                now,
            )),
            Err(e) => Err(e.clone()),
        };
        let started = start(
            "boot".to_string(),
            self.prev.take(),
            parsed,
            "/run/answers.json",
        );
        let reconciled = started.reconcile(&cfg, ex)?;
        let written = match &self.hosts_error {
            Some(e) => Err(e.clone()),
            None => {
                self.hosts = reconciled.hosts.clone();
                Ok(())
            }
        };
        let cleaned = reconciled.clean(self.mode.clone(), ex);
        let st = cleaned.finish("/run/hosts", written, at(now + 1.0));
        let mut times = egress_resolver::fresh::FreshTimes::new();
        for (name, t) in st.last_fresh_uptime_secs.list() {
            times = times.with(name.clone(), *t);
        }
        self.prev = Some(PrevStatus {
            boot_id: st.boot_id.clone(),
            answers_uptime_secs: st.answers_uptime_secs,
            applied_answers_uptime_secs: st.applied_answers_uptime_secs,
            last_fresh_uptime_secs: times,
        });
        Ok(st)
    }
}

fn ok(name: &str, addrs: &[&str]) -> NameResult {
    NameResult {
        name: name.to_string(),
        outcome: Outcome::Resolved,
        addrs: addrs.iter().map(|a| ip(a)).collect(),
        min_ttl: Some(300),
        server: Some("1.1.1.1:853".to_string()),
        error: None,
    }
}

/// `iptables -S <chain>` output for the given (ip, names) rules.
fn chain(chain: &str, rules: &[(&str, &str)]) -> String {
    let mut s = format!("-N {chain}\n");
    for (ip, names) in rules {
        if chain == "P" {
            s.push_str(&format!(
                "-A P -d {ip}/32 -p tcp -m tcp --dport 443 -m conntrack --ctstate NEW -m comment --comment \"{names}\" -j ACCEPT\n"
            ));
        } else {
            s.push_str(&format!(
                "-A M -d {ip}/32 -m comment --comment \"{names}\" -j DROP\n"
            ));
        }
    }
    s
}

const A: &str = "200.225.47.181";
const B: &str = "200.225.47.183";
const AP: &str = "35.213.62.127";

#[test]
fn happy_path_updates_chains_hosts_and_sweeps_in_maintenance() {
    let mut h = Host::new();
    h.answers(
        vec![
            ok("rpc.buildernet.org", &[A]),
            ok("direct-ap.buildernet.org", &[AP]),
        ],
        100.0,
    );
    let both = [(A, "rpc.buildernet.org"), (AP, "direct-ap.buildernet.org")];
    let mut ex = FakeExec::default()
        .respond(0, &chain("P", &[])) // read P
        .respond(0, &chain("M", &[])) // read M
        .respond(0, "") // restore
        .respond(0, &chain("P", &both)) // verify P
        .respond(0, &chain("M", &both)) // verify M
        .respond(1, "0 flow entries have been deleted.") // conntrack
        .respond(0, ""); // conntrack
    let st = h.run(&mut ex, 110.0).unwrap();
    assert!(st.all_ok(), "{:?}", st.errors);
    assert!(st.required_satisfied && st.required_fresh);
    assert_eq!(
        st.killed.len(),
        2,
        "maintenance sweep kills every known address"
    );
    assert!(
        ex.calls[2].args.contains(&"-n".to_string()),
        "restore uses -n"
    );
    // sweep order is numeric: 35.213.62.127 before 200.225.47.181
    assert_eq!(ex.calls[5].args, vec!["-D", "-d", AP]);
    assert_eq!(ex.calls[6].args, vec!["-D", "-d", A]);
    assert!(h.hosts.contains(&format!("{A} rpc.buildernet.org")));
    assert!(h.hosts.contains("3.149.14.12 tx.tee-searcher.flashbots.net"));
    assert_eq!(
        h.hosts,
        format!("3.149.14.12 tx.tee-searcher.flashbots.net\n{A} rpc.buildernet.org\n{AP} direct-ap.buildernet.org\n")
    );
    assert_eq!(st.schema, status::SCHEMA);
    assert_eq!(st.added, vec![ip(AP), ip(A)]);
    assert_eq!(st.answers_uptime_secs, Some(at(100.0)));
}

#[test]
fn production_mode_only_sweeps_retired_addresses() {
    let mut h = Host::new();
    h.mode = "production".to_string();
    // B retired: present in M from before, no longer resolved
    h.answers(vec![ok("rpc.buildernet.org", &[A])], 100.0);
    let mut ex = FakeExec::default()
        .respond(0, &chain("P", &[(A, "rpc.buildernet.org")]))
        .respond(
            0,
            &chain("M", &[(A, "rpc.buildernet.org"), (B, "rpc.buildernet.org")]),
        )
        .respond(0, ""); // conntrack B
    let st = h.run(&mut ex, 110.0).unwrap();
    assert!(st.all_ok());
    assert_eq!(st.killed, vec![ip(B)]);
    assert_eq!(ex.calls.len(), 3, "unchanged chains: no restore, one kill");
}

#[test]
fn over_limit_answers_keep_previous_chain_and_previous_hosts() {
    let mut h = Host::new();
    h.answers(
        vec![
            ok("rpc.buildernet.org", &["1.1.1.1", "1.1.1.2", "1.1.1.3"]),
            ok("direct-ap.buildernet.org", &["1.1.1.4"]),
        ],
        100.0,
    );
    let mut ex = FakeExec::default()
        .respond(0, &chain("P", &[(A, "rpc.buildernet.org")]))
        .respond(0, &chain("M", &[(A, "rpc.buildernet.org")]))
        .respond(0, ""); // conntrack A (maintenance)
    let st = h.run(&mut ex, 110.0).unwrap();
    assert!(st.apply_ok && st.hosts_ok);
    assert!(st.errors.iter().any(|e| e.contains("max_addresses")));
    assert!(st.required_satisfied, "rpc keeps its installed address");
    assert!(!st.required_fresh);
    assert!(h.hosts.contains(&format!("{A} rpc.buildernet.org")));
    assert!(
        !h.hosts.contains("1.1.1.1"),
        "rejected candidate must not be published:\n{}",
        h.hosts
    );
    assert_eq!(ex.calls.len(), 3, "no restore attempted");
}

#[test]
fn failed_restore_publishes_previous_mappings_not_candidate() {
    let mut h = Host::new();
    h.answers(vec![ok("rpc.buildernet.org", &[B])], 100.0);
    let mut ex = FakeExec::default()
        .respond(0, &chain("P", &[(A, "rpc.buildernet.org")]))
        .respond(0, &chain("M", &[(A, "rpc.buildernet.org")]))
        .respond(1, "") // restore fails
        .respond(0, &chain("P", &[(A, "rpc.buildernet.org")])) // re-read P
        .respond(0, &chain("M", &[(A, "rpc.buildernet.org")])) // re-read M
        .respond(0, ""); // conntrack A (maintenance)
    let st = h.run(&mut ex, 110.0).unwrap();
    assert!(!st.apply_ok && !st.all_ok());
    assert!(st.hosts_ok);
    assert!(
        h.hosts.contains(&format!("{A} rpc.buildernet.org")),
        "previous mapping kept:\n{}",
        h.hosts
    );
    assert!(
        !h.hosts.contains(B),
        "candidate must not be published:\n{}",
        h.hosts
    );
    assert_eq!(st.production, vec![ip(A)]);
    assert!(
        !st.required_satisfied,
        "production must be refused after a failed update"
    );
    assert!(st.added.is_empty() && st.removed.is_empty());
    assert_eq!(st.errors, vec!["iptables-restore failed (status 1): "]);
    assert_eq!(
        st.endpoints[0].error.as_deref(),
        Some("firewall update failed; previous policy retained")
    );
}

#[test]
fn a_failed_update_falls_back_to_the_first_reading() {
    let mut h = Host::new();
    h.answers(vec![ok("rpc.buildernet.org", &[B])], 100.0);
    let mut ex = FakeExec::default()
        .respond(0, &chain("P", &[(A, "rpc.buildernet.org")]))
        .respond(0, &chain("M", &[(A, "rpc.buildernet.org")]))
        .respond(1, "") // restore fails
        .respond(1, "") // re-read P fails
        .respond(0, &chain("M", &[(A, "rpc.buildernet.org"), (AP, "x")])) // re-read M
        .respond(0, "")
        .respond(0, "");
    let st = h.run(&mut ex, 110.0).unwrap();
    assert_eq!(st.production, vec![ip(A)]);
    assert_eq!(st.maintenance, vec![ip(AP), ip(A)]);
    assert_eq!(st.killed, vec![ip(AP), ip(A)]);
}

#[test]
fn post_apply_verification_catches_chain_mismatch() {
    let mut h = Host::new();
    h.answers(vec![ok("rpc.buildernet.org", &[A])], 100.0);
    let doubled = [(A, "rpc.buildernet.org"), (A, "rpc.buildernet.org")];
    let mut ex = FakeExec::default()
        .respond(0, &chain("P", &[]))
        .respond(0, &chain("M", &[]))
        .respond(0, "") // restore "succeeds"
        .respond(0, &chain("P", &doubled)) // duplicate rule
        .respond(0, &chain("M", &[(A, "rpc.buildernet.org")]))
        .respond(0, &chain("P", &doubled)) // re-read
        .respond(0, &chain("M", &[(A, "rpc.buildernet.org")]))
        .respond(0, "");
    let st = h.run(&mut ex, 110.0).unwrap();
    assert!(!st.apply_ok);
    assert!(
        st.errors
            .iter()
            .any(|e| e.contains("post-apply verification failed")),
        "{:?}",
        st.errors
    );
    assert_eq!(
        st.errors,
        vec!["post-apply verification failed: P holds 2 rule(s) after restore, expected 1"]
    );
}

#[test]
fn verification_names_every_chain_that_differs() {
    let cfg = config();
    let answers = Answers {
        schema: SCHEMA,
        generated_uptime_secs: at(1.0),
        results: vec![ok("rpc.buildernet.org", &[A])],
    };
    let plan = compute(&cfg, &answers, &[], &parse_chain(&chain("M", &[(B, "old")]), "M"));
    let mut ex = FakeExec::default()
        .respond(0, &chain("P", &[(A, "other.name")]))
        .respond(0, &chain("M", &[]));
    assert_eq!(
        verify_chains(&cfg, &mut ex, &plan),
        Err("post-apply verification failed: P holds 1 rule(s) after restore, expected 1; M holds 0 rule(s) after restore, expected 2".to_string())
    );
    let mut ex = FakeExec::default().respond(2, "");
    assert_eq!(
        verify_chains(&cfg, &mut ex, &plan),
        Err("iptables -S P failed (status 2): ".to_string())
    );
    assert_eq!(ex.calls.len(), 1);
    let mut ex = FakeExec::default()
        .respond(0, &chain("P", &[(A, "rpc.buildernet.org")]))
        .respond(0, &chain("M", &[(B, "old"), (A, "rpc.buildernet.org")]));
    assert_eq!(verify_chains(&cfg, &mut ex, &plan), Ok(()));
}

#[test]
fn a_missing_chain_stops_the_run() {
    let mut h = Host::new();
    let mut ex = FakeExec::default().respond(1, "");
    assert_eq!(
        h.run(&mut ex, 110.0).unwrap_err(),
        "iptables -S P failed (status 1): "
    );
    assert_eq!(ex.calls.len(), 1);
    let mut ex = FakeExec::default().respond(0, &chain("P", &[])).respond(1, "");
    assert!(h.run(&mut ex, 110.0).is_err());
    assert_eq!(ex.calls.len(), 2);
}

#[test]
fn hosts_write_failure_is_reported_and_blocks_readiness() {
    let mut h = Host::new();
    h.hosts_error = Some("No such file or directory (os error 2)".to_string());
    h.answers(vec![ok("rpc.buildernet.org", &[A])], 100.0);
    let mut ex = FakeExec::default()
        .respond(0, &chain("P", &[(A, "rpc.buildernet.org")]))
        .respond(0, &chain("M", &[(A, "rpc.buildernet.org")]))
        .respond(0, "");
    let st = h.run(&mut ex, 110.0).unwrap();
    assert!(st.apply_ok && !st.hosts_ok && !st.all_ok());
    assert!(!st.required_satisfied);
    assert!(st.errors.iter().any(|e| e.contains("hosts")));
    assert_eq!(
        st.errors,
        vec!["writing /run/hosts: No such file or directory (os error 2)"]
    );
}

#[test]
fn conntrack_failure_is_reported_per_address() {
    let mut h = Host::new();
    h.answers(
        vec![
            ok("rpc.buildernet.org", &[A]),
            ok("direct-ap.buildernet.org", &[AP]),
        ],
        100.0,
    );
    let both = [(A, "rpc.buildernet.org"), (AP, "direct-ap.buildernet.org")];
    let mut ex = FakeExec::default()
        .respond(0, &chain("P", &both))
        .respond(0, &chain("M", &both))
        .respond(2, "") // conntrack AP (first in numeric order) fails
        .respond(0, ""); // conntrack A ok
    let st = h.run(&mut ex, 110.0).unwrap();
    assert!(st.apply_ok && st.hosts_ok && !st.conntrack_ok && !st.all_ok());
    assert_eq!(st.kill_failed, vec![ip(AP)]);
    assert_eq!(st.killed, vec![ip(A)]);
    assert!(st.errors.iter().any(|e| e.contains(AP)));
    assert_eq!(st.errors, vec![format!("conntrack -D {AP}: status 2: ")]);
    assert!(
        st.required_satisfied,
        "a sweep failure does not affect admission"
    );
}

#[test]
fn missing_or_stale_answers_keep_last_known_good() {
    let mut h = Host::new();
    // no answers file at all
    let mut ex = FakeExec::default()
        .respond(0, &chain("P", &[(A, "rpc.buildernet.org")]))
        .respond(0, &chain("M", &[(A, "rpc.buildernet.org")]))
        .respond(0, "");
    let st = h.run(&mut ex, 110.0).unwrap();
    assert!(st.apply_ok && st.required_satisfied && !st.required_fresh);
    assert!(st.errors.iter().any(|e| e.contains("cannot read answers")));
    assert_eq!(st.endpoints[0].source, Source::LastKnownGood);
    // stale answers (older than ANSWERS_MAX_AGE_SECS) are treated the same
    h.answers(vec![ok("rpc.buildernet.org", &[B])], 100.0);
    let mut ex = FakeExec::default()
        .respond(0, &chain("P", &[(A, "rpc.buildernet.org")]))
        .respond(0, &chain("M", &[(A, "rpc.buildernet.org")]))
        .respond(0, "");
    let st = h
        .run(&mut ex, 100.0 + ANSWERS_MAX_AGE_SECS as f64 + 1.0)
        .unwrap();
    assert!(
        st.errors.iter().any(|e| e.contains("old")),
        "{:?}",
        st.errors
    );
    assert_eq!(
        st.errors,
        vec!["answers are 181s old (limit 180s); treating resolution as failed"]
    );
    assert_eq!(st.production, vec![ip(A)], "B must not be applied");
    assert_eq!(ex.calls.len(), 3, "no restore");
}

#[test]
fn answers_already_applied_by_the_previous_run_are_not_fresh() {
    let mut h = Host::new();
    h.answers(vec![ok("rpc.buildernet.org", &[A])], 100.0);
    let mut ex = FakeExec::default()
        .respond(0, &chain("P", &[]))
        .respond(0, &chain("M", &[]))
        .respond(0, "") // restore
        .respond(0, &chain("P", &[(A, "rpc.buildernet.org")]))
        .respond(0, &chain("M", &[(A, "rpc.buildernet.org")]))
        .respond(0, ""); // conntrack A
    let st = h.run(&mut ex, 110.0).unwrap();
    assert!(st.all_ok() && st.required_fresh);
    let first_fresh = st.last_fresh_uptime_secs.get("rpc.buildernet.org");
    assert!(first_fresh.is_some());
    // same answers file again (resolve step produced nothing new)
    let again = || {
        FakeExec::default()
            .respond(0, &chain("P", &[(A, "rpc.buildernet.org")]))
            .respond(0, &chain("M", &[(A, "rpc.buildernet.org")]))
            .respond(0, "")
    };
    let mut ex = again();
    let st = h.run(&mut ex, 120.0).unwrap();
    assert!(st.all_ok() && st.required_satisfied);
    assert!(!st.required_fresh, "nothing was freshly resolved");
    assert!(
        st.errors.iter().any(|e| e.contains("already applied")),
        "{:?}",
        st.errors
    );
    assert_eq!(st.endpoints[0].source, Source::LastKnownGood);
    assert_eq!(
        st.last_fresh_uptime_secs.get("rpc.buildernet.org"),
        first_fresh,
        "last fresh time is carried forward, not refreshed"
    );
    assert_eq!(ex.calls.len(), 3, "no restore");
    let shown = ShownTimes { generated: String::new(), ages: vec!["10".to_string()] };
    assert!(st
        .to_metrics(&shown)
        .contains("egress_resolver_endpoint_fresh_age_seconds{name=\"rpc.buildernet.org\"}"));
    assert_eq!(st.applied_answers_uptime_secs, Some(at(100.0)));
    // third run, same file, still under the age limit: the marker must
    // have survived the rejected run, so the file is rejected again and
    // the freshness bookkeeping does not reset
    let mut ex = again();
    let st = h.run(&mut ex, 180.0).unwrap();
    assert!(
        !st.required_fresh,
        "an unchanged file must not become fresh again"
    );
    assert!(
        st.errors.iter().any(|e| e.contains("already applied")),
        "{:?}",
        st.errors
    );
    assert_eq!(
        st.last_fresh_uptime_secs.get("rpc.buildernet.org"),
        first_fresh
    );
    assert_eq!(st.answers_uptime_secs, None, "no usable answers this run");
    assert_eq!(
        st.applied_answers_uptime_secs,
        Some(at(100.0)),
        "consumed marker carried across the rejected run"
    );
    assert_eq!(ex.calls.len(), 3, "no restore");
}

#[test]
fn dirty_chain_is_rewritten_even_when_addresses_match() {
    let mut h = Host::new();
    h.answers(vec![ok("rpc.buildernet.org", &[A])], 100.0);
    // P holds the right address plus a rule without a destination
    let mut dirty_p = chain("P", &[(A, "rpc.buildernet.org")]);
    dirty_p.push_str("-A P -p tcp -m tcp --dport 443 -j ACCEPT\n");
    let mut ex = FakeExec::default()
        .respond(0, &dirty_p)
        .respond(0, &chain("M", &[(A, "rpc.buildernet.org")]))
        .respond(0, "") // restore
        .respond(0, &chain("P", &[(A, "rpc.buildernet.org")]))
        .respond(0, &chain("M", &[(A, "rpc.buildernet.org")]))
        .respond(0, ""); // conntrack A
    let st = h.run(&mut ex, 110.0).unwrap();
    assert!(st.all_ok(), "{:?}", st.errors);
    assert_eq!(
        ex.calls[2].program,
        IPTABLES_RESTORE,
        "chain was rewritten"
    );
    assert!(st.added.is_empty() && st.removed.is_empty());
    // duplicate rules count as dirty too
    let mut ex = FakeExec::default()
        .respond(
            0,
            &chain("P", &[(A, "rpc.buildernet.org"), (A, "rpc.buildernet.org")]),
        )
        .respond(0, &chain("M", &[(A, "rpc.buildernet.org")]))
        .respond(0, "")
        .respond(0, &chain("P", &[(A, "rpc.buildernet.org")]))
        .respond(0, &chain("M", &[(A, "rpc.buildernet.org")]))
        .respond(0, "");
    let st = h.run(&mut ex, 120.0).unwrap();
    assert!(st.apply_ok, "{:?}", st.errors);
    assert_eq!(ex.calls[2].program, IPTABLES_RESTORE);
}

#[test]
fn symlinked_answers_file_is_rejected() {
    let mut h = Host::new();
    // opening the file without following the link fails
    h.answers = Err("Too many levels of symbolic links (os error 40)".to_string());
    let mut ex = FakeExec::default()
        .respond(0, &chain("P", &[(A, "rpc.buildernet.org")]))
        .respond(0, &chain("M", &[(A, "rpc.buildernet.org")]))
        .respond(0, "");
    let st = h.run(&mut ex, 110.0).unwrap();
    assert!(
        st.errors.iter().any(|e| e.contains("cannot read answers")),
        "{:?}",
        st.errors
    );
    assert_eq!(
        st.production,
        vec![ip(A)],
        "B from the symlink target must not be applied"
    );
}

#[test]
fn answers_are_screened_exactly() {
    let answers = |schema: u32, generated: f64| Answers {
        schema,
        generated_uptime_secs: at(generated),
        results: vec![ok("rpc.buildernet.org", &[A])],
    };
    let load = |a: Answers, now: f64, applied: Option<Secs>| {
        load_answers(Ok(dated(a, now)), "p", applied)
    };
    let usable = load(answers(1, 100.0), 280.0, Some(at(99.0)));
    assert_eq!(usable.error, None);
    assert_eq!(usable.uptime, Some(at(100.0)));
    assert_eq!(usable.answers.results.len(), 1);
    let from_the_future = load(answers(1, 100.0), 50.0, None);
    assert_eq!(from_the_future.error, None);
    let foreign = load(answers(7, 100.0), 110.0, None);
    assert_eq!(foreign.error.as_deref(), Some("answers schema 7 unsupported"));
    assert!(foreign.answers.results.is_empty() && foreign.uptime.is_none());
    let stale = load(answers(1, 100.0), 280.6, None);
    assert_eq!(
        stale.error.as_deref(),
        Some("answers are 181s old (limit 180s); treating resolution as failed")
    );
    // 280.1 - 100.1 is a little more than 180 in floating point
    let barely = load(answers(1, 100.1), 280.1, None);
    assert_eq!(
        barely.error.as_deref(),
        Some("answers are 180s old (limit 180s); treating resolution as failed")
    );
    let seen = load(answers(1, 100.4), 110.0, Some(at(100.4)));
    assert_eq!(
        seen.error.as_deref(),
        Some("answers generated at uptime 100s were already applied by the previous run; treating resolution as failed")
    );
    let zero = load(answers(1, 0.0), 10.0, Some(at(-0.0)));
    assert!(zero.error.is_some());
    let missing = load_answers(Err("gone".to_string()), "/a/p", None);
    assert_eq!(missing.error.as_deref(), Some("cannot read answers /a/p: gone"));
}

#[test]
fn a_status_of_another_boot_is_not_carried_forward() {
    let mut h = Host::new();
    h.answers(vec![ok("rpc.buildernet.org", &[A])], 100.0);
    h.prev = Some(PrevStatus {
        boot_id: "another".to_string(),
        answers_uptime_secs: Some(at(100.0)),
        applied_answers_uptime_secs: Some(at(100.0)),
        last_fresh_uptime_secs: egress_resolver::fresh::FreshTimes::new()
            .with("direct-ap.buildernet.org".to_string(), at(90.0)),
    });
    let mut ex = FakeExec::default()
        .respond(0, &chain("P", &[(A, "rpc.buildernet.org")]))
        .respond(0, &chain("M", &[(A, "rpc.buildernet.org")]))
        .respond(0, "");
    let st = h.run(&mut ex, 110.0).unwrap();
    assert!(st.errors.is_empty(), "{:?}", st.errors);
    assert!(st.required_fresh);
    assert_eq!(st.applied_answers_uptime_secs, Some(at(100.0)));
    assert_eq!(st.last_fresh_uptime_secs.get("direct-ap.buildernet.org"), None);
    assert_eq!(
        st.last_fresh_uptime_secs.get("rpc.buildernet.org"),
        Some(at(111.0))
    );
    assert_eq!(st.generated_uptime_secs, at(111.0));
    assert_eq!(st.mode, "maintenance");
}

#[test]
fn the_firewall_step_tells_whether_it_wrote() {
    let cfg = config();
    let answers = Answers {
        schema: SCHEMA,
        generated_uptime_secs: at(1.0),
        results: vec![ok("rpc.buildernet.org", &[A])],
    };
    let good_p = chain("P", &[(A, "rpc.buildernet.org")]);
    let good_m = chain("M", &[(A, "rpc.buildernet.org")]);
    let mut ex = FakeExec::default().respond(0, &good_p).respond(0, &good_m);
    let i = apply_firewall(&cfg, &answers, &mut ex).unwrap();
    assert_eq!((i.dirty, i.rewritten, i.apply_ok), (false, false, true));
    // a rule without match and target is not ours
    let mut ex = FakeExec::default()
        .respond(0, &(good_p.clone() + "-A P\n"))
        .respond(0, &good_m)
        .respond(0, "")
        .respond(0, &good_p)
        .respond(0, &good_m);
    let i = apply_firewall(&cfg, &answers, &mut ex).unwrap();
    assert_eq!((i.dirty, i.rewritten, i.apply_ok), (true, true, true));
    assert_eq!(ex.calls[2].program, IPTABLES_RESTORE);
    let mut ex = FakeExec::default()
        .respond(0, &chain("P", &[]))
        .respond(0, &chain("M", &[]))
        .respond(1, "")
        .respond(0, &chain("P", &[]))
        .respond(0, &chain("M", &[]));
    let i = apply_firewall(&cfg, &answers, &mut ex).unwrap();
    assert_eq!((i.dirty, i.rewritten, i.apply_ok), (false, true, false));
}

#[test]
fn a_start_without_usable_answers_has_none() {
    let foreign = Answers {
        schema: 7,
        generated_uptime_secs: at(100.0),
        results: vec![ok("rpc.buildernet.org", &[A])],
    };
    let s = start("boot".to_string(), None, Ok(dated(foreign, 110.0)), "/p");
    assert_eq!(s.loaded.answers.schema, SCHEMA);
    assert_eq!(s.loaded.answers.generated_uptime_secs, at(0.0));
    assert!(s.loaded.answers.results.is_empty());
    assert_eq!(s.prev, PrevStatus::default());
    assert_eq!(s.boot_id, "boot");
}
