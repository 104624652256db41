use egress_resolver::addr::Ipv4Addr;
use egress_resolver::answers::{Answers, NameResult, Outcome};
use egress_resolver::cli::{
    apply_verdict, check_config_summary, find_command, parse_args, resolve_summary, Command, Opts,
    USAGE,
};
use egress_resolver::config::{Config, Endpoint, FirewallConfig, ResolverConfig};
use egress_resolver::fresh::FreshTimes;
use egress_resolver::status::Status;
use egress_resolver::secs::Secs;

fn args(v: &[&str]) -> Vec<String> {
    v.iter().map(|s| s.to_string()).collect()
}

#[test]
fn parses_command_and_options() {
    let (cmd, o) = parse_args(&args(&[
        "apply",
        "--config",
        "/tmp/c.toml",
        "--lock-timeout",
        "5",
    ]))
    .unwrap();
    assert_eq!(cmd, "apply");
    assert_eq!(o.config, "/tmp/c.toml");
    assert_eq!(o.lock_timeout, 5);
    assert_eq!(o.hosts, "/run/flashbox-endpoints/hosts");
}

#[test]
fn rejects_missing_command_and_unknown_option() {
    assert!(parse_args(&args(&[])).is_err());
    assert!(parse_args(&args(&["apply", "--bogus"])).is_err());
    assert!(parse_args(&args(&["apply", "resolve"])).is_err());
    assert!(parse_args(&args(&["apply", "--lock-timeout", "x"])).is_err());
}

#[test]
fn every_path_can_be_set() {
    let (cmd, o) = parse_args(&args(&[
        "--answers", "a", "--hosts", "h", "--status", "s", "--metrics", "m", "--state-file", "f",
        "--lock", "l", "run", "--config", "c", "--lock-timeout", "+7",
    ]))
    .unwrap();
    assert_eq!(cmd, "run");
    assert_eq!(
        o,
        Opts {
            config: "c".to_string(),
            answers: "a".to_string(),
            hosts: "h".to_string(),
            status: "s".to_string(),
            metrics: "m".to_string(),
            state_file: "f".to_string(),
            lock: "l".to_string(),
            lock_timeout: 7,
        }
    );
    let d = Opts::default();
    assert_eq!(d.config, "/etc/bob/egress-resolver.toml");
    assert_eq!(d.answers, "/run/egress-resolver/resolve/answers.json");
    assert_eq!(d.status, "/run/egress-resolver/status.json");
    assert_eq!(d.metrics, "/run/egress-resolver/metrics/egress-resolver.prom");
    assert_eq!(d.state_file, "/etc/searcher-network.state");
    assert_eq!(d.lock, "/etc/searcher-network.lock");
    assert_eq!(d.lock_timeout, 30);
}

#[test]
fn complaints_are_exact() {
    assert_eq!(parse_args(&args(&[])).unwrap_err(), USAGE);
    assert_eq!(parse_args(&args(&["apply", "-h"])).unwrap_err(), USAGE);
    assert_eq!(parse_args(&args(&["--help"])).unwrap_err(), USAGE);
    assert_eq!(
        parse_args(&args(&["apply", "--config"])).unwrap_err(),
        "--config needs a value"
    );
    assert_eq!(
        parse_args(&args(&["--lock-timeout", "1\"s"])).unwrap_err(),
        "bad --lock-timeout \"1\\\"s\""
    );
    assert_eq!(
        parse_args(&args(&["-x"])).unwrap_err(),
        format!("unknown option -x\n\n{USAGE}")
    );
    assert_eq!(
        parse_args(&args(&["apply", "resolve"])).unwrap_err(),
        format!("unexpected argument resolve\n\n{USAGE}")
    );
    assert!(USAGE.starts_with("usage: egress-resolver <command> [options]\n\ncommands:\n"));
    assert!(USAGE.ends_with("  --lock-timeout SECS  [30]\n"));
    assert_eq!(USAGE.lines().count(), 18);
}

#[test]
fn commands_are_found_by_name() {
    assert_eq!(find_command("resolve"), Ok(Command::Resolve));
    assert_eq!(find_command("apply"), Ok(Command::Apply));
    assert_eq!(find_command("run"), Ok(Command::Run));
    assert_eq!(find_command("check-config"), Ok(Command::CheckConfig));
    assert_eq!(find_command("print-servers"), Ok(Command::PrintServers));
    assert_eq!(
        find_command("bogus"),
        Err(format!("unknown command bogus\n\n{USAGE}"))
    );
}

#[test]
fn reports_are_exact() {
    let cfg = Config {
        resolver: ResolverConfig {
            servers: vec![Ipv4Addr::new(1, 1, 1, 1), Ipv4Addr::new(1, 0, 0, 1)],
            server_name: "cloudflare-dns.com".to_string(),
            port: 853,
            timeout_secs: 5,
            attempts: 3,
            deadline_secs: 30,
            require_authenticated: true,
        },
        firewall: FirewallConfig {
            production_chain: "P".to_string(),
            maintenance_chain: "M".to_string(),
            port: 443,
            max_addresses: 64,
        },
        endpoints: vec![Endpoint { name: "a.example".to_string(), required: true }],
        static_hosts: vec![],
    };
    assert_eq!(
        check_config_summary(&cfg),
        "ok: 1 endpoint(s), 0 static host(s), resolvers 1.1.1.1,1.0.0.1 via cloudflare-dns.com:853 (deadline 30s), chains P / M"
    );
    let result = |outcome: Outcome| NameResult {
        name: "a.example".to_string(),
        outcome,
        addrs: vec![],
        min_ttl: None,
        server: None,
        error: None,
    };
    let answers = Answers {
        schema: 1,
        generated_uptime_secs: Secs { bits: 0 },
        results: vec![
            result(Outcome::Resolved),
            result(Outcome::Empty),
            result(Outcome::Transient),
            result(Outcome::Resolved),
        ],
    };
    assert_eq!(
        resolve_summary(&answers, "/run/a.json"),
        "resolved 2/4 name(s); answers written to /run/a.json"
    );
}

#[test]
fn an_incomplete_reconciliation_names_the_failed_step() {
    let mut st = Status {
        schema: 2,
        boot_id: String::new(),
        generated_uptime_secs: Secs { bits: 0 },
        answers_uptime_secs: None,
        applied_answers_uptime_secs: None,
        mode: String::new(),
        apply_ok: true,
        hosts_ok: true,
        conntrack_ok: true,
        required_satisfied: false,
        required_fresh: false,
        last_fresh_uptime_secs: FreshTimes::new(),
        endpoints: vec![],
        production: vec![],
        maintenance: vec![],
        added: vec![],
        removed: vec![],
        killed: vec![],
        kill_failed: vec![],
        errors: vec![],
    };
    assert_eq!(apply_verdict(&st), Ok(()));
    st.hosts_ok = false;
    assert_eq!(
        apply_verdict(&st),
        Err("reconciliation incomplete (apply_ok=true, hosts_ok=false, conntrack_ok=true)"
            .to_string())
    );
}
