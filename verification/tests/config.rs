use egress_resolver::addr::Ipv4Addr;
use egress_resolver::config::{
    default_attempts, default_deadline_secs, default_dot_port, default_https_port,
    default_max_addresses, default_timeout_secs, default_true, is_chain_name, is_hostname,
    normalize_name, Config, ConfigError, Endpoint, FirewallConfig, ResolverConfig, StaticHost,
    DEFAULT_CONFIG_PATH,
};

fn ip(s: &str) -> Ipv4Addr {
    Ipv4Addr::parse(s).unwrap()
}

fn endpoint(name: &str, required: bool) -> Endpoint {
    Endpoint { name: name.to_string(), required }
}

fn sample() -> Config {
    Config {
        resolver: ResolverConfig {
            servers: vec![ip("1.1.1.1"), ip("1.0.0.1")],
            server_name: "cloudflare-dns.com".to_string(),
            port: default_dot_port(),
            timeout_secs: default_timeout_secs(),
            attempts: default_attempts(),
            deadline_secs: default_deadline_secs(),
            require_authenticated: default_true(),
        },
        firewall: FirewallConfig {
            production_chain: "DYN_BNET_PRODUCTION_OUT".to_string(),
            maintenance_chain: "DYN_BNET_MAINTENANCE_OUT".to_string(),
            port: default_https_port(),
            max_addresses: default_max_addresses(),
        },
        endpoints: vec![
            endpoint("rpc.buildernet.org", true),
            endpoint("direct-us.buildernet.org", false),
            endpoint("Direct-EU.buildernet.org.", false),
        ],
        static_hosts: vec![StaticHost {
            ip: ip("3.149.14.12"),
            names: vec!["tx.tee-searcher.flashbots.net".to_string()],
        }],
    }
}

fn problem(c: Config) -> String {
    Config::parse(Ok(c)).unwrap_err().message().to_string()
}

#[test]
fn parses_sample_with_defaults() {
    let cfg = Config::parse(Ok(sample())).unwrap();
    assert_eq!(cfg.resolver.port, 853);
    assert_eq!(cfg.resolver.timeout_secs, 5);
    assert_eq!(cfg.resolver.attempts, 3);
    assert!(cfg.resolver.require_authenticated);
    assert_eq!(cfg.resolver.deadline_secs, 30);
    assert_eq!(cfg.firewall.port, 443);
    assert_eq!(cfg.firewall.max_addresses, 64);
    assert_eq!(
        cfg.endpoint_names(),
        vec![
            "rpc.buildernet.org",
            "direct-us.buildernet.org",
            "direct-eu.buildernet.org"
        ]
    );
    assert!(cfg.endpoints[0].required);
    assert!(!cfg.endpoints[1].required);
    assert_eq!(cfg.static_hosts.len(), 1);
    assert_eq!(cfg.servers_csv(), "1.1.1.1,1.0.0.1");
    assert_eq!(DEFAULT_CONFIG_PATH, "/etc/bob/egress-resolver.toml");
}

#[test]
fn rejects_duplicate_endpoints_case_insensitively() {
    let mut bad = sample();
    bad.endpoints.push(endpoint("RPC.buildernet.org", false));
    assert_eq!(problem(bad), "duplicate endpoint \"RPC.buildernet.org\"");
}

#[test]
fn rejects_empty_servers_and_bad_chain() {
    let mut bad = sample();
    bad.resolver.servers = vec![];
    assert_eq!(problem(bad), "resolver.servers must not be empty");
    let mut bad = sample();
    bad.firewall.production_chain = "has space".to_string();
    assert_eq!(problem(bad), "invalid chain name \"has space\"");
    let mut bad = sample();
    bad.firewall.maintenance_chain = "DYN_BNET_PRODUCTION_OUT".to_string();
    assert_eq!(problem(bad), "firewall chains must differ");
}

#[test]
fn every_other_setting_is_checked() {
    let mut bad = sample();
    bad.resolver.server_name = String::new();
    assert_eq!(problem(bad), "resolver.server_name must not be empty");
    let mut bad = sample();
    bad.resolver.attempts = 0;
    assert_eq!(problem(bad), "resolver.attempts must be >= 1");
    let mut bad = sample();
    bad.resolver.timeout_secs = 0;
    assert_eq!(problem(bad), "resolver.timeout_secs must be >= 1");
    let mut bad = sample();
    bad.endpoints = vec![];
    assert_eq!(problem(bad), "at least one [[endpoint]] is required");
    let mut bad = sample();
    bad.firewall.maintenance_chain = "tab\there".to_string();
    assert_eq!(problem(bad), "invalid chain name \"tab\\there\"");
    let mut bad = sample();
    bad.firewall.max_addresses = 0;
    assert_eq!(problem(bad), "firewall.max_addresses must be >= 1");
    let mut bad = sample();
    bad.endpoints[1].name = "under_score".to_string();
    assert_eq!(problem(bad), "invalid endpoint name \"under_score\"");
    let mut bad = sample();
    bad.static_hosts[0].names = vec![];
    assert_eq!(problem(bad), "static_host 3.149.14.12 has no names");
    let mut bad = sample();
    bad.static_hosts[0].names.push("not a name".to_string());
    assert_eq!(problem(bad), "invalid static_host name \"not a name\"");
    // the first problem counts
    let mut bad = sample();
    bad.resolver.attempts = 0;
    bad.endpoints = vec![];
    assert_eq!(problem(bad), "resolver.attempts must be >= 1");
}

#[test]
fn unreadable_and_unparseable_files_are_told_apart() {
    let e = Config::parse(Err("expected `=`".to_string())).unwrap_err();
    assert_eq!(e.message(), "invalid config: expected `=`");
    let e = ConfigError::cannot_read("/etc/x.toml", "denied");
    assert_eq!(e.message(), "cannot read /etc/x.toml: denied");
}

#[test]
fn hostname_rules() {
    assert!(is_hostname("rpc.buildernet.org"));
    assert!(is_hostname("a-b.example"));
    assert!(!is_hostname(""));
    assert!(!is_hostname("-bad.example"));
    assert!(!is_hostname("bad-.example"));
    assert!(!is_hostname("a..b"));
    assert!(!is_hostname("under_score.example"));
    assert!(!is_hostname(&"a".repeat(64)));
}

#[test]
fn hostname_lengths_are_exact() {
    assert!(is_hostname(&"a".repeat(63)));
    let label = "a".repeat(49);
    let long = format!("{label}.{label}.{label}.{label}.{label}.abc");
    assert_eq!(long.len(), 253);
    assert!(is_hostname(&long));
    assert!(!is_hostname(&format!("{long}d")));
    assert!(!is_hostname("example.org."));
    assert!(!is_hostname("ex\u{e4}mple.org"));
}

#[test]
fn chain_name_rules() {
    assert!(is_chain_name("DYN_BNET-1"));
    assert!(!is_chain_name(""));
    assert!(!is_chain_name("has space"));
    assert!(!is_chain_name("dot.dot"));
    assert!(is_chain_name(&"c".repeat(28)));
    assert!(!is_chain_name(&"c".repeat(29)));
}

#[test]
fn normalized_names_are_lower_case_without_trailing_dots() {
    assert_eq!(normalize_name(" RPC.BuilderNet.org.\n"), "rpc.buildernet.org");
    assert_eq!(normalize_name("a.example.."), "a.example");
    assert_eq!(normalize_name("..."), "");
    assert_eq!(normalize_name("\u{c4}.Example"), "\u{c4}.example");
    // normalizing again changes nothing
    assert_eq!(normalize_name(&normalize_name("A.Example.")), "a.example");
    assert_eq!(normalize_name(&normalize_name("under_score.")), "under_score");
    // neither does a trailing dot
    assert_eq!(normalize_name("under_score."), normalize_name("under_score"));
    // white space before the dots is not at the end
    assert_eq!(normalize_name("a ."), "a ");
    // the case of letters makes no difference
    assert_eq!(normalize_name("A.eXample"), normalize_name("a.Example"));
}
