use egress_resolver::addr::Ipv4Addr;
use egress_resolver::addr_map::AddrMap;
use egress_resolver::config::{FirewallConfig, MAX_COMMENT_LEN};
use egress_resolver::exec::Output;
use egress_resolver::fake::FakeExec;
use egress_resolver::iptables::{
    apply_restore, comment, count_rules, entries_to_map, interpret_listing, interpret_restore,
    parse_chain, read_chain, render_restore, tokenize, ChainRead, IPTABLES, IPTABLES_RESTORE,
};
use egress_resolver::name_set::{name_set, NameSet};

fn fw() -> FirewallConfig {
    FirewallConfig {
        production_chain: "DYN_BNET_PRODUCTION_OUT".to_string(),
        maintenance_chain: "DYN_BNET_MAINTENANCE_OUT".to_string(),
        port: 443,
        max_addresses: 64,
    }
}

fn ip(s: &str) -> Ipv4Addr {
    Ipv4Addr::parse(s).unwrap()
}

fn names(v: &[&str]) -> NameSet {
    name_set(v.iter().map(|s| s.to_string()).collect())
}

const IPTABLES_S: &str = r#"-N DYN_BNET_PRODUCTION_OUT
-A DYN_BNET_PRODUCTION_OUT -d 200.225.47.181/32 -p tcp -m tcp --dport 443 -m conntrack --ctstate NEW -m comment --comment "direct-us.buildernet.org rpc.buildernet.org" -j ACCEPT
-A DYN_BNET_PRODUCTION_OUT -d 35.213.62.127/32 -p tcp -m tcp --dport 443 -m conntrack --ctstate NEW -m comment --comment direct-ap.buildernet.org -j ACCEPT
-A DYN_BNET_PRODUCTION_OUT -p tcp -m tcp --dport 443 -j ACCEPT
"#;

#[test]
fn parses_iptables_s_output() {
    let entries = parse_chain(IPTABLES_S, "DYN_BNET_PRODUCTION_OUT");
    assert_eq!(entries.len(), 2, "rule without -d is ignored");
    assert_eq!(entries[0].ip, ip("200.225.47.181"));
    assert_eq!(
        entries[0].names,
        names(&["direct-us.buildernet.org", "rpc.buildernet.org"])
    );
    assert_eq!(entries[1].names, names(&["direct-ap.buildernet.org"]));
    assert!(parse_chain(IPTABLES_S, "OTHER").is_empty());
}

#[test]
fn tokenizer_handles_quotes_and_escapes() {
    assert_eq!(
        tokenize(r#"-m comment --comment "a b" -j ACCEPT"#),
        vec!["-m", "comment", "--comment", "a b", "-j", "ACCEPT"]
    );
    assert_eq!(
        tokenize(r#"--comment "say \"hi\"""#),
        vec!["--comment", r#"say "hi""#]
    );
    assert_eq!(tokenize(r#"--comment """#), vec!["--comment", ""]);
}

#[test]
fn tokenizer_keeps_unfinished_tokens() {
    assert_eq!(tokenize(r#"a "b\"#), vec!["a", "b"]);
    assert_eq!(tokenize(r#"a\ b"#), vec!["a\\", "b"]);
    assert_eq!(tokenize(" \t"), Vec::<String>::new());
    assert_eq!(tokenize(r#"x"y z"w"#), vec!["xy zw"]);
}

#[test]
fn the_last_destination_and_all_comments_count() {
    let out = "-A P -d 1.1.1.1/32 --comment \"b a\" -d 2.2.2.2 --comment c -j X\n\
               -A P -d 3.3.3.3 -d nonsense\n-A P -d\n  -A P -d 4.4.4.4/32\r\n";
    let entries = parse_chain(out, "P");
    assert_eq!(entries.len(), 2);
    assert_eq!(entries[0].ip, ip("2.2.2.2"));
    assert_eq!(entries[0].names, names(&["a", "b", "c"]));
    assert_eq!(entries[1].ip, ip("4.4.4.4"));
    assert!(entries[1].names.is_empty());
    assert_eq!(count_rules(out, "P"), 4);
}

#[test]
fn renders_restore_batch() {
    let both = names(&["rpc.buildernet.org", "direct-us.buildernet.org"]);
    let prod = AddrMap::new().with(ip("200.225.47.181"), &both);
    let maint = prod
        .clone()
        .with(ip("198.203.203.37"), &names(&["direct-ap.buildernet.org"]));
    let batch = render_restore(&fw(), &prod, &maint);
    let expected = "*filter\n\
:DYN_BNET_PRODUCTION_OUT - [0:0]\n\
:DYN_BNET_MAINTENANCE_OUT - [0:0]\n\
-A DYN_BNET_PRODUCTION_OUT -d 200.225.47.181/32 -p tcp --dport 443 -m conntrack --ctstate NEW -m comment --comment \"direct-us.buildernet.org rpc.buildernet.org\" -j ACCEPT\n\
-A DYN_BNET_MAINTENANCE_OUT -d 198.203.203.37/32 -m comment --comment \"direct-ap.buildernet.org\" -j DROP\n\
-A DYN_BNET_MAINTENANCE_OUT -d 200.225.47.181/32 -m comment --comment \"direct-us.buildernet.org rpc.buildernet.org\" -j DROP\n\
COMMIT\n";
    assert_eq!(batch, expected);
}

#[test]
fn render_parse_roundtrip() {
    let prod = AddrMap::new()
        .with(ip("1.2.3.4"), &names(&["a.example", "b.example"]))
        .with(ip("5.6.7.8"), &names(&["b.example"]));
    let batch = render_restore(&fw(), &prod, &AddrMap::new());
    // simulate `iptables -S` normalisation of what we wrote
    let listed: String = batch
        .lines()
        .filter(|l| l.starts_with("-A DYN_BNET_PRODUCTION_OUT"))
        .map(|l| l.replace("-p tcp --dport", "-p tcp -m tcp --dport") + "\n")
        .collect();
    let parsed = parse_chain(&listed, "DYN_BNET_PRODUCTION_OUT");
    assert_eq!(entries_to_map(&parsed), prod);
}

#[test]
fn the_batch_itself_reads_back_as_both_chains() {
    let prod = AddrMap::new().with(ip("5.6.7.8"), &names(&["b.example", "a.example"]));
    let maint = prod.clone().with(ip("1.2.3.4"), &names(&["c.example"]));
    let batch = render_restore(&fw(), &prod, &maint);
    assert_eq!(
        entries_to_map(&parse_chain(&batch, "DYN_BNET_PRODUCTION_OUT")),
        prod
    );
    assert_eq!(count_rules(&batch, "DYN_BNET_PRODUCTION_OUT"), 1);
    assert_eq!(
        entries_to_map(&parse_chain(&batch, "DYN_BNET_MAINTENANCE_OUT")),
        maint
    );
    assert_eq!(count_rules(&batch, "DYN_BNET_MAINTENANCE_OUT"), 2);
}

#[test]
fn comment_is_bounded() {
    let many: Vec<String> = (0..20)
        .map(|i| format!("{}.buildernet.org", "x".repeat(40 + i)))
        .collect();
    let c = comment(&name_set(many.clone()));
    assert!(c.len() <= MAX_COMMENT_LEN);
    assert!(!c.ends_with(' '));
    assert!(
        c.split(' ').all(|n| many.iter().any(|m| m == n)),
        "only whole names kept"
    );
}

#[test]
fn names_need_no_plain_characters_to_stay_whole() {
    let odd = ["a\"b", "c\\d", "e\tf"];
    assert_eq!(comment(&names(&odd)), "a\"b c\\d e\tf");
    let long = "z".repeat(250);
    assert_eq!(comment(&names(&["a\"b", "c\\d", &long])), "a\"b c\\d");
}

#[test]
fn a_single_overlong_name_is_cut() {
    let c = comment(&name_set(vec!["\u{e4}".repeat(200)]));
    assert_eq!(c, "\u{e4}".repeat(127));
    assert_eq!(MAX_COMMENT_LEN, 255);
}

#[test]
fn read_chain_errors_when_chain_missing() {
    let mut ex = FakeExec::default().respond(1, "");
    let err = read_chain(&mut ex, "DYN_BNET_PRODUCTION_OUT").unwrap_err();
    assert!(err.contains("failed"));
    assert_eq!(ex.calls[0].program, IPTABLES);
    assert_eq!(
        ex.calls[0].args,
        vec!["-w", "5", "-S", "DYN_BNET_PRODUCTION_OUT"]
    );
}

#[test]
fn apply_restore_feeds_batch_on_stdin() {
    let mut ex = FakeExec::default().respond(0, "");
    apply_restore(&mut ex, "*filter\nCOMMIT\n").unwrap();
    assert_eq!(ex.calls[0].program, IPTABLES_RESTORE);
    assert_eq!(ex.calls[0].args, vec!["-w", "5", "-n"]);
    assert_eq!(ex.calls[0].stdin.as_deref(), Some("*filter\nCOMMIT\n"));
}

#[test]
fn command_failures_are_reported_in_full() {
    let failed = Output {
        status: 3,
        stdout: String::new(),
        stderr: " no chain \n".to_string(),
    };
    assert_eq!(
        interpret_listing(Ok(failed.clone()), "P"),
        Err("iptables -S P failed (status 3): no chain".to_string())
    );
    assert_eq!(
        interpret_listing(Err("gone".to_string()), "P"),
        Err("cannot run /usr/sbin/iptables: gone".to_string())
    );
    assert_eq!(
        interpret_restore(Ok(failed)),
        Err("iptables-restore failed (status 3): no chain".to_string())
    );
    assert_eq!(
        interpret_restore(Err("gone".to_string())),
        Err("cannot run /usr/sbin/iptables-restore: gone".to_string())
    );
}

#[test]
fn dirty_chain_detection() {
    let clean = ChainRead {
        entries: parse_chain(IPTABLES_S, "DYN_BNET_PRODUCTION_OUT")
            .into_iter()
            .take(2)
            .collect(),
        rule_lines: 2,
    };
    assert!(!clean.is_dirty());
    // IPTABLES_S has a third rule without -d: foreign, must be cleaned
    let foreign = ChainRead {
        entries: parse_chain(IPTABLES_S, "DYN_BNET_PRODUCTION_OUT"),
        rule_lines: count_rules(IPTABLES_S, "DYN_BNET_PRODUCTION_OUT"),
    };
    assert_eq!(foreign.rule_lines, 3);
    assert!(foreign.is_dirty());
    // the same address twice
    let mut dup = clean.clone();
    dup.entries.push(dup.entries[0].clone());
    dup.rule_lines = 3;
    assert!(dup.is_dirty());
    assert!(!ChainRead::default().is_dirty());
}

#[test]
fn bare_rules_count() {
    let out = "-N P\n-A P\n-A P -j ACCEPT\n-A PX -j DROP\n";
    assert_eq!(count_rules(out, "P"), 2);
    assert_eq!(count_rules(out, "PX"), 1);
    assert!(parse_chain(out, "P").is_empty());
    let bare = interpret_listing(
        Ok(Output {
            status: 0,
            stdout: "-N P\n-A P\n-A P -d 1.2.3.4/32 -j ACCEPT\n".to_string(),
            stderr: String::new(),
        }),
        "P",
    )
    .unwrap();
    assert_eq!((bare.rule_lines, bare.entries.len()), (2, 1));
    assert!(bare.is_dirty());
}
