use egress_resolver::addr::Ipv4Addr;
use egress_resolver::answers::{NameResult, Outcome, SCHEMA};
use egress_resolver::dns::{DnsName, Record, RecordData, Response};
use egress_resolver::resolve::{
    check_roots, check_server_name, classify, interpret, permanent, question, question_from,
    server_name_verdict, server_text, transient, Classified, Lookup, QueryReply, Resolution,
    MAX_CNAME_HOPS,
};
use egress_resolver::secs::Secs;
use hickory_net::proto::op::ResponseCode;
use hickory_net::proto::rr::Name;

fn name(s: &str) -> DnsName {
    question(s).unwrap()
}

fn ip(s: &str) -> Ipv4Addr {
    Ipv4Addr::parse(s).unwrap()
}

fn a(owner: &str, ttl: u32, addr: &str) -> Record {
    Record { name: name(owner), ttl, data: RecordData::A(ip(addr)) }
}

fn cname(owner: &str, target: &str) -> Record {
    Record { name: name(owner), ttl: 300, data: RecordData::Cname(name(target)) }
}

fn response(ad: bool, rcode: ResponseCode, answers: Vec<Record>) -> Response {
    Response { truncated: false, authentic: ad, rcode: rcode.into(), answers }
}

fn empty(reason: &str) -> Classified {
    Classified::Empty(reason.to_string())
}

const Q: &str = "rpc.buildernet.org";

#[test]
fn direct_a_records_are_accepted_deduplicated_with_min_ttl() {
    let m = response(
        true,
        ResponseCode::NoError,
        vec![
            a(Q, 300, "200.225.47.181"),
            a(Q, 120, "200.225.47.183"),
            a(Q, 300, "200.225.47.181"),
        ],
    );
    assert_eq!(
        classify(&m, &name(Q), true),
        Classified::Resolved {
            addrs: vec![ip("200.225.47.181"), ip("200.225.47.183")],
            min_ttl: 120
        }
    );
}

#[test]
fn owner_name_comparison_is_case_insensitive() {
    let m = response(
        true,
        ResponseCode::NoError,
        vec![a("RPC.BuilderNet.org", 300, "200.225.47.181")],
    );
    assert!(matches!(
        classify(&m, &name(Q), true),
        Classified::Resolved { .. }
    ));
    assert_eq!(
        classify(&m, &name(Q), true),
        classify(&m, &name("rpc.BUILDERNET.org"), true)
    );
}

#[test]
fn cname_chain_is_followed_to_its_target() {
    let m = response(
        true,
        ResponseCode::NoError,
        vec![
            cname(Q, "lb.buildernet.org"),
            cname("lb.buildernet.org", "node.example.net"),
            a("node.example.net", 60, "35.213.62.127"),
        ],
    );
    assert_eq!(
        classify(&m, &name(Q), true),
        Classified::Resolved { addrs: vec![ip("35.213.62.127")], min_ttl: 60 }
    );
}

#[test]
fn cname_chains_are_followed_for_a_bounded_number_of_hops() {
    let chain = |n: usize| -> Vec<Record> {
        let mut v: Vec<Record> = (0..n)
            .map(|i| {
                let from = if i == 0 { Q.to_string() } else { format!("n{i}.example") };
                cname(&from, &format!("n{}.example", i + 1))
            })
            .collect();
        v.push(a(&format!("n{n}.example"), 60, "35.213.62.127"));
        v
    };
    let m = response(true, ResponseCode::NoError, chain(MAX_CNAME_HOPS));
    assert!(matches!(
        classify(&m, &name(Q), true),
        Classified::Resolved { .. }
    ));
    let m = response(true, ResponseCode::NoError, chain(MAX_CNAME_HOPS + 1));
    assert_eq!(
        classify(&m, &name(Q), true),
        permanent("answer has 1 A record(s) but none for the queried name")
    );
}

#[test]
fn unrelated_a_records_do_not_contribute_addresses() {
    // A records for another owner must never end up in the allowlist.
    let m = response(
        true,
        ResponseCode::NoError,
        vec![
            a("evil.example.com", 300, "203.0.113.9"),
            a("direct-us.buildernet.org", 300, "200.225.47.181"),
        ],
    );
    match classify(&m, &name(Q), true) {
        Classified::Transient { reason, retry } => {
            assert!(!retry);
            assert!(reason.contains("none for the queried name"), "{reason}");
        }
        other => panic!("unexpected {other:?}"),
    }
    // ...and are ignored when the queried name has its own records.
    let m = response(
        true,
        ResponseCode::NoError,
        vec![
            a("evil.example.com", 300, "8.8.8.8"),
            a(Q, 300, "200.225.47.181"),
        ],
    );
    assert_eq!(
        classify(&m, &name(Q), true),
        Classified::Resolved { addrs: vec![ip("200.225.47.181")], min_ttl: 300 }
    );
}

#[test]
fn cname_only_response_is_authenticated_nodata() {
    let m = response(
        true,
        ResponseCode::NoError,
        vec![cname(Q, "gone.buildernet.org")],
    );
    assert!(matches!(classify(&m, &name(Q), true), Classified::Empty(_)));
    assert_eq!(classify(&m, &name(Q), true), empty("NODATA (no A records)"));
}

#[test]
fn cname_loop_is_rejected() {
    let m = response(
        true,
        ResponseCode::NoError,
        vec![cname(Q, "b.example"), cname("b.example", Q)],
    );
    assert_eq!(
        classify(&m, &name(Q), true),
        permanent("CNAME loop in answer")
    );
}

#[test]
fn authenticated_negatives_are_empty_unauthenticated_are_not() {
    let m = response(true, ResponseCode::NXDomain, vec![]);
    assert_eq!(classify(&m, &name(Q), true), empty("NXDOMAIN"));
    let m = response(true, ResponseCode::NoError, vec![]);
    assert!(matches!(classify(&m, &name(Q), true), Classified::Empty(_)));
    let m = response(false, ResponseCode::NXDomain, vec![]);
    assert_eq!(
        classify(&m, &name(Q), true),
        permanent("NXDOMAIN without AD bit")
    );
    // without the requirement the negative is accepted as-is
    assert_eq!(classify(&m, &name(Q), false), empty("NXDOMAIN"));
}

#[test]
fn missing_ad_bit_is_a_non_retryable_transient() {
    let m = response(
        false,
        ResponseCode::NoError,
        vec![a(Q, 300, "200.225.47.181")],
    );
    assert_eq!(
        classify(&m, &name(Q), true),
        permanent("answer not authenticated (AD bit missing)")
    );
    assert!(matches!(
        classify(&m, &name(Q), false),
        Classified::Resolved { .. }
    ));
}

#[test]
fn servfail_and_truncation_are_retryable() {
    let m = response(true, ResponseCode::ServFail, vec![]);
    assert_eq!(classify(&m, &name(Q), true), transient("rcode ServFail"));
    let mut m = response(
        true,
        ResponseCode::NoError,
        vec![a(Q, 300, "200.225.47.181")],
    );
    m.truncated = true;
    assert_eq!(
        classify(&m, &name(Q), true),
        transient("truncated response")
    );
}

#[test]
fn every_response_code_is_named() {
    let table = [
        (1, "FormErr"),
        (2, "ServFail"),
        (4, "NotImp"),
        (5, "Refused"),
        (6, "YXDomain"),
        (7, "YXRRSet"),
        (8, "NXRRSet"),
        (9, "NotAuth"),
        (10, "NotZone"),
        (11, "Unknown(11)"),
        (15, "Unknown(15)"),
        (16, "BADSIG"),
        (17, "BADKEY"),
        (18, "BADTIME"),
        (19, "BADMODE"),
        (20, "BADNAME"),
        (21, "BADALG"),
        (22, "BADTRUNC"),
        (23, "BADCOOKIE"),
        (24, "Unknown(24)"),
        (4095, "Unknown(4095)"),
        (65535, "Unknown(65535)"),
    ];
    for (code, text) in table {
        let m = Response { truncated: false, authentic: true, rcode: code, answers: vec![] };
        assert_eq!(
            classify(&m, &name(Q), true),
            transient(&format!("rcode {text}"))
        );
    }
}

#[test]
fn any_non_global_address_fails_the_whole_answer() {
    let m = response(
        true,
        ResponseCode::NoError,
        vec![a(Q, 300, "200.225.47.181"), a(Q, 300, "169.254.169.254")],
    );
    match classify(&m, &name(Q), true) {
        Classified::Transient { reason, retry } => {
            assert!(!retry);
            assert!(reason.contains("169.254.169.254"));
        }
        other => panic!("unexpected {other:?}"),
    }
}

#[test]
fn relative_owners_are_other_names() {
    let mut r = a(Q, 300, "200.225.47.181");
    r.name.fqdn = false;
    let m = response(true, ResponseCode::NoError, vec![r]);
    assert_eq!(
        classify(&m, &name(Q), true),
        permanent("answer has 1 A record(s) but none for the queried name")
    );
}

#[test]
fn names_compare_as_the_dns_library_compares_them() {
    let texts = [
        "a.b", "A.b", "a.B.", "ab", "a\\.b", "b.a", "a.b.c", "xn--a.b", "a.\\142", ".",
    ];
    let convert = |s: &str| -> (Name, DnsName) {
        let n = Name::from_ascii(s).unwrap();
        let d = DnsName {
            labels: n.iter().map(|l| l.to_vec()).collect(),
            fqdn: n.is_fqdn(),
        };
        (n, d)
    };
    for x in texts {
        for y in texts {
            let (nx, dx) = convert(x);
            let (ny, dy) = convert(y);
            assert_eq!(nx == ny, dx.same(&dy), "{x} {y}");
        }
    }
}

#[test]
fn questions_are_absolute() {
    let q = question("Rpc.example").unwrap();
    assert_eq!(q.labels, vec![b"Rpc".to_vec(), b"example".to_vec()]);
    assert!(q.fqdn);
    let longest = format!("{0}.{0}.{0}.{0}.{0}.abc", "a".repeat(49));
    assert_eq!(longest.len(), 253);
    assert_eq!(question(&longest).unwrap().labels.len(), 6);
    let e = Name::from_ascii("a..b").unwrap_err();
    assert_eq!(
        question("a..b"),
        Err(permanent(&format!("invalid name: {e}")))
    );
    assert_eq!(
        question_from(Err("no".to_string())),
        Err(permanent("invalid name: no"))
    );
    let relative = DnsName { labels: vec![b"x".to_vec()], fqdn: false };
    assert!(question_from(Ok(relative)).unwrap().fqdn);
}

#[test]
fn exchange_failures_are_retryable() {
    let q = name(Q);
    assert_eq!(interpret(QueryReply::Timeout, &q, true), transient("timeout"));
    assert_eq!(
        interpret(QueryReply::Closed, &q, true),
        transient("connection closed")
    );
    assert_eq!(
        interpret(QueryReply::Failed("reset".to_string()), &q, true),
        transient("dns error: reset")
    );
    let m = response(true, ResponseCode::NXDomain, vec![]);
    assert_eq!(interpret(QueryReply::Answer(m), &q, true), empty("NXDOMAIN"));
}

#[test]
fn a_lookup_retries_retryable_failures_only() {
    let server = server_text(ip("1.1.1.1"), 853);
    assert_eq!(server, "1.1.1.1:853");
    // three attempts, all of them retryable
    let mut l = Lookup::start(Q, &server, 3);
    for i in 0..3 {
        assert!(l.wants_query());
        assert_eq!(l.attempt(), i);
        l = l.record(transient(&format!("try {i}")));
    }
    assert!(!l.wants_query());
    assert_eq!(l.outcome(), Some(Err("1.1.1.1:853: try 2".to_string())));
    // a deterministic rejection ends it
    let l = Lookup::start(Q, &server, 3).record(permanent("no AD"));
    assert!(!l.wants_query());
    assert_eq!(l.attempt(), 1);
    assert_eq!(l.outcome(), Some(Err("1.1.1.1:853: no AD".to_string())));
    // no attempts at all
    let l = Lookup::start(Q, &server, 0);
    assert!(!l.wants_query());
    assert_eq!(l.outcome(), Some(Err("no attempt".to_string())));
    // still open
    assert_eq!(Lookup::start(Q, &server, 2).record(transient("x")).outcome(), None);
}

#[test]
fn a_lookup_hands_over_what_was_answered() {
    let l = Lookup::start(Q, "1.1.1.1:853", 3)
        .record(transient("timeout"))
        .record(Classified::Resolved { addrs: vec![ip("8.8.8.8")], min_ttl: 60 });
    assert_eq!(
        l.outcome(),
        Some(Ok(NameResult {
            name: Q.to_string(),
            outcome: Outcome::Resolved,
            addrs: vec![ip("8.8.8.8")],
            min_ttl: Some(60),
            server: Some("1.1.1.1:853".to_string()),
            error: None,
        }))
    );
    let l = Lookup::start(Q, "1.1.1.1:853", 3).record(empty("NXDOMAIN"));
    assert_eq!(
        l.outcome(),
        Some(Ok(NameResult {
            name: Q.to_string(),
            outcome: Outcome::Empty,
            addrs: vec![],
            min_ttl: None,
            server: Some("1.1.1.1:853".to_string()),
            error: Some("NXDOMAIN".to_string()),
        }))
    );
}

fn fake_result(name: &str) -> NameResult {
    NameResult {
        name: name.to_string(),
        outcome: Outcome::Resolved,
        addrs: vec![ip("200.225.47.181")],
        min_ttl: Some(300),
        server: Some("1.1.1.1:853".to_string()),
        error: None,
    }
}

#[test]
fn settle_keeps_completed_answers_when_the_deadline_fires() {
    // name 0 answers immediately, name 1 fails immediately, name 2 never answers
    let mut r = Resolution {
        names: vec!["a".to_string(), "b".to_string(), "c".to_string()],
        results: vec![None, None, None],
        last_error: vec![String::new(), String::new(), String::new()],
    };
    r.settle(0, Ok(fake_result("rpc.buildernet.org")));
    r.settle(1, Err("1.1.1.1:853: SERVFAIL".to_string()));
    assert_eq!(
        r.results[0].as_ref().map(|r| r.name.as_str()),
        Some("rpc.buildernet.org"),
        "answer that arrived before the deadline is kept"
    );
    assert!(r.results[1].is_none());
    assert_eq!(r.last_error[1], "1.1.1.1:853: SERVFAIL");
    assert!(r.results[2].is_none() && r.last_error[2].is_empty());
    r.deadline_reached(30);
    assert_eq!(r.results[0], Some(fake_result("rpc.buildernet.org")));
    assert!(r.last_error[0].is_empty());
    assert_eq!(
        r.last_error[1],
        "deadline of 30s exceeded (1.1.1.1:853: SERVFAIL)"
    );
    assert_eq!(r.last_error[2], "deadline of 30s exceeded ()");
}

#[test]
fn a_run_moves_on_until_every_name_is_settled() {
    let mut r = Resolution::new(vec!["a".to_string(), "b".to_string(), "c".to_string()]);
    assert_eq!(r.pending(), vec![0, 1, 2]);
    assert_eq!(r.next_server(0, 2), Some(0));
    r.settle(1, Ok(fake_result("b")));
    assert_eq!(r.pending(), vec![0, 2]);
    r.connect_failed("1.1.1.1:853", "refused");
    assert_eq!(r.last_error[0], "1.1.1.1:853: connect failed: refused");
    assert_eq!(r.last_error[1], "not attempted");
    assert_eq!(r.next_server(1, 2), Some(1));
    assert_eq!(r.next_server(2, 2), None);
    r.settle(0, Ok(fake_result("a")));
    r.settle(2, Ok(fake_result("c")));
    assert_eq!(r.next_server(1, 2), None);
    let answers = r.finish(Secs { bits: 7 });
    assert_eq!(answers.schema, SCHEMA);
    assert_eq!(answers.generated_uptime_secs, Secs { bits: 7 });
    assert_eq!(
        answers.results,
        vec![fake_result("a"), fake_result("b"), fake_result("c")]
    );
}

#[test]
fn unsettled_names_are_reported_as_transient() {
    let mut r = Resolution::new(vec!["a".to_string(), "b".to_string()]);
    r.settle(0, Ok(fake_result("a")));
    r.tls_failed("no roots");
    let answers = r.finish(Secs { bits: 0 });
    assert_eq!(answers.results[0], fake_result("a"));
    assert_eq!(
        answers.results[1],
        NameResult {
            name: "b".to_string(),
            outcome: Outcome::Transient,
            addrs: vec![],
            min_ttl: None,
            server: None,
            error: Some("tls configuration failed: no roots".to_string()),
        }
    );
}

#[test]
fn tls_settings_are_checked() {
    assert_eq!(check_roots(1, 3, "[]"), Ok(()));
    assert_eq!(
        check_roots(0, 2, "[a, b]"),
        Err("no CA certificates loaded from the system store (2 error(s): [a, b])".to_string())
    );
    assert_eq!(check_server_name("cloudflare-dns.com"), Ok(()));
    assert_eq!(check_server_name("1.1.1.1"), Ok(()));
    assert_eq!(
        check_server_name("not a name"),
        Err("bad server_name: invalid dns name".to_string())
    );
    assert_eq!(server_name_verdict(None), Ok(()));
    assert_eq!(
        server_name_verdict(Some("x".to_string())),
        Err("bad server_name: x".to_string())
    );
}

#[test]
fn an_unrelated_record_anywhere_changes_nothing() {
    let own = vec![cname(Q, "lb.buildernet.org"), a("lb.buildernet.org", 60, "35.213.62.127")];
    let plain = classify(&response(true, ResponseCode::NoError, own), &name(Q), true);
    for at in 0..3 {
        let mut more = vec![
            cname(Q, "lb.buildernet.org"),
            a("lb.buildernet.org", 60, "35.213.62.127"),
        ];
        more.insert(at, a(Q, 1, "127.0.0.1"));
        let c = classify(&response(true, ResponseCode::NoError, more), &name(Q), true);
        assert_eq!(c, plain);
    }
}
