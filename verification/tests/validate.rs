use egress_resolver::addr::Ipv4Addr;
use egress_resolver::validate::{in_range, is_global_unicast};

fn ip(s: &str) -> Ipv4Addr {
    Ipv4Addr::parse(s).unwrap()
}

#[test]
fn accepts_current_buildernet_addresses() {
    for a in [
        "200.225.47.181",
        "200.225.47.183",
        "198.203.202.53",
        "198.203.202.55",
        "34.104.157.101",
        "35.213.62.127",
        "198.203.203.37",
        "1.1.1.1",
        "8.8.8.8",
    ] {
        assert!(is_global_unicast(ip(a)), "{a} should be accepted");
    }
}

#[test]
fn rejects_special_purpose_ranges() {
    for a in [
        "0.0.0.0",
        "0.1.2.3",
        "10.88.0.100",
        "10.0.0.1",
        "100.64.0.1",
        "100.127.255.254",
        "127.0.0.1",
        "127.0.0.53",
        "169.254.169.254",
        "169.254.1.1",
        "172.16.0.1",
        "172.31.255.255",
        "192.0.0.1",
        "192.0.2.1",
        "192.88.99.1",
        "192.168.1.1",
        "198.18.0.1",
        "198.19.255.255",
        "198.51.100.7",
        "203.0.113.9",
        "224.0.0.1",
        "239.255.255.255",
        "240.0.0.1",
        "255.255.255.255",
    ] {
        assert!(!is_global_unicast(ip(a)), "{a} should be rejected");
    }
}

#[test]
fn range_boundaries_are_exact() {
    // 100.64.0.0/10 ends at 100.127.255.255
    assert!(!is_global_unicast(ip("100.127.255.255")));
    assert!(is_global_unicast(ip("100.128.0.0")));
    assert!(is_global_unicast(ip("100.63.255.255")));
    // 172.16.0.0/12 ends at 172.31.255.255
    assert!(is_global_unicast(ip("172.32.0.0")));
    assert!(is_global_unicast(ip("172.15.255.255")));
    // 198.18.0.0/15 ends at 198.19.255.255
    assert!(is_global_unicast(ip("198.20.0.0")));
    assert!(is_global_unicast(ip("198.17.255.255")));
    // 198.203.x.x must not be caught by the benchmarking range
    assert!(is_global_unicast(ip("198.203.202.53")));
}

#[test]
fn networks_compare_by_prefix() {
    assert!(in_range(ip("10.1.2.3"), ip("10.0.0.0").bits, 8));
    assert!(!in_range(ip("11.1.2.3"), ip("10.0.0.0").bits, 8));
    assert!(in_range(ip("11.1.2.3"), ip("10.0.0.0").bits, 0));
    assert!(in_range(ip("1.2.3.4"), ip("1.2.3.4").bits, 32));
    assert!(!in_range(ip("1.2.3.5"), ip("1.2.3.4").bits, 32));
}
