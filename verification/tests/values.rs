use egress_resolver::addr::{join_addrs, Ipv4Addr};
use egress_resolver::addr_map::AddrMap;
use egress_resolver::name_set::{name_set, NameSet};
use egress_resolver::number::{number_text, parse_u64, signed_text};
use egress_resolver::secs::Secs;
use egress_resolver::text::{join, lower, split, split_words, starts_with, trim};

#[test]
fn addresses_round_trip_through_text() {
    for bits in [0u32, 1, 255, 256, 0x0102_0304, 0xc8e1_2fb5, u32::MAX] {
        let a = Ipv4Addr { bits };
        assert_eq!(Ipv4Addr::parse(&a.text()), Some(a));
    }
    assert_eq!(Ipv4Addr::new(200, 225, 47, 181).text(), "200.225.47.181");
    for bad in ["", "1.2.3", "1.2.3.4.5", "1.2.3.256", "01.2.3.4", "1.2.3.4 ", "1..3.4", "+1.2.3.4"] {
        assert_eq!(Ipv4Addr::parse(bad), None, "{bad}");
        assert!(bad.parse::<core::net::Ipv4Addr>().is_err(), "{bad}");
    }
    assert_eq!(
        join_addrs(&vec![Ipv4Addr::new(1, 1, 1, 1), Ipv4Addr::new(8, 8, 8, 8)], ", "),
        "1.1.1.1, 8.8.8.8"
    );
}

#[test]
fn numbers_read_and_print_like_the_standard_library() {
    for n in [0u64, 9, 10, 99, 100, 12345, u64::MAX] {
        assert_eq!(number_text(n), n.to_string());
        assert_eq!(parse_u64(&n.to_string()), Some(n));
    }
    for n in [0i64, -1, 42, i64::MIN, i64::MAX] {
        assert_eq!(signed_text(n), n.to_string());
    }
    for s in ["", "+", "-1", "+5", "007", " 1", "1 ", "18446744073709551616", "99999999999999999999999"] {
        assert_eq!(parse_u64(s), s.parse::<u64>().ok(), "{s}");
    }
}

#[test]
fn text_operations_match_the_standard_library() {
    for s in ["", " a b ", "\u{a0}x\u{2003}", "\tA.b..C\n", "no", "\u{feff}y", "\u{85}z"] {
        assert_eq!(trim(s), s.trim());
        assert_eq!(split_words(s), s.split_whitespace().collect::<Vec<_>>());
        assert_eq!(split(s, '.'), s.split('.').collect::<Vec<_>>());
        assert_eq!(lower(s), s.to_ascii_lowercase());
        for p in ["", "a", "b ", ".."] {
            assert_eq!(starts_with(s, p), s.starts_with(p));
        }
    }
    let parts = vec!["x".to_string(), String::new(), "y".to_string()];
    assert_eq!(join(&parts, "; "), "x; ; y");
}

#[test]
fn names_are_kept_in_order_without_repetition() {
    let s = name_set(vec!["b".to_string(), "a".to_string(), "b".to_string(), "ab".to_string()]);
    assert_eq!(s.list(), &vec!["a", "ab", "b"]);
    assert!(s.contains("ab") && !s.contains("c"));
    assert!(NameSet::new().is_empty());
    let t = s.clone().union(&name_set(vec!["0".to_string()]));
    assert_eq!(t.list(), &vec!["0", "a", "ab", "b"]);
    assert!(!s.same(&t) && s.same(&s.clone()));
}

#[test]
fn address_maps_collect_names_in_order_of_address() {
    let x = Ipv4Addr::new(9, 0, 0, 1);
    let y = Ipv4Addr::new(1, 0, 0, 9);
    let m = AddrMap::new()
        .with(x, &name_set(vec!["b".to_string()]))
        .with(y, &name_set(vec!["c".to_string()]))
        .with(x, &name_set(vec!["a".to_string()]));
    assert_eq!(m.len(), 2);
    assert_eq!(m.keys(), vec![y, x]);
    assert_eq!(m.get(x).unwrap().list(), &vec!["a", "b"]);
    assert!(m.get(Ipv4Addr::new(1, 1, 1, 1)).is_none());
    assert!(m.same(&m.clone()) && !m.same(&AddrMap::new()));
}

#[test]
fn times_compare_like_floating_point_numbers() {
    let numbers = [
        0.0,
        -0.0,
        5e-324,
        2.2250738585072014e-308,
        0.1,
        0.5,
        1.0,
        99.9,
        179.99999999999997,
        180.0,
        180.00000000000003,
        1e9,
        f64::MAX,
        f64::INFINITY,
        f64::NAN,
        -1.0,
        -180.5,
        f64::NEG_INFINITY,
    ];
    let secs = |x: f64| Secs { bits: x.to_bits() };
    for x in numbers {
        for y in numbers {
            assert_eq!(secs(x).same(secs(y)), x == y, "{x} {y}");
            if y > 0.0 && y < f64::INFINITY {
                assert_eq!(secs(x).exceeds(secs(y)), x > y, "{x} {y}");
            }
        }
    }
}
