use vgc_netwatch::dns::{to_look_up, Address, DnsCache, Lookup, NAMED};

fn known(c: &DnsCache, ip: &str) -> Option<String> {
    match c.resolve_dns(&ip.to_string()) {
        Lookup::Known(h) => Some(h),
        Lookup::Parse(wide) => {
            let expected: Vec<u16> = ip.encode_utf16().chain(std::iter::once(0)).collect();
            assert_eq!(wide, expected);
            None
        }
    }
}

#[test]
fn wildcards_are_not_looked_up() {
    let c = DnsCache::new();
    assert_eq!(known(&c, "*"), Some(String::new()));
    assert_eq!(known(&c, "0.0.0.0"), Some(String::new()));
    assert_eq!(known(&c, "0.0.0.1"), None);
}

#[test]
fn hosts_are_remembered() {
    let mut c = DnsCache::new();
    let ip = "104.18.32.1".to_string();
    assert_eq!(known(&c, &ip), None);
    assert_eq!(c.parsed(&ip, &Some(Address::V4(0x01201268))), None);
    assert_eq!(known(&c, &ip), None);
    assert_eq!(c.named(&ip, NAMED, &b"riotgames.com\0junk".to_vec()), "riotgames.com");
    assert_eq!(known(&c, &ip), Some("riotgames.com".to_string()));
    assert_eq!(known(&c, "104.18.32.2"), None);
}

#[test]
fn ipv6_hosts_are_looked_up_and_remembered() {
    let mut c = DnsCache::new();
    let ip = "2606:4700::1".to_string();
    assert_eq!(known(&c, &ip), None);
    assert_eq!(c.parsed(&ip, &Some(Address::V6(0x2606_4700 << 96 | 1))), None);
    assert_eq!(known(&c, &ip), None);
    assert_eq!(c.named(&ip, NAMED, &b"six.example\0".to_vec()), "six.example");
    assert_eq!(known(&c, &ip), Some("six.example".to_string()));
}

#[test]
fn failures_are_remembered_as_empty() {
    let mut c = DnsCache::new();
    let bad = "x".to_string();
    assert_eq!(c.parsed(&bad, &None), Some(String::new()));
    assert_eq!(known(&c, &bad), Some(String::new()));
    let none = "::".to_string();
    assert_eq!(known(&c, &none), None);
    assert_eq!(c.parsed(&none, &Some(Address::V6(0))), Some(String::new()));
    assert_eq!(known(&c, &none), Some(String::new()));
    let ip = "1.2.3.4".to_string();
    assert_eq!(c.named(&ip, 11001, &b"ignored".to_vec()), "");
    assert_eq!(known(&c, &ip), Some(String::new()));
}

#[test]
fn other_hosts_stay_as_they_are() {
    let mut c = DnsCache::new();
    c.named(&"1.1.1.1".to_string(), NAMED, &b"one".to_vec());
    c.named(&"2.2.2.2".to_string(), NAMED, &b"two\xff".to_vec());
    assert_eq!(known(&c, "1.1.1.1"), Some("one".to_string()));
    assert_eq!(known(&c, "2.2.2.2"), Some("two\u{FFFD}".to_string()));
}

#[test]
fn what_is_looked_up() {
    assert!(to_look_up(&None).is_none());
    assert!(to_look_up(&Some(Address::V6(0))).is_none());
    assert!(matches!(to_look_up(&Some(Address::V6(1))), Some(Address::V6(1))));
    assert!(matches!(to_look_up(&Some(Address::V4(7))), Some(Address::V4(7))));
}
