use ferry::addr::{IpAddress, Ipv4Address, Ipv6Address, SocketAddress};
use ferry::discovery::FerryService;
use ferry::score_ip::{score_ipv4, score_ipv6};

fn v4(a: u8, b: u8, c: u8, d: u8, port: u16) -> SocketAddress {
    SocketAddress::new(IpAddress::V4(Ipv4Address::new(a, b, c, d)), port)
}

#[allow(clippy::too_many_arguments)]
fn v6(
    s0: u16,
    s1: u16,
    s2: u16,
    s3: u16,
    s4: u16,
    s5: u16,
    s6: u16,
    s7: u16,
    port: u16,
) -> SocketAddress {
    SocketAddress::new(
        IpAddress::V6(Ipv6Address::new(s0, s1, s2, s3, s4, s5, s6, s7)),
        port,
    )
}

fn new_ferry_service(addrs: Vec<SocketAddress>) -> FerryService {
    FerryService {
        instance: "svc".to_string(),
        fullname: "svc._tcp.local.".to_string(),
        host: "host.local.".to_string(),
        port: 1234,
        addrs,
        txt: Vec::new(),
    }
}

#[test]
fn test_score_ipv4() {
    let cases = vec![
        (Ipv4Address::new(127, 0, 5, 1), 100),
        (Ipv4Address::new(127, 0, 0, 1), 100),
        (Ipv4Address::new(172, 0, 0, 2), 30),
        (Ipv4Address::new(172, 16, 0, 2), 5),
        (Ipv4Address::new(172, 18, 0, 2), 70),
        (Ipv4Address::new(10, 15, 3, 7), 10),
        (Ipv4Address::new(192, 168, 10, 0), 0),
        (Ipv4Address::new(192, 170, 15, 10), 30),
    ];
    for (c, e) in &cases {
        assert_eq!(score_ipv4(c), *e, "failed for {c:?}");
    }
}

#[test]
fn test_score_ipv6() {
    let cases = vec![
        // Loopback ::1
        (Ipv6Address::new(0, 0, 0, 0, 0, 0, 0, 1), 230),
        // Link-local fe80::/10
        (Ipv6Address::new(0xfe80, 0, 0, 0, 0, 0, 0, 1), 220),
        (Ipv6Address::new(0xfebf, 0, 0, 0, 0, 0, 0, 2), 220),
        // Unique-local fc00::/7
        (Ipv6Address::new(0xfc00, 0, 0, 0, 0, 0, 0, 0), 210),
        (Ipv6Address::new(0xfd12, 0x3456, 0, 0, 0, 0, 0, 9), 210),
        // Everything else falls into the global-unicast bucket
        (Ipv6Address::new(0x2001, 0x0db8, 0, 0, 0, 0, 0, 1), 200),
        (Ipv6Address::new(0x2a00, 0, 0, 0, 0, 0, 0, 0x1234), 200),
        (Ipv6Address::new(0xff02, 0, 0, 0, 0, 0, 0, 1), 200),
    ];
    for (c, e) in &cases {
        assert_eq!(score_ipv6(c), *e, "failed for {c:?}");
    }
}

#[test]
fn sort_addrs_orders_by_score_ipv4_then_ipv6() {
    // one exemplar per distinct score to avoid tie-order assumptions
    let port = 1234;
    let addr_0 = v4(192, 168, 1, 10, port); // score 0
    let addr_5 = v4(172, 16, 0, 1, port); // score 5
    let addr_10 = v4(10, 1, 2, 3, port); // score 10
    let addr_20 = v4(169, 254, 8, 8, port); // score 20
    let addr_30 = v4(8, 8, 4, 4, port); // score 30 (public)
    let addr_60 = v4(172, 31, 0, 1, port); // score 60
    let addr_70 = v4(172, 18, 0, 1, port); // score 70
    let addr_80 = v4(10, 255, 255, 1, port); // score 80
    let addr_100 = v4(127, 0, 0, 1, port); // score 100

    let addr_200 = v6(0x2001, 0x0db8, 0, 0, 0, 0, 0, 1, port); // score 200 (global)
    let addr_210 = v6(0xfd00, 0, 0, 0, 0, 0, 0, 1, port); // score 210 (unique-local)
    let addr_220 = v6(0xfe80, 0, 0, 0, 0, 0, 0, 1, port); // score 220 (link-local)
    let addr_230 = v6(0, 0, 0, 0, 0, 0, 0, 1, port); // score 230 (loopback)

    let addrs = vec![
        addr_220, addr_5, addr_80, addr_30, addr_210, addr_0, addr_230, addr_60, addr_100,
        addr_200, addr_20, addr_10, addr_70,
    ];
    let mut svc = new_ferry_service(addrs);

    svc.sort_addrs_by_preference();

    let expected = vec![
        addr_0, addr_5, addr_10, addr_20, addr_30, addr_60, addr_70, addr_80, addr_100, addr_200,
        addr_210, addr_220, addr_230,
    ];

    assert_eq!(svc.addrs, expected, "addresses not sorted by preference");
}

#[test]
fn sort_addrs_handles_empty_and_singleton() {
    // Empty
    let mut empty = FerryService {
        instance: String::new(),
        fullname: String::new(),
        host: String::new(),
        port: 0,
        addrs: vec![],
        txt: Vec::new(),
    };
    empty.sort_addrs_by_preference();
    assert!(empty.addrs.is_empty());

    let only = v4(192, 168, 0, 2, 5353);
    let mut one = FerryService {
        addrs: vec![only],
        ..empty.clone()
    };
    one.sort_addrs_by_preference();
    assert_eq!(one.addrs, vec![only]);
}

#[test]
fn get_best_addr_returns_none_when_empty() {
    let mut svc = new_ferry_service(vec![]);
    assert!(svc.get_best_addr().is_none());
    assert!(svc.addrs.is_empty(), "function should not mutate addrs");
}

#[test]
fn get_best_addr_picks_lowest_score_ipv4() {
    // 192.168.*.* => 0 (best), 172.16.*.* => 5, 8.8.8.8 => 30, 127.0.0.1 => 100
    let best = v4(192, 168, 1, 10, 1234); // 0
    let others = [
        v4(172, 16, 0, 1, 1234), // 5
        v4(8, 8, 8, 8, 1234),    // 30
        v4(127, 0, 0, 1, 1234),  // 100
    ];
    let mut svc = new_ferry_service(vec![others[0], best, others[1], others[2]]);

    let chosen = svc.get_best_addr();
    assert_eq!(chosen, Some(best));
    assert_eq!(
        svc.addrs,
        vec![others[0], best, others[1], others[2]],
        "get_best_addr should not reorder addrs"
    );
}

#[test]
fn get_best_addr_ipv4_beats_ipv6() {
    // IPv4 10.x => 10; IPv6 globals => 200+
    let v4_ok = v4(10, 0, 0, 1, 5555); // score 10
    let v6_gua = v6(0x2001, 0xdb8, 0, 0, 0, 0, 0, 1, 5555); // score 200
    let mut svc = new_ferry_service(vec![v6_gua, v4_ok]);
    let chosen = svc.get_best_addr();
    assert_eq!(chosen, Some(v4_ok));
}

#[test]
fn get_best_addr_breaks_ties_by_first_occurrence() {
    // Two addresses with equal best score (0): first one should be chosen.
    let first = v4(192, 168, 0, 2, 6000); // score 0
    let second = v4(192, 168, 0, 3, 6000); // score 0
    let mut svc = new_ferry_service(vec![first, second]);

    let chosen = svc.get_best_addr();
    assert_eq!(
        chosen,
        Some(first),
        "min_by_key returns the first minimum encountered"
    );
}

#[test]
fn get_best_addr_handles_ipv6_link_local_vs_unique_local() {
    // link-local => 220, unique-local => 210; unique-local should win
    let ll = v6(0xfe80, 0, 0, 0, 0, 0, 0, 1, 7000); // 220
    let ul = v6(0xfd00, 0, 0, 0, 0, 0, 0, 1, 7000); // 210
    let mut svc = new_ferry_service(vec![ll, ul]);

    let chosen = svc.get_best_addr();
    assert_eq!(chosen, Some(ul));
}

#[test]
fn score_boundary_cases_match_the_table() {
    assert_eq!(score_ipv4(&Ipv4Address::new(172, 16, 0, 0)), 5);
    assert_eq!(score_ipv4(&Ipv4Address::new(172, 31, 255, 255)), 60);
    assert_eq!(score_ipv4(&Ipv4Address::new(10, 255, 255, 1)), 80);
    assert_eq!(score_ipv4(&Ipv4Address::new(10, 255, 255, 0)), 80);
    assert_eq!(score_ipv4(&Ipv4Address::new(10, 255, 254, 0)), 10);
    assert_eq!(score_ipv4(&Ipv4Address::new(192, 168, 0, 0)), 0);
    assert_eq!(score_ipv4(&Ipv4Address::new(169, 254, 0, 1)), 20);
    assert_eq!(score_ipv6(&Ipv6Address::new(0xfe80, 0, 0, 0, 0, 0, 0, 0)), 220);
    assert_eq!(score_ipv6(&Ipv6Address::new(0xfc00, 0, 0, 0, 0, 0, 0, 0)), 210);
    assert_eq!(score_ipv6(&Ipv6Address::new(0xfd12, 0x3456, 0, 0, 0, 0, 0, 9)), 210);
    assert_eq!(score_ipv6(&Ipv6Address::new(0, 0, 0, 0, 0, 0, 0, 1)), 230);
}
