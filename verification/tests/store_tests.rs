use std::collections::HashSet;

use ferry::addr::{IpAddress, Ipv4Address, SocketAddress};
use ferry::discovery::FerryService;
use ferry::find_services::{remove_service, upsert_service};

fn v4(a: u8, b: u8, c: u8, d: u8, port: u16) -> SocketAddress {
    SocketAddress::new(IpAddress::V4(Ipv4Address::new(a, b, c, d)), port)
}

fn set_of(v: &[SocketAddress]) -> HashSet<SocketAddress> {
    v.iter().cloned().collect()
}

fn svc(
    fullname: &str,
    host: &str,
    port: u16,
    addrs: Vec<SocketAddress>,
    txt: &[(&str, &str)],
) -> FerryService {
    let mut pairs: Vec<(String, String)> = Vec::new();
    for (k, v) in txt {
        pairs.push(((*k).to_string(), (*v).to_string()));
    }
    FerryService {
        instance: "x".to_string(),
        fullname: fullname.to_string(),
        host: host.to_string(),
        port,
        addrs,
        txt: pairs,
    }
}

#[test]
fn upsert_inserts_when_not_present() {
    let mut found: Vec<FerryService> = vec![];
    let incoming = svc(
        "MySvc._tcp.local.",
        "host.local.",
        8080,
        vec![v4(192, 168, 1, 10, 8080)],
        &[("a", "1")],
    );

    upsert_service(&mut found, incoming.clone());

    assert_eq!(found.len(), 1);
    let s = &found[0];
    assert_eq!(s.fullname, "MySvc._tcp.local.");
    assert_eq!(s.host, "host.local.");
    assert_eq!(s.port, 8080);
    assert_eq!(set_of(&s.addrs), set_of(&[v4(192, 168, 1, 10, 8080)]));
    assert_eq!(s.txt_get("a").map(|s| s.as_str()), Some("1"));
}

#[test]
fn upsert_merges_case_insensitive_without_port_change() {
    let a1 = v4(192, 168, 1, 10, 8080);
    let a2 = v4(192, 168, 1, 11, 8080);

    let mut found = vec![svc(
        "Service._tcp.LOCAL.",
        "old.local.",
        8080,
        vec![a1],
        &[("k0", "v0"), ("k1", "v1")],
    )];

    let incoming = svc(
        "service._tcp.local.",          // same name, different case
        "new.local.",                   // should overwrite host
        8080,                           // same port: do NOT clear addrs
        vec![a1, a2],                   // a1 duplicate, a2 new
        &[("k1", "NEW"), ("k2", "v2")], // k1 overwritten, k2 added
    );

    upsert_service(&mut found, incoming);

    assert_eq!(found.len(), 1);
    let s = &found[0];

    // host updated to latest
    assert_eq!(s.host, "new.local.");
    // port unchanged
    assert_eq!(s.port, 8080);
    // addresses are union-dedup
    assert_eq!(set_of(&s.addrs), set_of(&[a1, a2]));
    // TXT: existing retained, incoming wins on conflicts
    assert_eq!(s.txt_get("k0").map(|s| s.as_str()), Some("v0")); // retained
    assert_eq!(s.txt_get("k1").map(|s| s.as_str()), Some("NEW")); // overwritten
    assert_eq!(s.txt_get("k2").map(|s| s.as_str()), Some("v2")); // added
    // fullname stays as the original stored one
    assert_eq!(s.fullname, "Service._tcp.LOCAL.");
}

#[test]
fn upsert_resets_addrs_when_port_changes_and_keeps_only_incoming_addrs() {
    let old = v4(192, 168, 1, 10, 8000);
    let kept_new = v4(10, 0, 0, 5, 9000);

    let mut found = vec![svc(
        "Svc._tcp.local.",
        "old.local.",
        8000,
        vec![old],
        &[("k", "old")],
    )];

    let incoming = svc(
        "svc._tcp.local.", // case-insensitive same
        "new.local.",
        9000, // PORT CHANGED: clear previous endpoints
        vec![kept_new],
        &[("k", "new"), ("n", "1")],
    );

    upsert_service(&mut found, incoming);

    assert_eq!(found.len(), 1);
    let s = &found[0];

    // port updated
    assert_eq!(s.port, 9000);
    // old address removed; only incoming remains with new port
    assert_eq!(set_of(&s.addrs), set_of(&[kept_new]));
    // host updated
    assert_eq!(s.host, "new.local.");
    // TXT merged with incoming winning
    assert_eq!(s.txt_get("k").map(|s| s.as_str()), Some("new"));
    assert_eq!(s.txt_get("n").map(|s| s.as_str()), Some("1"));
}

#[test]
fn upsert_does_not_merge_when_fullname_differs() {
    let mut found = vec![svc(
        "alpha._tcp.local.",
        "alpha.local.",
        7000,
        vec![v4(192, 168, 0, 2, 7000)],
        &[("a", "1")],
    )];

    let incoming = svc(
        "beta._tcp.local.", // different service
        "beta.local.",
        7001,
        vec![v4(192, 168, 0, 3, 7001)],
        &[("b", "2")],
    );

    upsert_service(&mut found, incoming);

    assert_eq!(found.len(), 2);
    let names: HashSet<_> = found.iter().map(|s| s.fullname.as_str()).collect();
    assert!(names.contains("alpha._tcp.local."));
    assert!(names.contains("beta._tcp.local."));
}

#[test]
fn upsert_twice_equals_upsert_once() {
    let incoming = svc(
        "Echo._tcp.local.",
        "echo.local.",
        4242,
        vec![v4(192, 168, 7, 7, 4242), v4(10, 0, 0, 9, 4242)],
        &[("ver", "2"), ("port", "4242")],
    );

    let mut once: Vec<FerryService> = vec![];
    upsert_service(&mut once, incoming.clone());

    let mut twice: Vec<FerryService> = vec![];
    upsert_service(&mut twice, incoming.clone());
    upsert_service(&mut twice, incoming.clone());

    assert_eq!(once.len(), 1);
    assert_eq!(twice.len(), 1);
    assert_eq!(once[0].fullname, twice[0].fullname);
    assert_eq!(once[0].instance, twice[0].instance);
    assert_eq!(once[0].host, twice[0].host);
    assert_eq!(once[0].port, twice[0].port);
    assert_eq!(once[0].addrs, twice[0].addrs);
    assert_eq!(
        once[0].txt_get("ver").map(|s| s.as_str()),
        twice[0].txt_get("ver").map(|s| s.as_str())
    );
    assert_eq!(
        once[0].txt_get("port").map(|s| s.as_str()),
        twice[0].txt_get("port").map(|s| s.as_str())
    );
}

#[test]
fn remove_service_is_case_insensitive_and_tolerates_unknown_names() {
    let mut found = vec![
        svc("Alpha._tcp.local.", "a.local.", 1, vec![], &[]),
        svc("Beta._tcp.local.", "b.local.", 2, vec![], &[]),
    ];

    // unknown name: a no-op, not an error
    remove_service(&mut found, "gamma._tcp.local.");
    assert_eq!(found.len(), 2);

    // case-insensitive match removes the record
    remove_service(&mut found, "ALPHA._TCP.LOCAL.");
    assert_eq!(found.len(), 1);
    assert_eq!(found[0].fullname, "Beta._tcp.local.");
}
