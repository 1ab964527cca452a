use ferry::addr::{IpAddress, Ipv4Address, SocketAddress};
use ferry::advertisement::plan_announcement;
use ferry::discover::discover;
use ferry::discovery::FerryService;
use ferry::find_services::{handle_event, BrowseEvent, ResolvedInfo};
use ferry::name_generator::resolve_server_name;
use ferry::strings::{instance_from_fullname, str_eq_ignore_case, u16_to_string};
use ferry::transport::{
    accept_outcome, AcceptEvent, ClientSession, ListenAction, ServerSession, TransportError,
};

fn v4ip(a: u8, b: u8, c: u8, d: u8) -> IpAddress {
    IpAddress::V4(Ipv4Address::new(a, b, c, d))
}

fn resolved(fullname: &str, host: &str, port: u16, ips: Vec<IpAddress>) -> ResolvedInfo {
    ResolvedInfo {
        fullname: fullname.to_string(),
        ty_domain: "_ferry._tcp.local.".to_string(),
        host: host.to_string(),
        port,
        addrs: ips,
        txt: vec![("port".to_string(), format!("{port}"))],
    }
}

#[test]
fn resolved_event_creates_a_record_with_stripped_instance() {
    let mut found: Vec<FerryService> = vec![];
    let info = resolved(
        "printer._ferry._tcp.local.",
        "printer.local.",
        3625,
        vec![v4ip(192, 168, 1, 4)],
    );
    handle_event(&mut found, BrowseEvent::Resolved(info));

    assert_eq!(found.len(), 1);
    assert_eq!(found[0].instance, "printer");
    assert_eq!(found[0].fullname, "printer._ferry._tcp.local.");
    assert_eq!(found[0].host, "printer.local.");
    assert_eq!(found[0].port, 3625);
    assert_eq!(
        found[0].addrs,
        vec![SocketAddress::new(v4ip(192, 168, 1, 4), 3625)]
    );
    assert_eq!(found[0].txt_get("port").map(|s| s.as_str()), Some("3625"));
}

#[test]
fn removed_event_deletes_the_record_and_other_events_do_nothing() {
    let mut found: Vec<FerryService> = vec![];
    handle_event(
        &mut found,
        BrowseEvent::Resolved(resolved(
            "box._ferry._tcp.local.",
            "box.local.",
            9,
            vec![v4ip(10, 0, 0, 1)],
        )),
    );
    assert_eq!(found.len(), 1);

    handle_event(&mut found, BrowseEvent::Other);
    handle_event(&mut found, BrowseEvent::PollTimeout);
    assert_eq!(found.len(), 1);

    handle_event(
        &mut found,
        BrowseEvent::Removed("BOX._ferry._tcp.LOCAL.".to_string()),
    );
    assert!(found.is_empty());
}

#[test]
fn resolved_event_with_repeated_txt_key_keeps_the_last_value() {
    let mut found: Vec<FerryService> = vec![];
    let info = ResolvedInfo {
        fullname: "dup._ferry._tcp.local.".to_string(),
        ty_domain: "_ferry._tcp.local.".to_string(),
        host: "dup.local.".to_string(),
        port: 1,
        addrs: vec![],
        txt: vec![
            ("k".to_string(), "first".to_string()),
            ("k".to_string(), "second".to_string()),
        ],
    };
    handle_event(&mut found, BrowseEvent::Resolved(info));
    assert_eq!(found[0].txt_get("k").map(|s| s.as_str()), Some("second"));
}

#[test]
fn discover_orders_services_by_instance_and_their_addrs_by_preference() {
    let mk = |instance: &str, addrs: Vec<SocketAddress>| FerryService {
        instance: instance.to_string(),
        fullname: format!("{instance}._ferry._tcp.local."),
        host: format!("{instance}.local."),
        port: 1,
        addrs,
        txt: vec![],
    };
    let lo = SocketAddress::new(v4ip(127, 0, 0, 1), 1); // score 100
    let lan = SocketAddress::new(v4ip(192, 168, 0, 1), 1); // score 0
    let mut services = vec![mk("zeta", vec![lo, lan]), mk("alpha", vec![lo, lan])];

    discover(&mut services);

    assert_eq!(services[0].instance, "alpha");
    assert_eq!(services[1].instance, "zeta");
    assert_eq!(services[0].addrs, vec![lan, lo]);
    assert_eq!(services[1].addrs, vec![lan, lo]);
}

#[test]
fn instance_stripping_handles_the_suffix_and_its_absence() {
    assert_eq!(
        instance_from_fullname("printer._ferry._tcp.local.", "_ferry._tcp.local."),
        "printer"
    );
    // no dot before the namespace: the fullname is returned whole
    assert_eq!(
        instance_from_fullname("printer_ferry._tcp.local.", "_ferry._tcp.local."),
        "printer_ferry._tcp.local."
    );
    // the bare namespace itself is returned whole
    assert_eq!(
        instance_from_fullname("_ferry._tcp.local.", "_ferry._tcp.local."),
        "_ferry._tcp.local."
    );
    // a different domain leaves the name untouched
    assert_eq!(
        instance_from_fullname("printer._http._tcp.local.", "_ferry._tcp.local."),
        "printer._http._tcp.local."
    );
}

#[test]
fn case_insensitive_equality_is_ascii_only() {
    assert!(str_eq_ignore_case("Service._tcp.LOCAL.", "service._tcp.local."));
    assert!(!str_eq_ignore_case("alpha", "beta"));
    assert!(!str_eq_ignore_case("alpha", "alphas"));
    assert!(str_eq_ignore_case("", ""));
}

#[test]
fn ports_render_in_decimal() {
    assert_eq!(u16_to_string(0), "0");
    assert_eq!(u16_to_string(7), "7");
    assert_eq!(u16_to_string(3625), "3625");
    assert_eq!(u16_to_string(65535), "65535");
}

#[test]
fn announcement_plan_qualifies_the_instance_and_carries_the_port() {
    let plan = plan_announcement("ferry-server-1", 42042);
    assert_eq!(plan.fullname, "ferry-server-1._ferry._tcp.local.");
    assert_eq!(plan.host, "ferry-server-1.ferry.local.");
    assert_eq!(plan.port, 42042);
    assert_eq!(plan.props.len(), 1);
    assert_eq!(plan.props[0].0, "port");
    assert_eq!(plan.props[0].1, "42042");
}

#[test]
fn accept_before_listen_is_a_precondition_error() {
    let server = ServerSession::new();
    assert_eq!(server.check_accept(), Err(TransportError::Precondition));
}

#[test]
fn listen_is_idempotent_and_enables_accept() {
    let mut server = ServerSession::new();
    assert_eq!(server.on_listen(), ListenAction::Bind);
    assert_eq!(server.check_accept(), Ok(()));
    // a second listen is a no-op, not an error
    assert_eq!(server.on_listen(), ListenAction::AlreadyListening);
    assert_eq!(server.check_accept(), Ok(()));
}

#[test]
fn accept_on_a_closed_endpoint_fails() {
    assert_eq!(accept_outcome(AcceptEvent::Incoming), Ok(()));
    assert_eq!(
        accept_outcome(AcceptEvent::Closed),
        Err(TransportError::EndpointClosed)
    );
}

#[test]
fn client_binds_once_and_reuses_the_endpoint() {
    let mut client = ClientSession::new();
    assert!(client.on_connect());
    assert!(!client.on_connect());
    assert!(!client.on_connect());
}

#[test]
fn server_name_prefers_the_given_one() {
    assert_eq!(resolve_server_name(Some("my-server")), "my-server");
    // without a name, a non-empty one is generated
    assert!(!resolve_server_name(None).is_empty());
}

#[test]
fn discover_handles_an_empty_result_set() {
    let mut services: Vec<FerryService> = vec![];
    discover(&mut services);
    assert!(services.is_empty());
}

#[test]
fn removing_from_an_empty_store_is_a_no_op() {
    let mut found: Vec<FerryService> = vec![];
    handle_event(&mut found, BrowseEvent::Removed("ghost._ferry._tcp.local.".to_string()));
    assert!(found.is_empty());
}
