use openmediatransport::discovery::address::OmtAddress;
use openmediatransport::discovery::client::parse_server_url;
use openmediatransport::discovery::listing::{
    apply_relayed, merge_sources, sort_by_instance, split_by_name,
};
use openmediatransport::discovery::mdns::{host_label_from_instance, ip_preference, order_addresses};
use openmediatransport::discovery::server::{address_frame_bytes, metadata_xml_from_frame, Registry};
use openmediatransport::protocol::frame::AssembledFrame;
use openmediatransport::OmtError;

fn source(name: &str, port: u16) -> OmtAddress {
    let mut addr = OmtAddress::from_full_name(name, port);
    addr.addresses = vec!["10.0.0.1".into()];
    addr
}

fn names(v: &[OmtAddress]) -> Vec<String> {
    v.iter().map(|a| a.instance_name()).collect()
}

#[test]
fn host_label_keeps_machine_part() {
    assert_eq!(host_label_from_instance("MY-PC (Camera 1)"), "MY-PC");
    assert_eq!(host_label_from_instance("  my pc_1.lan (x)"), "my-pc-1lan");
    assert_eq!(host_label_from_instance("(x)"), "host");
    assert_eq!(host_label_from_instance("Stüdio"), "Stdio");
}

#[test]
fn addresses_are_ordered_for_connecting() {
    assert_eq!(ip_preference("127.0.0.1"), 5);
    assert_eq!(ip_preference("::1"), 5);
    assert_eq!(ip_preference("fe80::1"), 4);
    assert_eq!(ip_preference("169.254.3.4"), 4);
    assert_eq!(ip_preference("2001:db8::1"), 3);
    assert_eq!(ip_preference("172.16.0.1"), 1);
    assert_eq!(ip_preference("10.0.0.1"), 0);
    let v: Vec<String> = ["127.0.0.1", "fe80::1", "::2", "172.16.0.1", "10.0.0.1", "192.168.1.2"]
        .iter()
        .map(|s| s.to_string())
        .collect();
    assert_eq!(
        order_addresses(&v),
        vec!["10.0.0.1", "192.168.1.2", "172.16.0.1", "::2", "fe80::1", "127.0.0.1"]
    );
}

#[test]
fn server_urls_give_host_and_port() {
    assert_eq!(parse_server_url("omt://10.0.0.5:6500/path").unwrap(), ("10.0.0.5".to_string(), 6500));
    assert_eq!(parse_server_url("server.local").unwrap(), ("server.local".to_string(), 6399));
    assert_eq!(parse_server_url("omt://[::1]:7000").unwrap(), ("[::1]".to_string(), 7000));
    match parse_server_url("omt://host:abc") {
        Err(OmtError::InvalidArgument(m)) => assert_eq!(m, "invalid discovery server port: abc"),
        other => panic!("unexpected {other:?}"),
    }
}

#[test]
fn registry_replaces_client_ip_and_relays_once() {
    let mut reg = Registry::new();
    let relayed = reg.handle_address(1, "127.0.0.1", &source("TESTHOST (Cam1)", 6400)).expect("relayed");
    assert_eq!(relayed.instance_name(), "TESTHOST (Cam1)");
    assert_eq!(relayed.port, 6400);
    assert_eq!(relayed.addresses, vec!["127.0.0.1"]);
    assert!(reg.handle_address(2, "10.9.9.9", &source("TESTHOST (Cam1)", 6400)).is_none());
    assert_eq!(reg.len(), 1);
    // Same name on another port is another source.
    assert!(reg.handle_address(2, "10.9.9.9", &source("TESTHOST (Cam1)", 6401)).is_some());
    assert_eq!(reg.len(), 2);
    assert_eq!(reg.sources()[1].addresses, vec!["10.9.9.9"]);
}

#[test]
fn registry_withdraw_and_disconnect() {
    let mut reg = Registry::new();
    reg.handle_address(1, "10.0.0.7", &source("HOSTA (Cam1)", 6420));
    reg.handle_address(1, "10.0.0.7", &source("HOSTA (Cam2)", 6421));
    reg.handle_address(2, "10.0.0.8", &source("HOSTB (Cam1)", 6430));
    let mut gone = source("HOSTA (Cam2)", 6421);
    gone.removed = true;
    let removed = reg.handle_address(2, "10.0.0.8", &gone).expect("removal relayed");
    assert!(removed.removed);
    assert_eq!(removed.addresses, vec!["10.0.0.7"]);
    assert!(reg.handle_address(2, "10.0.0.8", &gone).is_none());
    let left = reg.disconnect(1);
    assert_eq!(names(&left), vec!["HOSTA (Cam1)"]);
    assert!(left.iter().all(|a| a.removed));
    assert_eq!(names(&reg.sources()), vec!["HOSTB (Cam1)"]);
    assert!(reg.disconnect(1).is_empty());
}

#[test]
fn address_frames_carry_the_document() {
    let addr = source("HOSTZ (Cam9)", 6500);
    let bytes = address_frame_bytes(&addr);
    let frame = AssembledFrame::from_bytes(&bytes).unwrap();
    assert_eq!(frame.header.timestamp, 0);
    let xml = metadata_xml_from_frame(&frame).unwrap();
    assert_eq!(xml, addr.to_xml());
    let back = OmtAddress::from_xml(&xml).unwrap();
    assert_eq!(back.instance_name(), "HOSTZ (Cam9)");
    assert_eq!(back.port, 6500);
}

#[test]
fn sorting_is_by_instance_name_and_stable() {
    let a = source("B (x)", 1);
    let b = source("A (y)", 2);
    let c = source("B (x)", 3);
    let sorted = sort_by_instance(&vec![a, b, c]);
    assert_eq!(names(&sorted), vec!["A (y)", "B (x)", "B (x)"]);
    assert_eq!(sorted.iter().map(|s| s.port).collect::<Vec<_>>(), vec![2, 1, 3]);
}

#[test]
fn server_sources_merge_into_dns_sd_results() {
    let mut dns = source("HOST (Cam)", 6400);
    dns.addresses = vec!["10.0.0.1".into()];
    let mut srv = source("HOST (Cam)", 6400);
    srv.addresses = vec!["10.0.0.1".into(), "10.0.0.2".into()];
    let other = source("ALPHA (One)", 6401);
    let merged = merge_sources(&vec![dns], &vec![srv, other]);
    assert_eq!(names(&merged), vec!["ALPHA (One)", "HOST (Cam)"]);
    assert_eq!(merged[1].addresses, vec!["10.0.0.1", "10.0.0.2"]);
}

#[test]
fn relayed_addresses_update_client_list() {
    let list = apply_relayed(&Vec::new(), &source("ZED (a)", 1));
    let list = apply_relayed(&list, &source("ABE (b)", 2));
    assert_eq!(names(&list), vec!["ABE (b)", "ZED (a)"]);
    let mut upd = source("ZED (a)", 1);
    upd.addresses = vec!["10.1.1.1".into()];
    let list = apply_relayed(&list, &upd);
    assert_eq!(list.len(), 2);
    assert_eq!(list[1].addresses, vec!["10.1.1.1"]);
    let mut rm = source("ABE (b)", 2);
    rm.removed = true;
    let list = apply_relayed(&list, &rm);
    assert_eq!(names(&list), vec!["ZED (a)"]);
}

#[test]
fn deregistration_picks_names_containing_text() {
    let regs = vec![source("PC (Cam1)", 1), source("PC (Mic)", 2), source("PC (Cam2)", 3)];
    let (withdraw, keep) = split_by_name(&regs, "Cam");
    assert_eq!(names(&withdraw), vec!["PC (Cam1)", "PC (Cam2)"]);
    assert_eq!(names(&keep), vec!["PC (Mic)"]);
}

#[test]
fn duplicate_copies_every_field() {
    let dup = source("HOST (Cam)", 7);
    let copy = dup.duplicate();
    assert_eq!(copy, dup);
}

#[test]
fn url_parts_split_name_port_host() {
    let (name, port, host) = OmtAddress::url_parts("omt://10.0.0.2:6401/My Cam").unwrap();
    assert_eq!((name.as_str(), port, host.as_str()), ("My Cam", 6401, "10.0.0.2"));
    match OmtAddress::url_parts("omt://h:xx") {
        Err(OmtError::InvalidArgument(m)) => assert_eq!(m, "invalid port in URL: xx"),
        other => panic!("unexpected {other:?}"),
    }
}
