use openmediatransport::discovery::address::OmtAddress;
use openmediatransport::OmtError;

#[test]
fn from_dns_sd_strips_service_suffix() {
    let a = OmtAddress::from_dns_sd(
        "DESKTOP-BUIITN0 (vMix - Output 1)._omt._tcp.local.",
        6400,
        vec!["192.168.3.3".into()],
    )
    .unwrap();
    assert_eq!(a.instance_name(), "DESKTOP-BUIITN0 (vMix - Output 1)");
    assert_eq!(a.port, 6400);
    assert_eq!(a.addresses, vec!["192.168.3.3"]);
}

#[test]
fn from_dns_sd_rejects_invalid_names() {
    assert!(OmtAddress::from_dns_sd("not-omt._omt._tcp.local.", 6400, vec![]).is_none());
}

#[test]
fn to_url_prefers_machine_name_over_ip() {
    let a = OmtAddress::from_dns_sd(
        "CAMHOST (Output 1)._omt._tcp.local.",
        6400,
        vec!["10.0.0.5".into(), "192.168.1.5".into()],
    )
    .unwrap();
    assert_eq!(a.to_url(), "omt://CAMHOST:6400/Output 1");
}

#[test]
fn from_dns_sd_rejects_port_zero() {
    assert!(OmtAddress::from_dns_sd("HOST (Cam)", 0, vec![]).is_none());
}

#[test]
fn from_dns_sd_suffix_is_case_insensitive() {
    let a = OmtAddress::from_dns_sd("HOST (Cam)._OMT._tcp.local", 6401, vec![]).unwrap();
    assert_eq!(a.machine_name, "HOST");
    assert_eq!(a.name, "Cam");
}

#[test]
fn is_valid_name_needs_both_parentheses() {
    assert!(OmtAddress::is_valid_name("A (B)"));
    assert!(!OmtAddress::is_valid_name("A (B"));
    assert!(!OmtAddress::is_valid_name("A B)"));
}

#[test]
fn new_sanitizes_name() {
    let a = OmtAddress::new("  Cam\r\n 1 ", 6400);
    assert_eq!(a.name, "Cam 1");
    assert_eq!(a.machine_name, "");
    assert!(a.addresses.is_empty());
    assert!(!a.removed);
}

#[test]
fn from_full_name_without_parentheses_keeps_whole_name() {
    let a = OmtAddress::from_full_name("Plain Name", 7000);
    assert_eq!(a.name, "Plain Name");
    assert_eq!(a.machine_name, "");
    assert_eq!(a.instance_name(), "Plain Name");
}

#[test]
fn long_names_are_shortened_to_fit() {
    let machine = "M".repeat(10);
    let name = "N".repeat(70);
    let a = OmtAddress::from_full_name(&format!("{machine} ({name})"), 6400);
    assert_eq!(a.machine_name, machine);
    assert_eq!(a.name, "N".repeat(50));
    assert_eq!(a.instance_name().len(), 63);
}

#[test]
fn long_name_without_machine_is_cut_at_63_characters() {
    let a = OmtAddress::new(&"x".repeat(80), 6400);
    assert_eq!(a.name.len(), 63);
}

#[test]
fn from_url_parses_host_port_and_name() {
    let a = OmtAddress::from_url("omt://10.0.0.1:6400/Cam 2").unwrap();
    assert_eq!(a.name, "Cam 2");
    assert_eq!(a.port, 6400);
    assert_eq!(a.addresses, vec!["10.0.0.1"]);
    assert_eq!(a.machine_name, "");
}

#[test]
fn from_url_without_name_uses_host() {
    let a = OmtAddress::from_url("omt://host").unwrap();
    assert_eq!(a.name, "host");
    assert_eq!(a.port, 0);
    assert_eq!(a.addresses, vec!["host"]);
}

#[test]
fn from_url_rejects_other_schemes() {
    match OmtAddress::from_url("http://x") {
        Err(OmtError::InvalidArgument(m)) => assert_eq!(m, "URL must start with omt://"),
        other => panic!("unexpected {other:?}"),
    }
}

#[test]
fn from_url_rejects_bad_port() {
    match OmtAddress::from_url("omt://h:99999/n") {
        Err(OmtError::InvalidArgument(m)) => assert_eq!(m, "invalid port in URL: 99999"),
        other => panic!("unexpected {other:?}"),
    }
}

#[test]
fn to_url_without_port_or_machine() {
    let a = OmtAddress::from_url("omt://10.1.1.1/Src").unwrap();
    assert_eq!(a.to_url(), "omt://10.1.1.1/Src");
    let b = OmtAddress::new("Solo", 0);
    assert_eq!(b.to_url(), "omt://127.0.0.1/Solo");
}

#[test]
fn to_xml_lists_addresses_and_escapes() {
    let mut a = OmtAddress::from_full_name("HOST (A&B)", 6400);
    a.addresses = vec!["10.0.0.1".into()];
    assert_eq!(
        a.to_xml(),
        "<OMTAddress>\n  <Name>HOST (A&amp;B)</Name>\n  <Port>6400</Port>\n  <Addresses>\n    <IPAddress>10.0.0.1</IPAddress>\n  </Addresses>\n</OMTAddress>"
    );
}

#[test]
fn deregister_xml_is_removed_without_addresses() {
    let mut a = OmtAddress::from_full_name("HOST (Cam)", 6400);
    a.addresses = vec!["10.0.0.1".into()];
    assert_eq!(
        a.to_deregister_xml(),
        "<OMTAddress>\n  <Name>HOST (Cam)</Name>\n  <Port>6400</Port>\n  <Removed>True</Removed>\n  <Addresses>\n    <IPAddress>0.0.0.0</IPAddress>\n  </Addresses>\n</OMTAddress>"
    );
    a.removed = true;
    assert!(!a.to_register_xml().contains("Removed"));
}

#[test]
fn from_xml_reads_what_to_xml_writes() {
    let mut a = OmtAddress::from_full_name("HOST (Cam)", 6400);
    a.addresses = vec!["10.0.0.1".into(), "127.0.0.1".into()];
    a.removed = true;
    let b = OmtAddress::from_xml(&a.to_xml()).unwrap();
    assert_eq!(b, a);
}

#[test]
fn from_xml_reads_no_addresses_back_as_any_address() {
    let a = OmtAddress::from_full_name("HOST (Cam)", 7);
    let b = OmtAddress::from_xml(&a.to_xml()).unwrap();
    assert_eq!(b.addresses, vec!["0.0.0.0".to_string()]);
    assert_eq!(b.port, 7);
    assert!(!b.removed);
    assert_eq!(b.name, "Cam");
    assert_eq!(b.machine_name, "HOST");
}

#[test]
fn from_xml_reports_missing_fields() {
    match OmtAddress::from_xml("<OMTAddress><Port>1</Port></OMTAddress>") {
        Err(OmtError::InvalidArgument(m)) => assert_eq!(m, "OMTAddress XML missing Name"),
        other => panic!("unexpected {other:?}"),
    }
    match OmtAddress::from_xml("<OMTAddress><Name>A (B)</Name></OMTAddress>") {
        Err(OmtError::InvalidArgument(m)) => assert_eq!(m, "OMTAddress XML missing Port"),
        other => panic!("unexpected {other:?}"),
    }
    match OmtAddress::from_xml("<OMTAddress><Name>A (B)</Name><Port>x</Port></OMTAddress>") {
        Err(OmtError::InvalidArgument(m)) => assert_eq!(m, "OMTAddress XML invalid Port"),
        other => panic!("unexpected {other:?}"),
    }
}

#[test]
fn local_puts_ipv4_first_and_uppercases_host() {
    let a = OmtAddress::local(
        "Source",
        6400,
        "myhost",
        vec!["::1".into(), "10.0.0.2".into(), "fe80::1".into(), "127.0.0.1".into()],
    )
    .unwrap();
    assert_eq!(a.machine_name, "MYHOST");
    assert_eq!(a.instance_name(), "MYHOST (Source)");
    assert_eq!(a.addresses, vec!["10.0.0.2", "127.0.0.1", "::1", "fe80::1"]);
}

#[test]
fn instance_name_builds_back_the_same_parts() {
    let a = OmtAddress::from_full_name("STUDIO-PC (Camera (2))", 6401);
    assert_eq!(a.machine_name, "STUDIO-PC");
    assert_eq!(a.name, "Camera (2)");
    let b = OmtAddress::from_full_name(&a.instance_name(), 6401);
    assert_eq!(b, a);
    let c = OmtAddress::new("Solo", 1);
    let d = OmtAddress::from_full_name(&c.instance_name(), 1);
    assert_eq!(d, c);
}

#[test]
fn from_url_reads_what_to_url_writes() {
    let mut a = OmtAddress::from_full_name("STUDIO (Cam 1)", 6400);
    a.addresses = vec!["10.0.0.7".into()];
    let url = a.to_url();
    assert_eq!(url, "omt://STUDIO:6400/Cam 1");
    let b = OmtAddress::from_url(&url).unwrap();
    assert_eq!(b.name, "Cam 1");
    assert_eq!(b.port, 6400);
    assert_eq!(b.addresses, vec!["STUDIO".to_string()]);
    let c = OmtAddress::new("Solo", 0);
    let back = OmtAddress::from_url(&c.to_url()).unwrap();
    assert_eq!(back.port, 0);
    assert_eq!(back.addresses, vec!["127.0.0.1".to_string()]);
    assert_eq!(back.name, "Solo");
}

#[test]
fn names_are_capped_by_characters() {
    let name = format!("a{}", "é".repeat(40));
    let a = OmtAddress::new(&name, 1);
    assert_eq!(a.name, name);
    let long = format!("a{}", "é".repeat(70));
    let b = OmtAddress::new(&long, 1);
    assert_eq!(b.name.chars().count(), 63);
    assert_eq!(b.name, format!("a{}", "é".repeat(62)));
}

#[test]
fn long_machine_name_is_shortened_to_cap_instance_name() {
    let a = OmtAddress::from_full_name(&format!("{} (A)", "M".repeat(70)), 6400);
    assert_eq!(a.name, "A");
    assert_eq!(a.machine_name, "M".repeat(59));
    assert_eq!(a.instance_name().chars().count(), 63);
    let both = OmtAddress::from_full_name(&format!("{} ({})", "M".repeat(70), "N".repeat(70)), 1);
    assert_eq!(both.machine_name, "");
    assert_eq!(both.name, "N".repeat(63));
    assert_eq!(both.instance_name().chars().count(), 63);
}

#[test]
fn url_of_address_without_machine_reads_back_as_same_address() {
    let mut a = OmtAddress::new("Cam", 6400);
    a.addresses = vec!["10.0.0.5".into()];
    let b = OmtAddress::from_url(&a.to_url()).unwrap();
    assert_eq!(b, a);
}

#[test]
fn xml_of_address_reads_back_as_same_address() {
    let mut a = OmtAddress::from_full_name("STUDIO (Cam 'one')", 6400);
    a.addresses = vec!["10.0.0.5".into(), "fe80::1".into()];
    let b = OmtAddress::from_xml(&a.to_xml()).unwrap();
    assert_eq!(b, a);
}
