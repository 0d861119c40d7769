use openmediatransport::logging::default_storage_dir;
use openmediatransport::settings::{
    parse_settings_xml, parse_i32_text, settings_file_path, Settings, KEY_DISCOVERY_SERVER,
    KEY_NETWORK_PORT_END, KEY_NETWORK_PORT_START, SETTINGS_FILE_NAME,
};
use openmediatransport::types::{NETWORK_PORT_END, NETWORK_PORT_START};

#[test]
fn parse_documented_discovery_server_xml() {
    let xml = r#"<Settings>
  <DiscoveryServer>omt://x.x.x.x:port</DiscoveryServer>
</Settings>"#;
    let map = parse_settings_xml(xml);
    let found = map.iter().find(|(k, _)| k == KEY_DISCOVERY_SERVER).map(|(_, v)| v.as_str());
    assert_eq!(found, Some("omt://x.x.x.x:port"));
}

#[test]
fn settings_default_storage_dir_is_platform_specific() {
    let dir = default_storage_dir(false, None, Some("/home/user"));
    assert!(dir.ends_with(".OMT"), "Unix storage dir should end with .OMT: {dir}");
}

#[test]
fn settings_file_name_matches_libomtnet() {
    assert!(settings_file_path(false, "/home/user/.OMT").ends_with(SETTINGS_FILE_NAME));
}

#[test]
fn missing_file_yields_defaults() {
    let settings = Settings::from_contents("/tmp/omt-missing/settings.xml", None);
    assert_eq!(settings.get_string(KEY_DISCOVERY_SERVER, "fallback"), "fallback");
    assert_eq!(settings.network_port_range(), (NETWORK_PORT_START, NETWORK_PORT_END));
    assert!(settings.discovery_server().is_none());
}

#[test]
fn get_integer_invalid_value_returns_default() {
    let mut settings = Settings::new("/tmp/omt-x/settings.xml");
    settings.set_string(KEY_NETWORK_PORT_START, "nope");
    assert_eq!(settings.get_integer(KEY_NETWORK_PORT_START, 6400), 6400);
}

#[test]
fn blank_discovery_server_means_dns_sd() {
    let settings = Settings::from_contents("/tmp/omt-blank/settings.xml", Some(""));
    assert!(settings.discovery_server().is_none());
    assert_eq!(settings.network_port_range(), (NETWORK_PORT_START, NETWORK_PORT_END));
}

#[test]
fn written_text_reads_back() {
    let mut settings = Settings::new("/tmp/omt-y/settings.xml");
    settings.set_string(KEY_DISCOVERY_SERVER, "omt://127.0.0.1:6399");
    settings.set_integer(KEY_NETWORK_PORT_START, 6500);
    settings.set_integer(KEY_NETWORK_PORT_END, 6510);
    settings.set_string("Note", "a < b & c > \"d\"");
    let xml = settings.to_xml();
    assert!(xml.contains("<NetworkPortStart>6500</NetworkPortStart>"));
    let loaded = Settings::from_contents(settings.path(), Some(&xml));
    assert_eq!(loaded.get_string(KEY_DISCOVERY_SERVER, ""), "omt://127.0.0.1:6399");
    assert_eq!(loaded.get_integer(KEY_NETWORK_PORT_START, 0), 6500);
    assert_eq!(loaded.network_port_range(), (6500, 6510));
    assert_eq!(loaded.discovery_server().as_deref(), Some("omt://127.0.0.1:6399"));
    assert_eq!(loaded.get_string("Note", ""), "a < b & c > \"d\"");
    assert_eq!(loaded.to_vec(), settings.to_vec());
}

#[test]
fn keys_are_sorted_and_remove_works() {
    let mut settings = Settings::new("p");
    settings.set_string(KEY_DISCOVERY_SERVER, "omt://127.0.0.1:6399");
    settings.set_string("CustomFlag", "yes");
    assert_eq!(settings.keys(), vec!["CustomFlag", KEY_DISCOVERY_SERVER]);
    assert_eq!(settings.len(), 2);
    assert!(settings.contains_key("CustomFlag"));
    assert_eq!(settings.remove("CustomFlag").as_deref(), Some("yes"));
    assert!(!settings.contains_key("CustomFlag"));
    assert_eq!(settings.remove("CustomFlag"), None);
    assert_eq!(settings.entries(), vec![(KEY_DISCOVERY_SERVER, "omt://127.0.0.1:6399")]);
}

#[test]
fn invalid_keys_are_ignored() {
    let mut settings = Settings::new("p");
    settings.set_string("1bad", "x");
    settings.set_string("bad key", "x");
    assert!(settings.is_empty());
}

#[test]
fn reload_replaces_entries() {
    let mut settings = Settings::new("p");
    settings.set_string("Stale", "memory-only");
    settings.reload(Some("<Settings><A>1</A></Settings>"));
    assert!(!settings.contains_key("Stale"));
    assert_eq!(settings.get_string("A", ""), "1");
    settings.reload(None);
    assert!(settings.is_empty());
}

#[test]
fn parser_skips_comments_and_reads_self_closing() {
    let xml = "\u{feff}<?xml version=\"1.0\"?><Settings><!-- c --> text <Empty/><B> &amp;lt; </B><B>2</B></Settings>";
    let map = parse_settings_xml(xml);
    assert_eq!(map, vec![("B".to_string(), "2".to_string()), ("Empty".to_string(), String::new())]);
    let only = parse_settings_xml("<Settings><A>&amp;lt;</A></Settings>");
    assert_eq!(only, vec![("A".to_string(), "&lt;".to_string())]);
    assert!(parse_settings_xml("<Other/>").is_empty());
    assert!(parse_settings_xml("<Settings/>").is_empty());
}

#[test]
fn parse_i32_follows_std() {
    assert_eq!(parse_i32_text("-2147483648"), Some(i32::MIN));
    assert_eq!(parse_i32_text("+7"), Some(7));
    assert_eq!(parse_i32_text("2147483648"), None);
    assert_eq!(parse_i32_text(""), None);
    assert_eq!(parse_i32_text("-"), None);
    assert_eq!(parse_i32_text(" 1"), None);
}

#[test]
fn out_of_range_ports_fall_back() {
    let mut settings = Settings::new("p");
    settings.set_integer(KEY_NETWORK_PORT_START, 70000);
    settings.set_integer(KEY_NETWORK_PORT_END, -1);
    assert_eq!(settings.network_port_range(), (NETWORK_PORT_START, NETWORK_PORT_END));
    assert_eq!(settings.get_string(KEY_NETWORK_PORT_END, ""), "-1");
}

#[test]
fn roundtrip_string_and_integer_keys() {
    let mut settings = Settings::from_contents("/tmp/omt-rt/settings.xml", None);
    settings.set_string(KEY_DISCOVERY_SERVER, "omt://127.0.0.1:6399");
    settings.set_integer(KEY_NETWORK_PORT_START, 6500);
    settings.set_integer(KEY_NETWORK_PORT_END, 6510);
    let saved = settings.to_xml();

    let loaded = Settings::from_contents(settings.path(), Some(&saved));
    assert_eq!(loaded.get_string(KEY_DISCOVERY_SERVER, ""), "omt://127.0.0.1:6399");
    assert_eq!(loaded.get_integer(KEY_NETWORK_PORT_START, 0), 6500);
    assert_eq!(loaded.get_integer(KEY_NETWORK_PORT_END, 0), 6510);
    assert_eq!(loaded.network_port_range(), (6500, 6510));
    assert_eq!(loaded.discovery_server().as_deref(), Some("omt://127.0.0.1:6399"));
}

#[test]
fn xml_escape_roundtrip() {
    let mut settings = Settings::from_contents("/tmp/omt-esc/settings.xml", None);
    settings.set_string("Note", "a < b & c > \"d\"");
    let saved = settings.to_xml();
    let loaded = Settings::from_contents(settings.path(), Some(&saved));
    assert_eq!(loaded.get_string("Note", ""), "a < b & c > \"d\"");
}

#[test]
fn enumerate_remove_and_reload_preserve_unknown_keys() {
    let mut settings = Settings::from_contents("/tmp/omt-enum/settings.xml", None);
    settings.set_string(KEY_DISCOVERY_SERVER, "omt://127.0.0.1:6399");
    settings.set_string("CustomFlag", "yes");
    let first = settings.to_xml();

    let mut loaded = Settings::from_contents(settings.path(), Some(&first));
    assert!(loaded.contains_key("CustomFlag"));
    assert_eq!(loaded.len(), 2);
    let keys: Vec<_> = loaded.keys();
    assert_eq!(keys, vec!["CustomFlag", KEY_DISCOVERY_SERVER]);
    assert_eq!(loaded.remove("CustomFlag").as_deref(), Some("yes"));
    assert!(!loaded.contains_key("CustomFlag"));
    let second = loaded.to_xml();

    loaded.set_string("Stale", "memory-only");
    loaded.reload(Some(&second));
    assert!(!loaded.contains_key("CustomFlag"));
    assert!(!loaded.contains_key("Stale"));
    assert_eq!(loaded.get_string(KEY_DISCOVERY_SERVER, ""), "omt://127.0.0.1:6399");
}

#[test]
fn load_and_save_match_libomtnet_xml_shape() {
    let mut settings = Settings::from_contents("/tmp/omt-shape/settings.xml", None);
    settings.set_string(KEY_DISCOVERY_SERVER, "omt://10.0.0.5:6399");
    settings.set_integer(KEY_NETWORK_PORT_START, 6500);
    settings.set_integer(KEY_NETWORK_PORT_END, 6600);
    let xml = settings.to_xml();

    assert!(xml.contains("<Settings>"));
    assert!(xml.contains("<DiscoveryServer>omt://10.0.0.5:6399</DiscoveryServer>"));
    assert!(xml.contains("<NetworkPortStart>6500</NetworkPortStart>"));
    assert!(xml.contains("<NetworkPortEnd>6600</NetworkPortEnd>"));

    let loaded = Settings::from_contents(settings.path(), Some(&xml));
    assert_eq!(loaded.discovery_server().as_deref(), Some("omt://10.0.0.5:6399"));
    assert_eq!(loaded.network_port_range(), (6500, 6600));
}

#[test]
fn missing_keys_use_defaults() {
    let settings = Settings::from_contents(
        "/tmp/omt-missing-keys/settings.xml",
        Some("<Settings>\n  <DiscoveryServer>omt://127.0.0.1:6399</DiscoveryServer>\n</Settings>\n"),
    );
    assert_eq!(
        settings.get_integer(KEY_NETWORK_PORT_START, i32::from(NETWORK_PORT_START)),
        i32::from(NETWORK_PORT_START)
    );
    assert_eq!(settings.get_string("UnknownKey", "fallback"), "fallback");
}

#[test]
fn reload_of_saved_text_drops_memory_only_changes() {
    let mut s = Settings::new("/tmp/omt-settings.xml");
    s.set_string("DiscoveryServer", "omt://h:1");
    s.set_string("CustomFlag", "on");
    assert_eq!(s.keys(), vec!["CustomFlag", "DiscoveryServer"]);
    let saved = s.to_xml();
    let before = s.to_vec();
    s.set_string("Stale", "x");
    s.remove("CustomFlag");
    s.reload(Some(&saved));
    assert_eq!(s.to_vec(), before);
    assert_eq!(s.path(), "/tmp/omt-settings.xml");
}
