use openmediatransport::protocol::xml::{escape_xml, parse_bool, XmlElement};
use openmediatransport::OmtError;

#[test]
fn rejects_libomtnet_tally_quirk() {
    assert!(XmlElement::parse(r#"<OMTTally Preview="true" Program=="false" />"#).is_err());
}

#[test]
fn parses_well_formed_tally() {
    let el = XmlElement::parse(r#"<OMTTally Preview="false" Program="true" />"#).unwrap();
    assert_eq!(el.attr_bool("Program"), Some(true));
}

#[test]
fn parses_nested_children_and_text() {
    let el = XmlElement::parse(
        r#"<OMTAddress>
  <Name>HOST (Cam)</Name>
  <Port>6400</Port>
  <Addresses>
    <IPAddress>10.0.0.1</IPAddress>
    <IPAddress>127.0.0.1</IPAddress>
  </Addresses>
</OMTAddress>"#,
    )
    .unwrap();
    assert_eq!(el.child_text("Name"), Some("HOST (Cam)"));
    assert_eq!(el.child_text("Port"), Some("6400"));
    let ips: Vec<_> = el
        .child("Addresses")
        .unwrap()
        .children_named("IPAddress")
        .into_iter()
        .map(|c| c.text.as_str())
        .collect();
    assert_eq!(ips, vec!["10.0.0.1", "127.0.0.1"]);
}

#[test]
fn parses_group_children() {
    let el = XmlElement::parse(
        r#"<OMTGroup>
  <OMTWeb URL="http://10.0.0.5/" />
  <OMTPTZ Protocol="VISCA" Sequence="22" Command="8101040700FF" />
</OMTGroup>"#,
    )
    .unwrap();
    assert_eq!(el.children.len(), 2);
    assert_eq!(el.child("OMTWeb").unwrap().attr("URL"), Some("http://10.0.0.5/"));
    assert_eq!(el.child("OMTPTZ").unwrap().attr("Protocol"), Some("VISCA"));
}

#[test]
fn rejects_malformed_xml() {
    assert!(XmlElement::parse("<OMTTally Preview=").is_err());
}

#[test]
fn parse_error_is_protocol_error_with_message() {
    match XmlElement::parse("<a>") {
        Err(OmtError::Protocol(m)) => assert!(m.starts_with("invalid metadata XML: ")),
        other => panic!("unexpected {other:?}"),
    }
}

#[test]
fn byte_order_marks_are_skipped() {
    let el = XmlElement::parse("\u{feff}\u{feff}<a x=\"1\">  hi <b/> there </a>").unwrap();
    assert_eq!(el.name, "a");
    assert_eq!(el.text, "hi  there");
    assert_eq!(el.children.len(), 1);
}

#[test]
fn from_nodes_builds_tree() {
    let nodes = vec![
        (false, false, String::new(), String::new(), vec![], 0usize),
        (true, false, "r".to_string(), String::new(), vec![("k".to_string(), "v".to_string())], 0),
        (false, true, String::new(), " a ".to_string(), vec![], 1),
        (true, false, "c".to_string(), String::new(), vec![], 1),
        (false, true, String::new(), "x".to_string(), vec![], 3),
        (false, true, String::new(), "b ".to_string(), vec![], 1),
    ];
    assert_eq!(XmlElement::first_child_element_of(&nodes, 0, 1), 1);
    let el = XmlElement::from_nodes(&nodes, 1);
    assert_eq!(el.name, "r");
    assert_eq!(el.attr("k"), Some("v"));
    assert_eq!(el.text, "a b");
    assert_eq!(el.children.len(), 1);
    assert_eq!(el.children[0].text, "x");
    let copy = el.duplicate();
    assert_eq!(copy, el);
}

#[test]
fn parse_bool_accepts_words_and_digits() {
    assert_eq!(parse_bool(" TRUE "), Some(true));
    assert_eq!(parse_bool("1"), Some(true));
    assert_eq!(parse_bool("False"), Some(false));
    assert_eq!(parse_bool("0"), Some(false));
    assert_eq!(parse_bool("yes"), None);
}

#[test]
fn escape_xml_escapes_five_characters() {
    assert_eq!(escape_xml("<a & 'b' \"c\">"), "&lt;a &amp; &apos;b&apos; &quot;c&quot;&gt;");
}

#[test]
fn missing_child_text_is_none() {
    let el = XmlElement::parse("<a><b></b></a>").unwrap();
    assert_eq!(el.child_text("b"), None);
    assert_eq!(el.child_text("c"), None);
    assert!(el.child("c").is_none());
}

#[test]
fn escaped_text_holds_no_markup() {
    let s = "a<b>&\"c'd";
    let e = escape_xml(s);
    assert_eq!(e, "a&lt;b&gt;&amp;&quot;c&apos;d");
    assert!(!e.contains('<') && !e.contains('>') && !e.contains('"') && !e.contains('\''));
    let back = e
        .replace("&lt;", "<")
        .replace("&gt;", ">")
        .replace("&quot;", "\"")
        .replace("&apos;", "'")
        .replace("&amp;", "&");
    assert_eq!(back, s);
}
