use openmediatransport::protocol::metadata::{
    classify, decode_metadata_xml, encode_metadata_xml, group_xml, is_subscribe, parse_metadata,
    redirect_xml, suggested_quality_xml, suggested_quality_xml_alias, tally_xml, web_xml,
    AncillaryPacket, Metadata, MetadataCommand, PtzMetadata, SUBSCRIBE_AUDIO, SUBSCRIBE_VIDEO,
    TALLY_NONE, TALLY_PREVIEW, TALLY_PREVIEW_PROGRAM, TALLY_PROGRAM,
};
use openmediatransport::types::{MetadataFrame, Quality, SenderInfo, Tally};
use openmediatransport::OmtError;

#[test]
fn parse_exact_libomtnet_tally_constants() {
    assert_eq!(parse_metadata(TALLY_PREVIEW), vec![Metadata::Tally(Tally::new(1, 0))]);
    assert_eq!(parse_metadata(TALLY_PROGRAM), vec![Metadata::Tally(Tally::new(0, 1))]);
    assert_eq!(parse_metadata(TALLY_PREVIEW_PROGRAM), vec![Metadata::Tally(Tally::new(1, 1))]);
    assert_eq!(parse_metadata(TALLY_NONE), vec![Metadata::Tally(Tally::new(0, 0))]);
}

#[test]
fn parse_well_formed_tally_and_whitespace() {
    let xml = "  <OMTTally  Preview=\"true\"  Program=\"true\" />\n";
    assert_eq!(parse_metadata(xml), vec![Metadata::Tally(Tally::new(1, 1))]);
}

#[test]
fn non_constant_program_double_equals_is_not_xml() {
    let xml = r#"<OMTTally Preview="true"  Program=="false" />"#;
    assert!(parse_metadata(xml).is_empty());
}

#[test]
fn parse_combined_subscribe() {
    let items = parse_metadata(r#"<OMTSubscribe Video="true" Audio="true" />"#);
    assert_eq!(items, vec![Metadata::Subscribe { video: true, audio: true, metadata: false }]);
    assert!(is_subscribe(r#"<OMTSubscribe Video="true" Audio="true" />"#, "Video"));
    assert!(is_subscribe(r#"<OMTSubscribe Video="true" Audio="true" />"#, "Audio"));
}

#[test]
fn parse_settings_quality_attribute() {
    assert_eq!(
        parse_metadata(r#"<OMTSettings Quality="High" />"#),
        vec![Metadata::Settings { preview: None, quality: Some(Quality::High) }]
    );
}

#[test]
fn parse_group_flattens_web_and_ptz() {
    let xml = group_xml(&[&web_xml("http://10.0.0.5/"), &PtzMetadata::visca_command_xml("22", "8101040700FF")]);
    let items = parse_metadata(&xml);
    assert_eq!(
        items,
        vec![
            Metadata::Web { url: "http://10.0.0.5/".into() },
            Metadata::Ptz(PtzMetadata {
                protocol: "VISCA".into(),
                url: None,
                sequence: Some("22".into()),
                command: Some("8101040700FF".into()),
                reply: None,
            }),
        ]
    );
}

#[test]
fn parse_ancillary_packet() {
    let xml = r#"<AncillaryData xmns="urn:anc:1.0">
<Packet did="45" sdid="01" line="21">
<Payload>81010A011E0000</Payload>
</Packet>
</AncillaryData>"#;
    let items = parse_metadata(xml);
    match &items[0] {
        Metadata::Ancillary(anc) => {
            assert_eq!(anc.xmlns.as_deref(), Some("urn:anc:1.0"));
            assert_eq!(anc.packets[0].attr("did"), Some("45"));
            assert_eq!(anc.packets[0].payload, "81010A011E0000");
        }
        other => panic!("expected ancillary, got {other:?}"),
    }
}

#[test]
fn sender_info_roundtrip_attributes() {
    let info = SenderInfo::new("Studio", "Mikansei", "1.0");
    let parsed = SenderInfo::from_xml(&info.to_xml()).unwrap();
    assert_eq!(parsed, info);
}

#[test]
fn metadata_roundtrip_matches_libomtnet() {
    let bytes = encode_metadata_xml(SUBSCRIBE_VIDEO);
    assert_ne!(*bytes.last().unwrap(), 0);
    assert_eq!(bytes, SUBSCRIBE_VIDEO.as_bytes());
    let xml = decode_metadata_xml(&bytes).unwrap();
    assert_eq!(xml, SUBSCRIBE_VIDEO);
}

#[test]
fn metadata_with_nul_still_decodes() {
    let mut bytes = SUBSCRIBE_VIDEO.as_bytes().to_vec();
    bytes.push(0);
    let xml = decode_metadata_xml(&bytes).unwrap();
    assert_eq!(xml, SUBSCRIBE_VIDEO);
}

#[test]
fn metadata_without_nul_still_decodes() {
    let xml = decode_metadata_xml(b"<OMTTally Preview=\"true\" Program==\"false\" />").unwrap();
    assert!(xml.contains("OMTTally"));
}

#[test]
fn tally_program_double_equals_quirk() {
    assert!(TALLY_PREVIEW.contains(r#"Program=="false""#));
    assert!(TALLY_PROGRAM.contains(r#"Program=="true""#));
    assert!(TALLY_PREVIEW_PROGRAM.contains(r#"Program=="true""#));
    assert!(TALLY_NONE.contains(r#"Program=="false""#));
    assert!(!TALLY_PREVIEW.contains(r#"Program="false""#));
}

#[test]
fn tally_xml_mapping() {
    assert_eq!(tally_xml(Tally::new(0, 0)), TALLY_NONE);
    assert_eq!(tally_xml(Tally::new(1, 0)), TALLY_PREVIEW);
    assert_eq!(tally_xml(Tally::new(0, 1)), TALLY_PROGRAM);
    assert_eq!(tally_xml(Tally::new(1, 1)), TALLY_PREVIEW_PROGRAM);
}

#[test]
fn parse_metadata_reads_attribute_keys() {
    let items = parse_metadata(r#"<OMTTally Preview="true" Program=="true" />"#);
    assert_eq!(items, vec![Metadata::Tally(Tally::new(1, 1))]);
}

#[test]
fn sent_tally_reads_back_normalized() {
    let t = Tally::new(5, -3);
    assert_eq!(parse_metadata(tally_xml(t)), vec![Metadata::Tally(Tally::new(1, 1))]);
    assert_eq!(classify(tally_xml(t)), vec![MetadataCommand::Tally(Tally::new(1, 1))]);
}

#[test]
fn invalid_utf8_is_a_protocol_error() {
    match decode_metadata_xml(&[0x3c, 0xff, 0x3e]) {
        Err(OmtError::Protocol(m)) => assert!(m.starts_with("invalid metadata utf-8: ")),
        other => panic!("unexpected {other:?}"),
    }
}

#[test]
fn classify_lists_commands_in_order() {
    assert_eq!(
        classify(r#"<OMTSubscribe Video="true" Audio="1" Metadata="TRUE" />"#),
        vec![
            MetadataCommand::SubscribeVideo,
            MetadataCommand::SubscribeAudio,
            MetadataCommand::SubscribeMetadata
        ]
    );
    assert_eq!(
        classify(r#"<OMTSettings Preview="false" Quality="Low" />"#),
        vec![MetadataCommand::PreviewOff, MetadataCommand::Quality(Quality::Low)]
    );
    assert!(classify("<OMTWeb URL=\"x\" />").is_empty());
    assert!(!is_subscribe(SUBSCRIBE_AUDIO, "Video"));
}

#[test]
fn builders_escape_values() {
    assert_eq!(web_xml("a&b"), "<OMTWeb URL=\"a&amp;b\" />");
    assert_eq!(redirect_xml("omt://h:1/'x'"), "<OMTRedirect NewAddress=\"omt://h:1/&apos;x&apos;\" />");
    assert_eq!(
        PtzMetadata::visca_over_ip_xml("visca://1.2.3.4:52381"),
        "<OMTPTZ Protocol=\"VISCAoverIP\" URL=\"visca://1.2.3.4:52381\" />"
    );
    assert_eq!(
        PtzMetadata::visca_reply_xml("1", "9041FF"),
        "<OMTPTZ Protocol=\"VISCA\" Sequence=\"1\" Reply=\"9041FF\" />"
    );
    assert_eq!(suggested_quality_xml(Quality::Medium), "<OMTSettings Quality=\"Medium\" />");
    assert_eq!(suggested_quality_xml_alias(Quality::Default), "<OMTSettings Quality=\"Default\" />");
    assert_eq!(group_xml(&["  <A/> ", "<B/>"]), "<OMTGroup>\n<A/>\n<B/>\n</OMTGroup>");
}

#[test]
fn address_and_unknown_documents() {
    let xml = "<OMTAddress><Name>H (S)</Name><Port>+6400</Port><Removed>true</Removed><Addresses><Address>b</Address><IPAddress>a</IPAddress></Addresses></OMTAddress>";
    assert_eq!(
        parse_metadata(xml),
        vec![Metadata::Address {
            name: "H (S)".into(),
            port: 6400,
            removed: true,
            addresses: vec!["a".into(), "b".into()],
        }]
    );
    match &parse_metadata("<Custom k=\"v\">t</Custom>")[0] {
        Metadata::Unknown(el) => {
            assert_eq!(el.name, "Custom");
            assert_eq!(el.text, "t");
        }
        other => panic!("unexpected {other:?}"),
    }
}

#[test]
fn metadata_frame_parse_and_packet_attr() {
    let f = MetadataFrame { timestamp: 1, xml: r#"<OMTRedirect NewAddress="omt://x:1/y" />"#.into() };
    assert_eq!(f.parse(), vec![Metadata::Redirect { new_address: "omt://x:1/y".into() }]);
    let p = AncillaryPacket { attributes: vec![("a".into(), "1".into())], payload: String::new() };
    assert_eq!(p.attr("a"), Some("1"));
    assert_eq!(p.attr("b"), None);
}

#[test]
fn encoded_metadata_decodes_back_with_or_without_nul() {
    let x = "<OMTInfo Name=\"Cämera\" />";
    assert_eq!(decode_metadata_xml(&encode_metadata_xml(x)).unwrap(), x);
    let mut with_nul = encode_metadata_xml(x);
    with_nul.push(0);
    with_nul.extend_from_slice(b"junk");
    assert_eq!(decode_metadata_xml(&with_nul).unwrap(), x);
}
