//! Metadata XML templates, typed parse, and helpers.
//!
//! Sending emits the exact libomtnet control strings (including the tally
//! `Program==` quirk) so stacks that compare whole strings keep working.
//!
//! Receiving matches the four libomtnet tally constants by exact string (those
//! documents are not well-formed XML). Everything else is parsed as XML and read
//! by element and attribute names, including well-formed `<OMTTally>`.
use vstd::prelude::*;
use crate::error::OmtError;
use crate::protocol::xml::{
    XmlElement, XmlTree, XmlNodeView, escape_xml, parse_bool, tree_of, forest_of, lookup_attr,
    tree_child, tree_child_text, all_named, bool_text, opt_view, xml_document, strip_bom,
    node_tree, first_child_element, find_attr, lemma_forest_index, copy_pairs,
};
use crate::text::{
    owned, push_str, push_char, str_chars, str_eq, trim, trim_bounds, escape_seq,
    push_escaped_str, decimal, digit_char, lemma_trim_plain,
};
use crate::types::{MetadataFrame, Quality, SenderInfo, Tally, quality_name};
use vstd::utf8::{valid_utf8, decode_utf8, encode_utf8};
use crate::text::trim_str;

verus! {

broadcast use vstd::string::group_string_axioms;

/// Subscribe to video frames.
pub const SUBSCRIBE_VIDEO: &'static str = "<OMTSubscribe Video=\"true\" />";
/// Subscribe to audio frames.
pub const SUBSCRIBE_AUDIO: &'static str = "<OMTSubscribe Audio=\"true\" />";
/// Subscribe to metadata frames.
pub const SUBSCRIBE_METADATA: &'static str = "<OMTSubscribe Metadata=\"true\" />";
/// Enable preview mode.
pub const PREVIEW_ON: &'static str = "<OMTSettings Preview=\"true\" />";
/// Disable preview mode.
pub const PREVIEW_OFF: &'static str = "<OMTSettings Preview=\"false\" />";
/// Suggested quality template (`Default` / `Low` / `Medium` / `High`).
pub const SUGGESTED_QUALITY: &'static str = "<OMTSettings Quality=\"Default\" />";
/// Prefix used when building a quality suggestion dynamically.
pub const SUGGESTED_QUALITY_PREFIX: &'static str = "<OMTSettings Quality=";
/// Tally: preview on, program off (`Program==` is intentional on the wire).
pub const TALLY_PREVIEW: &'static str = "<OMTTally Preview=\"true\" Program==\"false\" />";
/// Tally: preview off, program on.
pub const TALLY_PROGRAM: &'static str = "<OMTTally Preview=\"false\" Program==\"true\" />";
/// Tally: both on.
pub const TALLY_PREVIEW_PROGRAM: &'static str = "<OMTTally Preview=\"true\" Program==\"true\" />";
/// Tally: both off.
pub const TALLY_NONE: &'static str = "<OMTTally Preview=\"false\" Program==\"false\" />";
/// Sender info element name.
pub const SENDER_INFO_NAME: &'static str = "OMTInfo";
/// Sender info XML prefix.
pub const SENDER_INFO_PREFIX: &'static str = "<OMTInfo";
/// Address element name.
pub const ADDRESS_NAME: &'static str = "OMTAddress";
/// Redirect element name.
pub const REDIRECT_NAME: &'static str = "OMTRedirect";
/// Redirect XML prefix.
pub const REDIRECT_PREFIX: &'static str = "<OMTRedirect";

/// PTZ metadata.
#[derive(Debug, PartialEq, Eq, Default)]
pub struct PtzMetadata {
    /// `VISCAoverIP` or `VISCA`.
    pub protocol: String,
    /// `visca://host:port` for out-of-band VISCA.
    pub url: Option<String>,
    /// In-band VISCA sequence number.
    pub sequence: Option<String>,
    /// Hex command payload (controller → camera).
    pub command: Option<String>,
    /// Hex reply payload (camera → controller).
    pub reply: Option<String>,
}

/// SDI ancillary metadata.
#[derive(Debug, PartialEq, Eq, Default)]
pub struct AncillaryMetadata {
    /// `xmlns` / `xmns` attribute when present.
    pub xmlns: Option<String>,
    /// `<Packet>` children.
    pub packets: Vec<AncillaryPacket>,
}

/// One ancillary packet.
#[derive(Debug, PartialEq, Eq, Default)]
pub struct AncillaryPacket {
    /// Packet attributes (`did`, `sdid`, `line`, …).
    pub attributes: Vec<(String, String)>,
    /// Hex payload from `<Payload>`.
    pub payload: String,
}

/// Parsed OMT metadata document.
#[derive(Debug, PartialEq, Eq)]
pub enum Metadata {
    /// `<OMTSubscribe … />`
    Subscribe {
        /// Video subscription requested.
        video: bool,
        /// Audio subscription requested.
        audio: bool,
        /// Metadata subscription requested.
        metadata: bool,
    },
    /// `<OMTSettings Preview="…" Quality="…" />` (either attribute may be absent).
    Settings {
        /// Preview mode when the `Preview` attribute is present.
        preview: Option<bool>,
        /// Suggested quality when the `Quality` attribute is present.
        quality: Option<Quality>,
    },
    /// `<OMTTally Preview="…" Program="…" />`.
    Tally(Tally),
    /// `<OMTInfo … />`
    SenderInfo(SenderInfo),
    /// `<OMTRedirect NewAddress="…" />`
    Redirect {
        /// New source URL / name.
        new_address: String,
    },
    /// `<OMTAddress>` discovery registration.
    Address {
        /// Instance name (`MACHINE (Source)`).
        name: String,
        /// TCP port.
        port: u16,
        /// Whether this entry was removed.
        removed: bool,
        /// Advertised IP addresses.
        addresses: Vec<String>,
    },
    /// `<OMTWeb URL="…" />`
    Web {
        /// Management URL.
        url: String,
    },
    /// `<OMTPTZ … />`
    Ptz(PtzMetadata),
    /// `<AncillaryData>…</AncillaryData>`
    Ancillary(AncillaryMetadata),
    /// Unrecognized element (its element tree kept).
    Unknown(XmlElement),
}

/// Control command carried by a metadata document.
#[derive(Debug, Clone, Copy, PartialEq, Eq)]
pub enum MetadataCommand {
    /// Subscribe video.
    SubscribeVideo,
    /// Subscribe audio.
    SubscribeAudio,
    /// Subscribe metadata.
    SubscribeMetadata,
    /// Preview on.
    PreviewOn,
    /// Preview off.
    PreviewOff,
    /// Suggested quality.
    Quality(Quality),
    /// Tally update.
    Tally(Tally),
}

/// The content of a [`Metadata`] value.
#[allow(inconsistent_fields)]
pub enum MetaView {
    Subscribe { video: bool, audio: bool, metadata: bool },
    Settings { preview: Option<bool>, quality: Option<Quality> },
    Tally(Tally),
    SenderInfo { product_name: Seq<char>, manufacturer: Seq<char>, version: Seq<char> },
    Redirect { new_address: Seq<char> },
    Address { name: Seq<char>, port: u16, removed: bool, addresses: Seq<Seq<char>> },
    Web { url: Seq<char> },
    Ptz {
        protocol: Seq<char>,
        url: Option<Seq<char>>,
        sequence: Option<Seq<char>>,
        command: Option<Seq<char>>,
        reply: Option<Seq<char>>,
    },
    Ancillary {
        xmlns: Option<Seq<char>>,
        packets: Seq<(Seq<(Seq<char>, Seq<char>)>, Seq<char>)>,
    },
    Unknown(XmlTree),
}

impl View for Metadata {
    type V = MetaView;

    open spec fn view(&self) -> MetaView {
        match self {
            Metadata::Subscribe { video, audio, metadata } => MetaView::Subscribe {
                video: *video,
                audio: *audio,
                metadata: *metadata,
            },
            Metadata::Settings { preview, quality } => MetaView::Settings {
                preview: *preview,
                quality: *quality,
            },
            Metadata::Tally(t) => MetaView::Tally(*t),
            Metadata::SenderInfo(i) => MetaView::SenderInfo {
                product_name: i.product_name@,
                manufacturer: i.manufacturer@,
                version: i.version@,
            },
            Metadata::Redirect { new_address } => MetaView::Redirect { new_address: new_address@ },
            Metadata::Address { name, port, removed, addresses } => MetaView::Address {
                name: name@,
                port: *port,
                removed: *removed,
                addresses: addresses.deep_view(),
            },
            Metadata::Web { url } => MetaView::Web { url: url@ },
            Metadata::Ptz(p) => MetaView::Ptz {
                protocol: p.protocol@,
                url: p.url.deep_view(),
                sequence: p.sequence.deep_view(),
                command: p.command.deep_view(),
                reply: p.reply.deep_view(),
            },
            Metadata::Ancillary(a) => MetaView::Ancillary {
                xmlns: a.xmlns.deep_view(),
                packets: a.packets@.map_values(|p: AncillaryPacket| (p.attributes.deep_view(), p.payload@)),
            },
            Metadata::Unknown(e) => MetaView::Unknown(tree_of(*e)),
        }
    }
}

/// The contents of a sequence of metadata values.
pub open spec fn metas_view(s: Seq<Metadata>) -> Seq<MetaView> {
    s.map_values(|m: Metadata| m@)
}

/// The value of attribute `name`, or empty when it is missing.
pub open spec fn attr_or_empty(t: XmlTree, name: Seq<char>) -> Seq<char> {
    match lookup_attr(t.attributes, name) {
        Some(v) => v,
        None => Seq::empty(),
    }
}

/// Attribute `name` read as a boolean.
pub open spec fn attr_flag(t: XmlTree, name: Seq<char>) -> Option<bool> {
    match lookup_attr(t.attributes, name) {
        Some(v) => bool_text(v),
        None => None,
    }
}

/// The quality named `s` (exact, case-sensitive).
pub open spec fn quality_named(s: Seq<char>) -> Option<Quality> {
    if s == "Default"@ {
        Some(Quality::Default)
    } else if s == "Low"@ {
        Some(Quality::Low)
    } else if s == "Medium"@ {
        Some(Quality::Medium)
    } else if s == "High"@ {
        Some(Quality::High)
    } else {
        None
    }
}

/// Whether every character of `s` is an ASCII digit.
pub open spec fn all_digits(s: Seq<char>) -> bool {
    forall|i: int| 0 <= i < s.len() ==> '0' <= #[trigger] s[i] <= '9'
}

/// The number written by the decimal digits `s`.
pub open spec fn digits_value(s: Seq<char>) -> nat
    decreases s.len(),
{
    if s.len() == 0 {
        0
    } else {
        digits_value(s.drop_last()) * 10 + ((s.last() as u32) - ('0' as u32)) as nat
    }
}

/// `str::parse::<u16>`: an optional `+`, then one or more decimal digits whose
/// value fits in 16 bits.
pub open spec fn parse_u16(s: Seq<char>) -> Option<u16> {
    let d = if s.len() > 0 && s[0] == '+' {
        s.drop_first()
    } else {
        s
    };
    if d.len() == 0 || !all_digits(d) || digits_value(d) > 65535 {
        None
    } else {
        Some(digits_value(d) as u16)
    }
}

/// The decimal text of `n`: digits, reading back as `n`.
pub proof fn lemma_decimal_digits(n: nat)
    ensures
        decimal(n).len() >= 1,
        all_digits(decimal(n)),
        digits_value(decimal(n)) == n,
    decreases n,
{
    let c = digit_char(n % 10);
    assert(c as u32 == '0' as u32 + n % 10);
    if n >= 10 {
        lemma_decimal_digits(n / 10);
        let d = decimal(n / 10);
        assert(decimal(n) == d.push(c));
        assert(decimal(n).drop_last() =~= d);
        assert(digits_value(decimal(n)) == digits_value(d) * 10 + (n % 10));
        assert((n / 10) * 10 + n % 10 == n) by (nonlinear_arith);
    } else {
        assert(decimal(n).drop_last() =~= Seq::<char>::empty());
        assert(decimal(n).last() == c);
        assert(digits_value(decimal(n)) == digits_value(Seq::<char>::empty()) * 10 + n % 10);
    }
}

/// The decimal text of a port parses back as that port; it is made of
/// digits and has no surrounding white space.
pub proof fn lemma_parse_decimal_port(port: u16)
    ensures
        parse_u16(decimal(port as nat)) == Some(port),
        all_digits(decimal(port as nat)),
        trim(decimal(port as nat)) == decimal(port as nat),
{
    let d = decimal(port as nat);
    lemma_decimal_digits(port as nat);
    assert('0' <= d[0] <= '9');
    assert('0' <= d[d.len() - 1] <= '9');
    lemma_trim_plain(d);
}

/// The texts of a sequence of trees.
pub open spec fn texts(s: Seq<XmlTree>) -> Seq<Seq<char>> {
    s.map_values(|c: XmlTree| c.text)
}

/// An ancillary packet read from a `<Packet>` element.
pub open spec fn packet_of(p: XmlTree) -> (Seq<(Seq<char>, Seq<char>)>, Seq<char>) {
    (
        p.attributes,
        match tree_child_text(p, "Payload"@) {
            Some(v) => v,
            None => Seq::empty(),
        },
    )
}

/// An `<OMTTally>` element reads as a tally whose preview light is on (1)
/// exactly when its `Preview` attribute reads true and whose program light
/// is on exactly when its `Program` attribute reads true; each light is 0
/// or 1. With the attributes written as `Preview`, then `Program`, the
/// lights follow the two values in that order.
pub proof fn lemma_tally_element(t: XmlTree, p: Seq<char>, q: Seq<char>)
    requires
        t.name == "OMTTally"@,
    ensures
        element_meta(t) is Tally,
        (element_meta(t)->Tally_0.preview == 1) == (attr_flag(t, "Preview"@) == Some(true)),
        (element_meta(t)->Tally_0.program == 1) == (attr_flag(t, "Program"@) == Some(true)),
        element_meta(t)->Tally_0.preview == 0 || element_meta(t)->Tally_0.preview == 1,
        element_meta(t)->Tally_0.program == 0 || element_meta(t)->Tally_0.program == 1,
        t.attributes == seq![("Preview"@, p), ("Program"@, q)] ==> (element_meta(t)->Tally_0.preview
            == 1) == (bool_text(p) == Some(true)) && (element_meta(t)->Tally_0.program == 1) == (
        bool_text(q) == Some(true)),
{
    reveal_strlit("OMTTally");
    reveal_strlit("OMTSubscribe");
    reveal_strlit("OMTSettings");
    reveal_strlit("Preview");
    reveal_strlit("Program");
    assert("OMTTally"@.len() != "OMTSubscribe"@.len());
    assert("OMTTally"@.len() != "OMTSettings"@.len());
    assert("OMTTally"@ != "OMTSubscribe"@);
    assert("OMTTally"@ != "OMTSettings"@);
    assert("Preview"@[2] != "Program"@[2]);
    assert("Preview"@ != "Program"@);
    if t.attributes == seq![("Preview"@, p), ("Program"@, q)] {
        assert(t.attributes[0].0 == "Preview"@);
        assert(t.attributes[0].0 != "Program"@);
        assert(t.attributes.drop_first() =~= seq![("Program"@, q)]);
        assert(lookup_attr(t.attributes, "Preview"@) == Some(p));
        assert(lookup_attr(t.attributes.drop_first(), "Program"@) == Some(q));
        assert(lookup_attr(t.attributes, "Program"@) == Some(q));
    }
}

/// The typed document that one element stands for.
pub open spec fn element_meta(t: XmlTree) -> MetaView {
    if t.name == "OMTSubscribe"@ {
        MetaView::Subscribe {
            video: attr_flag(t, "Video"@) == Some(true),
            audio: attr_flag(t, "Audio"@) == Some(true),
            metadata: attr_flag(t, "Metadata"@) == Some(true),
        }
    } else if t.name == "OMTSettings"@ {
        MetaView::Settings {
            preview: attr_flag(t, "Preview"@),
            quality: match lookup_attr(t.attributes, "Quality"@) {
                Some(v) => quality_named(v),
                None => None,
            },
        }
    } else if t.name == "OMTTally"@ {
        MetaView::Tally(
            Tally {
                preview: if attr_flag(t, "Preview"@) == Some(true) {
                    1
                } else {
                    0
                },
                program: if attr_flag(t, "Program"@) == Some(true) {
                    1
                } else {
                    0
                },
            },
        )
    } else if t.name == "OMTInfo"@ {
        MetaView::SenderInfo {
            product_name: attr_or_empty(t, "ProductName"@),
            manufacturer: attr_or_empty(t, "Manufacturer"@),
            version: attr_or_empty(t, "Version"@),
        }
    } else if t.name == "OMTRedirect"@ {
        MetaView::Redirect { new_address: attr_or_empty(t, "NewAddress"@) }
    } else if t.name == "OMTAddress"@ {
        MetaView::Address {
            name: match tree_child_text(t, "Name"@) {
                Some(v) => v,
                None => Seq::empty(),
            },
            port: match tree_child_text(t, "Port"@) {
                Some(p) => match parse_u16(p) {
                    Some(n) => n,
                    None => 0,
                },
                None => 0,
            },
            removed: match tree_child_text(t, "Removed"@) {
                Some(v) => bool_text(v) == Some(true),
                None => false,
            },
            addresses: match tree_child(t, "Addresses"@) {
                Some(a) => texts(all_named(a.children, "IPAddress"@)) + texts(
                    all_named(a.children, "Address"@),
                ),
                None => Seq::empty(),
            },
        }
    } else if t.name == "OMTWeb"@ {
        MetaView::Web { url: attr_or_empty(t, "URL"@) }
    } else if t.name == "OMTPTZ"@ {
        MetaView::Ptz {
            protocol: attr_or_empty(t, "Protocol"@),
            url: lookup_attr(t.attributes, "URL"@),
            sequence: lookup_attr(t.attributes, "Sequence"@),
            command: lookup_attr(t.attributes, "Command"@),
            reply: lookup_attr(t.attributes, "Reply"@),
        }
    } else if t.name == "AncillaryData"@ {
        MetaView::Ancillary {
            xmlns: match lookup_attr(t.attributes, "xmlns"@) {
                Some(v) => Some(v),
                None => lookup_attr(t.attributes, "xmns"@),
            },
            packets: all_named(t.children, "Packet"@).map_values(|p: XmlTree| packet_of(p)),
        }
    } else {
        MetaView::Unknown(t)
    }
}

/// The documents of an element: the documents of each child, in order, for
/// `<OMTGroup>`; the element's own document otherwise.
pub open spec fn flatten_tree(t: XmlTree) -> Seq<MetaView>
    decreases t, 1int,
{
    if t.name == "OMTGroup"@ {
        flatten_forest(t.children)
    } else {
        seq![element_meta(t)]
    }
}

/// The documents of a sequence of elements, concatenated in order.
pub open spec fn flatten_forest(s: Seq<XmlTree>) -> Seq<MetaView>
    decreases s, 0int,
{
    if s.len() == 0 {
        Seq::empty()
    } else {
        flatten_forest(s.subrange(0, s.len() - 1)) + flatten_tree(s[s.len() - 1])
    }
}

/// The tally that one of the four exact libomtnet tally strings stands for.
pub open spec fn libomtnet_tally(xml: Seq<char>) -> Option<Tally> {
    if xml == TALLY_PREVIEW@ {
        Some(Tally { preview: 1, program: 0 })
    } else if xml == TALLY_PROGRAM@ {
        Some(Tally { preview: 0, program: 1 })
    } else if xml == TALLY_PREVIEW_PROGRAM@ {
        Some(Tally { preview: 1, program: 1 })
    } else if xml == TALLY_NONE@ {
        Some(Tally { preview: 0, program: 0 })
    } else {
        None
    }
}

/// The typed documents of a metadata string: the tally of an exact libomtnet
/// tally string; otherwise the flattened documents of the XML root element;
/// nothing when the XML does not parse.
pub open spec fn parsed_metadata(xml: Seq<char>) -> Seq<MetaView> {
    match libomtnet_tally(xml) {
        Some(t) => seq![MetaView::Tally(t)],
        None => match xml_document(strip_bom(xml)) {
            Ok(nodes) => flatten_tree(node_tree(nodes, first_child_element(nodes, 0, 1))),
            Err(_) => Seq::empty(),
        },
    }
}

/// The control commands a document carries.
pub open spec fn commands_of(m: MetaView) -> Seq<MetadataCommand> {
    match m {
        MetaView::Subscribe { video, audio, metadata } => (if video {
            seq![MetadataCommand::SubscribeVideo]
        } else {
            Seq::empty()
        }) + (if audio {
            seq![MetadataCommand::SubscribeAudio]
        } else {
            Seq::empty()
        }) + (if metadata {
            seq![MetadataCommand::SubscribeMetadata]
        } else {
            Seq::empty()
        }),
        MetaView::Settings { preview, quality } => (match preview {
            Some(on) => seq![
                if on {
                    MetadataCommand::PreviewOn
                } else {
                    MetadataCommand::PreviewOff
                },
            ],
            None => Seq::empty(),
        }) + (match quality {
            Some(q) => seq![MetadataCommand::Quality(q)],
            None => Seq::empty(),
        }),
        MetaView::Tally(t) => seq![MetadataCommand::Tally(t)],
        _ => Seq::empty(),
    }
}

/// The commands of a sequence of documents, concatenated in order.
pub open spec fn commands_all(s: Seq<MetaView>) -> Seq<MetadataCommand>
    decreases s.len(),
{
    if s.len() == 0 {
        Seq::empty()
    } else {
        commands_all(s.drop_last()) + commands_of(s.last())
    }
}

/// Whether a document subscribes to the frame kind named `kind`.
pub open spec fn subscribes(m: MetaView, kind: Seq<char>) -> bool {
    match m {
        MetaView::Subscribe { video, audio, metadata } => (kind == "Video"@ && video) || (kind
            == "Audio"@ && audio) || (kind == "Metadata"@ && metadata),
        _ => false,
    }
}

/// The first sender-info document of a sequence.
pub open spec fn first_sender_info(s: Seq<MetaView>) -> Option<(Seq<char>, Seq<char>, Seq<char>)>
    decreases s.len(),
{
    if s.len() == 0 {
        None
    } else {
        match s[0] {
            MetaView::SenderInfo { product_name, manufacturer, version } => Some(
                (product_name, manufacturer, version),
            ),
            _ => first_sender_info(s.drop_first()),
        }
    }
}

/// The exact tally constant sent for a tally state.
pub open spec fn tally_text(t: Tally) -> Seq<char> {
    if t.preview != 0 && t.program != 0 {
        TALLY_PREVIEW_PROGRAM@
    } else if t.preview != 0 {
        TALLY_PREVIEW@
    } else if t.program != 0 {
        TALLY_PROGRAM@
    } else {
        TALLY_NONE@
    }
}

/// The concatenation of each document of `docs`, trimmed and followed by a
/// line break.
pub open spec fn group_body(docs: Seq<&str>) -> Seq<char>
    decreases docs.len(),
{
    if docs.len() == 0 {
        Seq::empty()
    } else {
        group_body(docs.drop_last()) + trim(docs.last()@) + seq!['\n']
    }
}


/// An owned copy of an optional string.
fn opt_string(o: Option<&str>) -> (r: Option<String>)
    ensures
        r.deep_view() == opt_view(o),
{
    match o {
        Some(v) => Some(owned(v)),
        None => None,
    }
}

/// Attribute `name` of `el`, or an empty string.
fn attr_string(el: &XmlElement, name: &str) -> (r: String)
    ensures
        r@ == attr_or_empty(tree_of(*el), name@),
{
    match el.attr(name) {
        Some(v) => owned(v),
        None => String::new(),
    }
}

/// Whether attribute `name` of `el` reads as `true`.
fn attr_true(el: &XmlElement, name: &str) -> (r: bool)
    ensures
        r == (attr_flag(tree_of(*el), name@) == Some(true)),
{
    match el.attr_bool(name) {
        Some(b) => b,
        None => false,
    }
}

/// The quality named `name`.
pub fn quality_from_name(name: &str) -> (r: Option<Quality>)
    ensures
        r == quality_named(name@),
{
    if str_eq(name, "Default") {
        Some(Quality::Default)
    } else if str_eq(name, "Low") {
        Some(Quality::Low)
    } else if str_eq(name, "Medium") {
        Some(Quality::Medium)
    } else if str_eq(name, "High") {
        Some(Quality::High)
    } else {
        None
    }
}

proof fn lemma_digits_monotone(s: Seq<char>, k: int)
    requires
        0 <= k <= s.len(),
        all_digits(s),
    ensures
        digits_value(s.take(k)) <= digits_value(s),
    decreases s.len() - k,
{
    if k < s.len() {
        lemma_digits_monotone(s, k + 1);
        assert(s.take(k + 1).drop_last() =~= s.take(k));
        assert(s.take(k + 1).last() == s[k]);
        assert('0' <= s[k] <= '9');
    } else {
        assert(s.take(k) =~= s);
    }
}

/// Parse a decimal `u16` (`str::parse::<u16>`).
pub fn parse_u16_text(s: &str) -> (r: Option<u16>)
    ensures
        r == parse_u16(s@),
{
    let cs = str_chars(s);
    let start: usize = if cs.len() > 0 && cs[0] == '+' {
        1
    } else {
        0
    };
    let ghost d = if s@.len() > 0 && s@[0] == '+' {
        s@.drop_first()
    } else {
        s@
    };
    proof {
        assert(d =~= cs@.subrange(start as int, cs@.len() as int));
    }
    if start == cs.len() {
        return None;
    }
    let mut v: u32 = 0;
    let mut i: usize = start;
    while i < cs.len()
        invariant
            start <= i <= cs@.len(),
            cs@ == s@,
            d == cs@.subrange(start as int, cs@.len() as int),
            d == (if s@.len() > 0 && s@[0] == '+' {
                s@.drop_first()
            } else {
                s@
            }),
            d.len() > 0,
            all_digits(d.take(i - start)),
            v == digits_value(d.take(i - start)),
            v <= 65535,
        decreases cs@.len() - i,
    {
        let c = cs[i];
        if c < '0' || c > '9' {
            proof {
                assert(d[i - start] == c);
            }
            return None;
        }
        proof {
            assert(d.take(i - start + 1).drop_last() =~= d.take(i - start));
            assert(d.take(i - start + 1).last() == c);
        }
        v = v * 10 + ((c as u32) - ('0' as u32));
        i = i + 1;
        proof {
            assert forall|k: int| 0 <= k < d.take(i - start).len() implies '0' <= #[trigger] d.take(
                i - start,
            )[k] <= '9' by {
                if k < i - start - 1 {
                    assert(d.take(i - start)[k] == d.take(i - start - 1)[k]);
                }
            }
        }
        if v > 65535 {
            proof {
                assert forall|k: int| 0 <= k < d.len() implies '0' <= #[trigger] d[k] <= '9' || k >= i - start by {
                    if k < i - start {
                        assert(d.take(i - start)[k] == d[k]);
                    }
                }
                if all_digits(d) {
                    lemma_digits_monotone(d, i - start);
                }
            }
            return None;
        }
    }
    proof {
        assert(d.take(d.len() as int) =~= d);
    }
    Some(v as u16)
}

/// The texts of a list of elements.
fn texts_of(v: &Vec<&XmlElement>) -> (r: Vec<String>)
    ensures
        r.deep_view() == texts(v@.map_values(|c: &XmlElement| tree_of(*c))),
{
    let mut out: Vec<String> = Vec::new();
    let mut i: usize = 0;
    while i < v.len()
        invariant
            i <= v@.len(),
            out@.len() == i,
            forall|k: int| 0 <= k < i ==> (#[trigger] out@[k])@ == v@[k].text@,
        decreases v@.len() - i,
    {
        out.push(v[i].text.clone());
        i = i + 1;
    }
    assert(out.deep_view() =~= texts(v@.map_values(|c: &XmlElement| tree_of(*c))));
    out
}

/// The ancillary packets of a list of `<Packet>` elements.
fn packets_of(v: &Vec<&XmlElement>) -> (r: Vec<AncillaryPacket>)
    ensures
        r@.map_values(|p: AncillaryPacket| (p.attributes.deep_view(), p.payload@)) == v@.map_values(
            |c: &XmlElement| tree_of(*c),
        ).map_values(|p: XmlTree| packet_of(p)),
{
    let mut out: Vec<AncillaryPacket> = Vec::new();
    let mut i: usize = 0;
    while i < v.len()
        invariant
            i <= v@.len(),
            out@.len() == i,
            forall|k: int|
                0 <= k < i ==> (#[trigger] out@[k]).attributes.deep_view() == tree_of(*v@[k]).attributes
                    && out@[k].payload@ == packet_of(tree_of(*v@[k])).1,
        decreases v@.len() - i,
    {
        let p = v[i];
        let payload = match p.child_text("Payload") {
            Some(t) => owned(t),
            None => String::new(),
        };
        out.push(AncillaryPacket { attributes: copy_pairs(&p.attributes), payload });
        i = i + 1;
    }
    assert(out@.map_values(|p: AncillaryPacket| (p.attributes.deep_view(), p.payload@))
        =~= v@.map_values(|c: &XmlElement| tree_of(*c)).map_values(|p: XmlTree| packet_of(p)));
    out
}

/// The typed document that one element stands for.
pub fn element_to_metadata(el: &XmlElement) -> (r: Metadata)
    ensures
        r@ == element_meta(tree_of(*el)),
{
    let ghost t = tree_of(*el);
    let name = el.name.as_str();
    if str_eq(name, "OMTSubscribe") {
        Metadata::Subscribe {
            video: attr_true(el, "Video"),
            audio: attr_true(el, "Audio"),
            metadata: attr_true(el, "Metadata"),
        }
    } else if str_eq(name, "OMTSettings") {
        let quality = match el.attr("Quality") {
            Some(q) => quality_from_name(q),
            None => None,
        };
        Metadata::Settings { preview: el.attr_bool("Preview"), quality }
    } else if str_eq(name, "OMTTally") {
        let preview: i32 = if attr_true(el, "Preview") {
            1
        } else {
            0
        };
        let program: i32 = if attr_true(el, "Program") {
            1
        } else {
            0
        };
        Metadata::Tally(Tally::new(preview, program))
    } else if str_eq(name, "OMTInfo") {
        Metadata::SenderInfo(
            SenderInfo {
                product_name: attr_string(el, "ProductName"),
                manufacturer: attr_string(el, "Manufacturer"),
                version: attr_string(el, "Version"),
            },
        )
    } else if str_eq(name, "OMTRedirect") {
        Metadata::Redirect { new_address: attr_string(el, "NewAddress") }
    } else if str_eq(name, "OMTAddress") {
        let name_text = match el.child_text("Name") {
            Some(v) => owned(v),
            None => String::new(),
        };
        let port: u16 = match el.child_text("Port") {
            Some(p) => match parse_u16_text(p) {
                Some(n) => n,
                None => 0,
            },
            None => 0,
        };
        let removed = match el.child_text("Removed") {
            Some(v) => match parse_bool(v) {
                Some(b) => b,
                None => false,
            },
            None => false,
        };
        let addresses = match el.child("Addresses") {
            Some(a) => {
                let ips = a.children_named("IPAddress");
                let others = a.children_named("Address");
                let mut out = texts_of(&ips);
                let mut rest = texts_of(&others);
                let ghost first = out.deep_view();
                let ghost second = rest.deep_view();
                out.append(&mut rest);
                assert(out.deep_view() =~= first + second);
                out
            },
            None => Vec::new(),
        };
        assert(addresses.deep_view() =~= match tree_child(t, "Addresses"@) {
            Some(a) => texts(all_named(a.children, "IPAddress"@)) + texts(all_named(a.children, "Address"@)),
            None => Seq::empty(),
        });
        Metadata::Address { name: name_text, port, removed, addresses }
    } else if str_eq(name, "OMTWeb") {
        Metadata::Web { url: attr_string(el, "URL") }
    } else if str_eq(name, "OMTPTZ") {
        Metadata::Ptz(
            PtzMetadata {
                protocol: attr_string(el, "Protocol"),
                url: opt_string(el.attr("URL")),
                sequence: opt_string(el.attr("Sequence")),
                command: opt_string(el.attr("Command")),
                reply: opt_string(el.attr("Reply")),
            },
        )
    } else if str_eq(name, "AncillaryData") {
        let xmlns = match el.attr("xmlns") {
            Some(v) => Some(owned(v)),
            None => opt_string(el.attr("xmns")),
        };
        let packet_elements = el.children_named("Packet");
        let packets = packets_of(&packet_elements);
        Metadata::Ancillary(AncillaryMetadata { xmlns, packets })
    } else {
        Metadata::Unknown(el.duplicate())
    }
}

proof fn lemma_flatten_push(s: Seq<XmlTree>, t: XmlTree)
    ensures
        flatten_forest(s.push(t)) == flatten_forest(s) + flatten_tree(t),
{
    assert(s.push(t).subrange(0, s.len() as int) =~= s);
}

/// The typed documents of a parsed root element; `<OMTGroup>` children are
/// flattened, in order.
pub fn metadata_from_element(el: &XmlElement) -> (r: Vec<Metadata>)
    ensures
        metas_view(r@) == flatten_tree(tree_of(*el)),
    decreases el,
{
    if str_eq(el.name.as_str(), "OMTGroup") {
        let ghost all = forest_of(el.children@);
        proof {
            lemma_forest_index(el.children@);
        }
        let mut out: Vec<Metadata> = Vec::new();
        let mut i: usize = 0;
        while i < el.children.len()
            invariant
                i <= el.children@.len(),
                all == forest_of(el.children@),
                all.len() == el.children@.len(),
                forall|k: int| 0 <= k < all.len() ==> #[trigger] all[k] == tree_of(el.children@[k]),
                metas_view(out@) == flatten_forest(all.take(i as int)),
            decreases el.children@.len() - i,
        {
            let mut sub = metadata_from_element(&el.children[i]);
            let ghost before = out@;
            let ghost added = sub@;
            out.append(&mut sub);
            proof {
                lemma_flatten_push(all.take(i as int), all[i as int]);
                assert(all.take(i as int).push(all[i as int]) =~= all.take(i + 1));
                assert(metas_view(out@) =~= metas_view(before) + metas_view(added));
            }
            i = i + 1;
        }
        proof {
            assert(all.take(all.len() as int) =~= all);
        }
        out
    } else {
        let m = element_to_metadata(el);
        let out = vec![m];
        assert(metas_view(out@) =~= seq![element_meta(tree_of(*el))]);
        out
    }
}

/// The tally of an exact libomtnet tally string.
fn tally_from_libomtnet_constant(xml: &str) -> (r: Option<Tally>)
    ensures
        r == libomtnet_tally(xml@),
{
    if str_eq(xml, TALLY_PREVIEW) {
        Some(Tally::new(1, 0))
    } else if str_eq(xml, TALLY_PROGRAM) {
        Some(Tally::new(0, 1))
    } else if str_eq(xml, TALLY_PREVIEW_PROGRAM) {
        Some(Tally::new(1, 1))
    } else if str_eq(xml, TALLY_NONE) {
        Some(Tally::new(0, 0))
    } else {
        None
    }
}

/// Parse XML into typed documents. `<OMTGroup>` children are flattened.
///
/// The exact libomtnet tally strings (which contain `Program==` and are not
/// XML) are matched first; other text is parsed as XML, and text that does
/// not parse yields no document.
pub fn parse_metadata(xml: &str) -> (r: Vec<Metadata>)
    ensures
        metas_view(r@) == parsed_metadata(xml@),
{
    if let Some(tally) = tally_from_libomtnet_constant(xml) {
        let out = vec![Metadata::Tally(tally)];
        assert(metas_view(out@) =~= seq![MetaView::Tally(tally)]);
        return out;
    }
    match XmlElement::parse(xml) {
        Ok(root) => metadata_from_element(&root),
        Err(_) => {
            let out: Vec<Metadata> = Vec::new();
            assert(metas_view(out@) =~= Seq::<MetaView>::empty());
            out
        },
    }
}


/// The control commands of one document.
fn metadata_to_commands(item: &Metadata) -> (r: Vec<MetadataCommand>)
    ensures
        r@ == commands_of(item@),
{
    let mut out: Vec<MetadataCommand> = Vec::new();
    match item {
        Metadata::Subscribe { video, audio, metadata } => {
            if *video {
                out.push(MetadataCommand::SubscribeVideo);
            }
            let ghost a = out@;
            if *audio {
                out.push(MetadataCommand::SubscribeAudio);
            }
            let ghost b = out@;
            if *metadata {
                out.push(MetadataCommand::SubscribeMetadata);
            }
            assert(out@ =~= commands_of(item@));
        },
        Metadata::Settings { preview, quality } => {
            match preview {
                Some(on) => out.push(
                    if *on {
                        MetadataCommand::PreviewOn
                    } else {
                        MetadataCommand::PreviewOff
                    },
                ),
                None => {},
            }
            match quality {
                Some(q) => out.push(MetadataCommand::Quality(*q)),
                None => {},
            }
            assert(out@ =~= commands_of(item@));
        },
        Metadata::Tally(t) => {
            out.push(MetadataCommand::Tally(*t));
            assert(out@ =~= commands_of(item@));
        },
        _ => {
            assert(out@ =~= commands_of(item@));
        },
    }
    out
}

/// Match a metadata XML string to known control commands (flattened).
pub fn classify(xml: &str) -> (r: Vec<MetadataCommand>)
    ensures
        r@ == commands_all(parsed_metadata(xml@)),
{
    let items = parse_metadata(xml);
    let ghost ms = metas_view(items@);
    let mut out: Vec<MetadataCommand> = Vec::new();
    let mut i: usize = 0;
    while i < items.len()
        invariant
            i <= items@.len(),
            ms == metas_view(items@),
            out@ == commands_all(ms.take(i as int)),
        decreases items@.len() - i,
    {
        let mut cmds = metadata_to_commands(&items[i]);
        let ghost before = out@;
        let ghost added = cmds@;
        out.append(&mut cmds);
        proof {
            assert(ms.take(i + 1).drop_last() =~= ms.take(i as int));
            assert(ms.take(i + 1).last() == items@[i as int]@);
            assert(out@ =~= before + added);
        }
        i = i + 1;
    }
    proof {
        assert(ms.take(ms.len() as int) =~= ms);
    }
    out
}

/// Returns true if `xml` requests a subscribe for the given type keyword
/// (`Video`, `Audio` or `Metadata`).
pub fn is_subscribe(xml: &str, kind: &str) -> (r: bool)
    ensures
        r == exists|k: int|
            0 <= k < parsed_metadata(xml@).len() && #[trigger] subscribes(parsed_metadata(xml@)[k], kind@),
{
    let items = parse_metadata(xml);
    let ghost ms = metas_view(items@);
    let video = str_eq(kind, "Video");
    let audio = str_eq(kind, "Audio");
    let meta = str_eq(kind, "Metadata");
    let mut i: usize = 0;
    while i < items.len()
        invariant
            i <= items@.len(),
            ms == metas_view(items@),
            ms == parsed_metadata(xml@),
            video == (kind@ == "Video"@),
            audio == (kind@ == "Audio"@),
            meta == (kind@ == "Metadata"@),
            forall|k: int| 0 <= k < i ==> !#[trigger] subscribes(ms[k], kind@),
        decreases items@.len() - i,
    {
        let hit = match &items[i] {
            Metadata::Subscribe { video: v, audio: a, metadata: m } => (video && *v) || (audio && *a)
                || (meta && *m),
            _ => false,
        };
        if hit {
            assert(subscribes(ms[i as int], kind@));
            return true;
        }
        i = i + 1;
    }
    false
}

impl MetadataFrame {
    /// Parse this frame's XML into typed documents (`OMTGroup` is flattened).
    pub fn parse(&self) -> (r: Vec<Metadata>)
        ensures
            metas_view(r@) == parsed_metadata(self.xml@),
    {
        parse_metadata(self.xml.as_str())
    }
}

/// Parse `<OMTInfo … />` (attribute lookup, not string equality): the first
/// sender-info document of `xml`.
pub fn sender_info_from_xml(xml: &str) -> (r: Option<SenderInfo>)
    ensures
        match first_sender_info(parsed_metadata(xml@)) {
            Some(v) => r matches Some(info) && info.product_name@ == v.0 && info.manufacturer@ == v.1
                && info.version@ == v.2,
            None => r is None,
        },
{
    let items = parse_metadata(xml);
    let ghost ms = metas_view(items@);
    let mut i: usize = 0;
    assert(ms.subrange(0, ms.len() as int) =~= ms);
    while i < items.len()
        invariant
            i <= items@.len(),
            ms == metas_view(items@),
            ms == parsed_metadata(xml@),
            first_sender_info(ms) == first_sender_info(ms.subrange(i as int, ms.len() as int)),
        decreases items@.len() - i,
    {
        proof {
            assert(ms.subrange(i as int, ms.len() as int).drop_first() =~= ms.subrange(i + 1, ms.len() as int));
            assert(ms.subrange(i as int, ms.len() as int)[0] == ms[i as int]);
        }
        match &items[i] {
            Metadata::SenderInfo(info) => {
                return Some(
                    SenderInfo {
                        product_name: info.product_name.clone(),
                        manufacturer: info.manufacturer.clone(),
                        version: info.version.clone(),
                    },
                );
            },
            _ => {},
        }
        i = i + 1;
    }
    None
}

impl SenderInfo {
    /// Parse `<OMTInfo … />` (attribute lookup, not string equality).
    pub fn from_xml(xml: &str) -> (r: Option<SenderInfo>)
        ensures
            match first_sender_info(parsed_metadata(xml@)) {
                Some(v) => r matches Some(info) && info.product_name@ == v.0 && info.manufacturer@
                    == v.1 && info.version@ == v.2,
                None => r is None,
            },
    {
        sender_info_from_xml(xml)
    }
}

/// Map a tally state to the exact wire XML constant.
pub fn tally_xml(tally: Tally) -> (r: &'static str)
    ensures
        r@ == tally_text(tally),
{
    if tally.preview != 0 && tally.program != 0 {
        TALLY_PREVIEW_PROGRAM
    } else if tally.preview != 0 {
        TALLY_PREVIEW
    } else if tally.program != 0 {
        TALLY_PROGRAM
    } else {
        TALLY_NONE
    }
}

/// Alias used by sender control plane.
pub fn from_tally(tally: Tally) -> (r: &'static str)
    ensures
        r@ == tally_text(tally),
{
    tally_xml(tally)
}

/// Tally state with each light read as on (1) when non-zero.
pub open spec fn normalized_tally(t: Tally) -> Tally {
    Tally {
        preview: if t.preview != 0 {
            1
        } else {
            0
        },
        program: if t.program != 0 {
            1
        } else {
            0
        },
    }
}

/// What is sent for a tally state is read back as that state, each light
/// on exactly when it was non-zero.
pub proof fn lemma_tally_roundtrip(t: Tally)
    ensures
        parsed_metadata(tally_text(t)) == seq![MetaView::Tally(normalized_tally(t))],
        commands_all(parsed_metadata(tally_text(t))) == seq![MetadataCommand::Tally(normalized_tally(t))],
{
    reveal_strlit("<OMTTally Preview=\"true\" Program==\"false\" />");
    reveal_strlit("<OMTTally Preview=\"false\" Program==\"true\" />");
    reveal_strlit("<OMTTally Preview=\"true\" Program==\"true\" />");
    reveal_strlit("<OMTTally Preview=\"false\" Program==\"false\" />");
    assert(TALLY_PREVIEW@ != TALLY_PROGRAM@) by {
        assert(TALLY_PREVIEW@[19] != TALLY_PROGRAM@[19]);
    }
    assert(TALLY_PREVIEW@ != TALLY_PREVIEW_PROGRAM@) by {
        assert(TALLY_PREVIEW@[35] != TALLY_PREVIEW_PROGRAM@[35]);
    }
    assert(TALLY_PREVIEW@ != TALLY_NONE@) by {
        assert(TALLY_PREVIEW@[19] != TALLY_NONE@[19]);
    }
    assert(TALLY_PROGRAM@ != TALLY_PREVIEW_PROGRAM@) by {
        assert(TALLY_PROGRAM@[19] != TALLY_PREVIEW_PROGRAM@[19]);
    }
    assert(TALLY_PROGRAM@ != TALLY_NONE@) by {
        assert(TALLY_PROGRAM@[36] != TALLY_NONE@[36]);
    }
    assert(TALLY_PREVIEW_PROGRAM@ != TALLY_NONE@) by {
        assert(TALLY_PREVIEW_PROGRAM@[19] != TALLY_NONE@[19]);
    }
    let ms = parsed_metadata(tally_text(t));
    assert(ms == seq![MetaView::Tally(normalized_tally(t))]);
    assert(ms.drop_last() =~= Seq::<MetaView>::empty());
    assert(commands_all(ms.drop_last()) =~= Seq::<MetadataCommand>::empty());
    assert(ms.last() == MetaView::Tally(normalized_tally(t)));
    assert(commands_of(ms.last()) =~= seq![MetadataCommand::Tally(normalized_tally(t))]);
    assert(commands_all(ms) =~= seq![MetadataCommand::Tally(normalized_tally(t))]);
}


impl PtzMetadata {
    /// VISCA-over-IP advertisement XML.
    pub fn visca_over_ip_xml(url: &str) -> (r: String)
        ensures
            r@ == "<OMTPTZ Protocol=\"VISCAoverIP\" URL=\""@ + escape_seq(url@) + "\" />"@,
    {
        let mut out = owned("<OMTPTZ Protocol=\"VISCAoverIP\" URL=\"");
        push_escaped_str(&mut out, url);
        push_str(&mut out, "\" />");
        out
    }

    /// In-band VISCA command XML.
    pub fn visca_command_xml(sequence: &str, command_hex: &str) -> (r: String)
        ensures
            r@ == "<OMTPTZ Protocol=\"VISCA\" Sequence=\""@ + escape_seq(sequence@)
                + "\" Command=\""@ + escape_seq(command_hex@) + "\" />"@,
    {
        let mut out = owned("<OMTPTZ Protocol=\"VISCA\" Sequence=\"");
        push_escaped_str(&mut out, sequence);
        push_str(&mut out, "\" Command=\"");
        push_escaped_str(&mut out, command_hex);
        push_str(&mut out, "\" />");
        out
    }

    /// In-band VISCA reply XML.
    pub fn visca_reply_xml(sequence: &str, reply_hex: &str) -> (r: String)
        ensures
            r@ == "<OMTPTZ Protocol=\"VISCA\" Sequence=\""@ + escape_seq(sequence@) + "\" Reply=\""@
                + escape_seq(reply_hex@) + "\" />"@,
    {
        let mut out = owned("<OMTPTZ Protocol=\"VISCA\" Sequence=\"");
        push_escaped_str(&mut out, sequence);
        push_str(&mut out, "\" Reply=\"");
        push_escaped_str(&mut out, reply_hex);
        push_str(&mut out, "\" />");
        out
    }
}

impl AncillaryPacket {
    /// Attribute value for `name`.
    pub fn attr(&self, name: &str) -> (r: Option<&str>)
        ensures
            opt_view(r) == lookup_attr(self.attributes.deep_view(), name@),
    {
        find_attr(&self.attributes, name)
    }
}

/// Web-management advertisement XML.
pub fn web_xml(url: &str) -> (r: String)
    ensures
        r@ == "<OMTWeb URL=\""@ + escape_seq(url@) + "\" />"@,
{
    let mut out = owned("<OMTWeb URL=\"");
    push_escaped_str(&mut out, url);
    push_str(&mut out, "\" />");
    out
}

/// Wrap `inner` documents in `<OMTGroup>`, one trimmed document per line.
pub fn group_xml(inner: &[&str]) -> (r: String)
    ensures
        r@ == "<OMTGroup>\n"@ + group_body(inner@) + "</OMTGroup>"@,
{
    let mut out = owned("<OMTGroup>\n");
    let ghost head = out@;
    let mut i: usize = 0;
    while i < inner.len()
        invariant
            i <= inner@.len(),
            out@ == head + group_body(inner@.take(i as int)),
        decreases inner@.len() - i,
    {
        let t = trim_str(inner[i]);
        push_str(&mut out, t.as_str());
        push_char(&mut out, '\n');
        proof {
            assert(inner@.take(i + 1).drop_last() =~= inner@.take(i as int));
            assert(inner@.take(i + 1).last() == inner@[i as int]);
        }
        i = i + 1;
        proof {
            assert(out@ =~= head + group_body(inner@.take(i as int)));
        }
    }
    proof {
        assert(inner@.take(inner@.len() as int) =~= inner@);
    }
    push_str(&mut out, "</OMTGroup>");
    out
}

/// Redirect metadata XML.
pub fn redirect_xml(new_address: &str) -> (r: String)
    ensures
        r@ == "<OMTRedirect NewAddress=\""@ + escape_seq(new_address@) + "\" />"@,
{
    let mut out = owned("<OMTRedirect NewAddress=\"");
    push_escaped_str(&mut out, new_address);
    push_str(&mut out, "\" />");
    out
}

/// Build a suggested-quality metadata string for `quality`.
pub fn suggested_quality_xml(quality: Quality) -> (r: String)
    ensures
        r@ == "<OMTSettings Quality=\""@ + quality_name(quality) + "\" />"@,
{
    let mut out = owned("<OMTSettings Quality=\"");
    push_str(&mut out, quality.as_str());
    push_str(&mut out, "\" />");
    out
}

/// Alias for suggested quality XML builder.
pub fn suggested_quality_xml_alias(q: Quality) -> (r: String)
    ensures
        r@ == "<OMTSettings Quality=\""@ + quality_name(q) + "\" />"@,
{
    suggested_quality_xml(q)
}

/// Encode XML metadata as the UTF-8 payload of a metadata frame (no
/// trailing NUL).
pub fn encode_metadata_xml(xml: &str) -> (r: Vec<u8>)
    ensures
        r@ == encode_utf8(xml@),
{
    vstd::slice::slice_to_vec(xml.as_bytes())
}

/// Position of the first zero byte of `b` at or after `i` (or its length).
pub open spec fn first_nul(b: Seq<u8>, i: int) -> int
    decreases b.len() - i,
{
    if i < 0 || i >= b.len() {
        b.len() as int
    } else if b[i] == 0 {
        i
    } else {
        first_nul(b, i + 1)
    }
}

/// The bytes of `b` before its first zero byte.
pub open spec fn before_nul(b: Seq<u8>) -> Seq<u8> {
    b.take(first_nul(b, 0))
}

/// The message that `FromUtf8Error` renders for `bytes`.
pub uninterp spec fn utf8_error_text(bytes: Seq<u8>) -> Seq<char>;

/// `String::from_utf8`: the string whose UTF-8 encoding is `bytes`, or, when
/// `bytes` is not UTF-8, the error rendered by `Display`.
/// Claimed: success exactly on valid UTF-8, with the decoded characters; the
/// error text is the named result `utf8_error_text` of the bytes.
#[verifier::external_body]
fn string_from_utf8(bytes: Vec<u8>) -> (r: Result<String, String>)
    ensures
        match r {
            Ok(s) => valid_utf8(bytes@) && s@ == decode_utf8(bytes@),
            Err(m) => !valid_utf8(bytes@) && m@ == utf8_error_text(bytes@),
        },
{
    String::from_utf8(bytes).map_err(|e| e.to_string())
}

proof fn lemma_first_nul_bounds(b: Seq<u8>, i: int)
    requires
        0 <= i <= b.len(),
    ensures
        i <= first_nul(b, i) <= b.len(),
    decreases b.len() - i,
{
    if i < b.len() && b[i] != 0 {
        lemma_first_nul_bounds(b, i + 1);
    }
}

/// The UTF-8 encoding of a character other than NUL holds no zero byte.
proof fn lemma_scalar_no_zero(v: u32)
    requires
        vstd::utf8::is_scalar(v),
        v != 0,
    ensures
        forall|i: int| 0 <= i < vstd::utf8::encode_scalar(v).len() ==> #[trigger] vstd::utf8::encode_scalar(v)[i] != 0,
{
    if vstd::utf8::has_width_1_encoding(v) {
        assert((v & 0x7F) as u8 != 0) by (bit_vector)
            requires
                0 < v <= 0x7F,
        ;
    } else if vstd::utf8::has_width_2_encoding(v) {
        assert(0xC0u8 | ((v >> 6) & 0x1F) as u8 != 0 && 0x80u8 | (v & 0x3F) as u8 != 0) by (bit_vector);
    } else if vstd::utf8::has_width_3_encoding(v) {
        assert(0xE0u8 | ((v >> 12) & 0x0F) as u8 != 0 && 0x80u8 | ((v >> 6) & 0x3F) as u8 != 0
            && 0x80u8 | (v & 0x3F) as u8 != 0) by (bit_vector);
    } else {
        assert(0xF0u8 | ((v >> 18) & 0x7) as u8 != 0 && 0x80u8 | ((v >> 12) & 0x3F) as u8 != 0
            && 0x80u8 | ((v >> 6) & 0x3F) as u8 != 0 && 0x80u8 | (v & 0x3F) as u8 != 0) by (bit_vector);
    }
}

/// The UTF-8 encoding of text without NUL holds no zero byte.
proof fn lemma_encoding_no_zero(x: Seq<char>)
    requires
        forall|i: int| 0 <= i < x.len() ==> x[i] != '\0',
    ensures
        forall|i: int| 0 <= i < encode_utf8(x).len() ==> #[trigger] encode_utf8(x)[i] != 0,
    decreases x.len(),
{
    if x.len() > 0 {
        let rest = x.drop_first();
        assert forall|i: int| 0 <= i < rest.len() implies rest[i] != '\0' by {
            assert(rest[i] == x[i + 1]);
        }
        lemma_encoding_no_zero(rest);
        vstd::utf8::char_is_scalar(x[0]);
        assert(x[0] != '\0');
        vstd::utf8::char_u32_cast(x[0], x[0] as u32);
        assert(x[0] as u32 != 0);
        lemma_scalar_no_zero(x[0] as u32);
        let e0 = vstd::utf8::encode_scalar(x[0] as u32);
        assert forall|i: int| 0 <= i < encode_utf8(x).len() implies #[trigger] encode_utf8(x)[i] != 0 by {
            if i < e0.len() {
                assert(encode_utf8(x)[i] == e0[i]);
            } else {
                assert(encode_utf8(x)[i] == encode_utf8(rest)[i - e0.len()]);
            }
        }
    }
}

proof fn lemma_first_nul_skip(b: Seq<u8>, i: int, k: int)
    requires
        0 <= i <= k <= b.len(),
        forall|j: int| i <= j < k ==> b[j] != 0,
    ensures
        first_nul(b, i) == first_nul(b, k),
    decreases k - i,
{
    if i < k {
        lemma_first_nul_skip(b, i + 1, k);
    }
}

/// Decoding the encoding of metadata text without NUL gives the text back,
/// also when a NUL (and anything after it) follows the encoding.
pub proof fn lemma_metadata_text_roundtrip(x: Seq<char>, tail: Seq<u8>)
    requires
        forall|i: int| 0 <= i < x.len() ==> x[i] != '\0',
        tail.len() == 0 || tail[0] == 0,
    ensures
        before_nul(encode_utf8(x) + tail) == encode_utf8(x),
        valid_utf8(encode_utf8(x)),
        decode_utf8(encode_utf8(x)) == x,
{
    let e = encode_utf8(x);
    let b = e + tail;
    lemma_encoding_no_zero(x);
    assert forall|j: int| 0 <= j < e.len() implies b[j] != 0 by {
        assert(b[j] == e[j]);
    }
    lemma_first_nul_skip(b, 0, e.len() as int);
    assert(first_nul(b, e.len() as int) == e.len());
    assert(b.take(e.len() as int) =~= e);
    vstd::utf8::encode_utf8_valid_utf8(x);
    vstd::utf8::encode_utf8_decode_utf8(x);
}

/// Decode UTF-8 metadata to a string; bytes from the first NUL on are ignored.
pub fn decode_metadata_xml(bytes: &[u8]) -> (r: Result<String, OmtError>)
    ensures
        match r {
            Ok(s) => valid_utf8(before_nul(bytes@)) && s@ == decode_utf8(before_nul(bytes@)),
            Err(e) => !valid_utf8(before_nul(bytes@)) && (e matches OmtError::Protocol(m) && m@
                == "invalid metadata utf-8: "@ + utf8_error_text(before_nul(bytes@))),
        },
{
    let mut end: usize = 0;
    while end < bytes.len() && bytes[end] != 0
        invariant
            end <= bytes@.len(),
            first_nul(bytes@, end as int) == first_nul(bytes@, 0),
        decreases bytes@.len() - end,
    {
        end = end + 1;
    }
    let mut v: Vec<u8> = Vec::new();
    let mut i: usize = 0;
    while i < end
        invariant
            end <= bytes@.len(),
            i <= end,
            v@ == bytes@.take(i as int),
        decreases end - i,
    {
        v.push(bytes[i]);
        i = i + 1;
        proof {
            assert(v@ =~= bytes@.take(i as int));
        }
    }
    match string_from_utf8(v) {
        Ok(s) => Ok(s),
        Err(m) => {
            let mut msg = owned("invalid metadata utf-8: ");
            push_str(&mut msg, m.as_str());
            Err(OmtError::Protocol(msg))
        },
    }
}

} // verus!
