//! XML elements for OMT metadata, read from documents parsed by `roxmltree`.
//!
//! The parser hands back the document's nodes in document order; building the
//! element tree from them, and everything read from that tree, is verified here.
use vstd::prelude::*;
use crate::error::OmtError;
use crate::text::{
    str_chars, string_of, owned, push_str, trim, trim_str, str_eq, eq_ignore_case,
    chars_eq_ignore_case, chars_eq, trim_bounds, escape_seq, push_escaped_str,
    lemma_escape_no_markup,
};
use crate::settings::{unescape, lemma_unescape_escape};

verus! {

broadcast use vstd::string::group_string_axioms;

/// One XML element with attributes, child elements, and concatenated text.
#[derive(Debug, PartialEq, Eq)]
pub struct XmlElement {
    /// Tag name (`OMTTally`, `OMTPTZ`, …).
    pub name: String,
    /// Attributes in document order.
    pub attributes: Vec<(String, String)>,
    /// Direct child elements.
    pub children: Vec<XmlElement>,
    /// Concatenated character data (trimmed).
    pub text: String,
}

/// The mathematical content of an [`XmlElement`].
pub struct XmlTree {
    pub name: Seq<char>,
    pub attributes: Seq<(Seq<char>, Seq<char>)>,
    pub children: Seq<XmlTree>,
    pub text: Seq<char>,
}

/// What an element holds, as a tree of sequences.
pub open spec fn tree_of(e: XmlElement) -> XmlTree
    decreases e, 1int,
{
    XmlTree {
        name: e.name@,
        attributes: e.attributes.deep_view(),
        children: forest_of(e.children@),
        text: e.text@,
    }
}

/// The trees of a sequence of elements.
pub open spec fn forest_of(s: Seq<XmlElement>) -> Seq<XmlTree>
    decreases s, 0int,
{
    if s.len() == 0 {
        Seq::empty()
    } else {
        forest_of(s.subrange(0, s.len() - 1)).push(tree_of(s[s.len() - 1]))
    }
}

/// One node of a parsed document: whether it is an element, whether it is
/// character data, its tag name, its text, its attributes, and the position
/// of its parent in the node list.
pub type XmlNode = (bool, bool, String, String, Vec<(String, String)>, usize);

/// The content of an [`XmlNode`].
pub type XmlNodeView = (bool, bool, Seq<char>, Seq<char>, Seq<(Seq<char>, Seq<char>)>, usize);

/// The nodes of the document that `roxmltree` parses from `text`, in document
/// order (the root node first), or the rendered parse error.
pub uninterp spec fn xml_document(text: Seq<char>) -> Result<Seq<(bool, bool, Seq<char>, Seq<char>, Seq<(Seq<char>, Seq<char>)>, usize)>, Seq<char>>;

/// Whether node `j` is an element whose parent is node `p` (`p < j`).
pub open spec fn is_child_element(t: Seq<XmlNodeView>, p: int, j: int) -> bool {
    0 <= p < j < t.len() && t[j].0 && t[j].5 == p
}

/// The trees of the element children of node `p` found at positions `j..`.
pub open spec fn node_children(t: Seq<XmlNodeView>, p: int, j: int) -> Seq<XmlTree>
    decreases t.len() - p, t.len() + 1 - j,
{
    if p < 0 || j <= p || j >= t.len() {
        Seq::empty()
    } else if is_child_element(t, p, j) {
        seq![node_tree(t, j)].add(node_children(t, p, j + 1))
    } else {
        node_children(t, p, j + 1)
    }
}

/// The character data of the text children of node `p` found at positions `j..`.
pub open spec fn node_text(t: Seq<XmlNodeView>, p: int, j: int) -> Seq<char>
    decreases t.len() - j,
{
    if j < 0 || j >= t.len() {
        Seq::empty()
    } else if t[j].1 && t[j].5 == p {
        t[j].3 + node_text(t, p, j + 1)
    } else {
        node_text(t, p, j + 1)
    }
}

/// The element tree rooted at node `i`: its name and attributes, the trees of
/// its element children in order, and its trimmed character data.
pub open spec fn node_tree(t: Seq<XmlNodeView>, i: int) -> XmlTree
    decreases t.len() - i, t.len() + 1,
{
    if 0 <= i < t.len() {
        XmlTree {
            name: t[i].2,
            attributes: t[i].4,
            children: node_children(t, i, i + 1),
            text: trim(node_text(t, i, i + 1)),
        }
    } else {
        XmlTree { name: Seq::empty(), attributes: Seq::empty(), children: Seq::empty(), text: Seq::empty() }
    }
}

/// Position of the first element child of node `p` at or after `j` (the
/// length of `t` when there is none).
pub open spec fn first_child_element(t: Seq<XmlNodeView>, p: int, j: int) -> int
    decreases t.len() - j,
{
    if j < 0 || j >= t.len() {
        t.len() as int
    } else if is_child_element(t, p, j) {
        j
    } else {
        first_child_element(t, p, j + 1)
    }
}

/// Whether the document root (node 0) has an element child.
pub open spec fn has_root_element(t: Seq<XmlNodeView>) -> bool {
    exists|j: int| #[trigger] is_child_element(t, 0, j)
}

/// `roxmltree::Document::parse`: the nodes of the parsed document, from
/// `Document::descendants` (document order, root node first), each with
/// `is_element`, `is_text`, `tag_name().name()`, `text()`, its attributes and
/// its parent's `NodeId`; or the parse error rendered by `Display`.
/// Claimed: the result is the named result `xml_document` of `text`, and a
/// parsed document has a root element (documented by `Document::root_element`).
#[verifier::external_body]
fn parse_document(text: &str) -> (r: Result<Vec<XmlNode>, String>)
    ensures
        match r {
            Ok(nodes) => xml_document(text@) == Ok::<Seq<XmlNodeView>, Seq<char>>(nodes.deep_view())
                && has_root_element(nodes.deep_view()),
            Err(msg) => xml_document(text@) == Err::<Seq<XmlNodeView>, Seq<char>>(msg@),
        },
{
    match roxmltree::Document::parse(text) {
        Ok(doc) => Ok(doc.descendants().map(|n| (
            n.is_element(),
            n.is_text(),
            n.tag_name().name().to_string(),
            n.text().unwrap_or("").to_string(),
            n.attributes().map(|a| (a.name().to_string(), a.value().to_string())).collect(),
            n.parent().map_or(0, |p| p.id().get_usize()),
        )).collect()),
        Err(e) => Err(e.to_string()),
    }
}

/// Number of byte-order marks at the start of `s` from `i` on.
pub open spec fn skip_bom(s: Seq<char>, i: int) -> int
    decreases s.len() - i,
{
    if 0 <= i < s.len() && s[i] == '\u{feff}' {
        skip_bom(s, i + 1)
    } else {
        i
    }
}

/// `s` without its leading byte-order marks.
pub open spec fn strip_bom(s: Seq<char>) -> Seq<char> {
    s.subrange(skip_bom(s, 0), s.len() as int)
}

/// The message of the error for a document that does not parse.
pub open spec fn parse_error_message(m: Seq<char>) -> Seq<char> {
    "invalid metadata XML: "@ + m
}

proof fn lemma_skip_bom_bounds(s: Seq<char>, i: int)
    requires
        0 <= i <= s.len(),
    ensures
        i <= skip_bom(s, i) <= s.len(),
    decreases s.len() - i,
{
    if i < s.len() && s[i] == '\u{feff}' {
        lemma_skip_bom_bounds(s, i + 1);
    }
}

proof fn lemma_first_child_element(t: Seq<XmlNodeView>, p: int, j: int, k: int)
    requires
        0 <= j <= k,
        is_child_element(t, p, k),
    ensures
        j <= first_child_element(t, p, j) <= k,
        is_child_element(t, p, first_child_element(t, p, j)),
    decreases k - j,
{
    if j < k && !is_child_element(t, p, j) {
        lemma_first_child_element(t, p, j + 1, k);
    }
}

proof fn lemma_forest_push(s: Seq<XmlElement>, e: XmlElement)
    ensures
        forest_of(s.push(e)) == forest_of(s).push(tree_of(e)),
{
    assert(s.push(e).subrange(0, s.len() as int) =~= s);
}

/// A copy of the attribute list `v`.
pub(crate) fn copy_pairs(v: &Vec<(String, String)>) -> (r: Vec<(String, String)>)
    ensures
        r.deep_view() == v.deep_view(),
{
    let mut out: Vec<(String, String)> = Vec::new();
    let mut i: usize = 0;
    while i < v.len()
        invariant
            i <= v.len(),
            out@.len() == i,
            forall|k: int| 0 <= k < i ==> (#[trigger] out@[k]).0@ == v@[k].0@ && out@[k].1@ == v@[k].1@,
        decreases v.len() - i,
    {
        let a = v[i].0.clone();
        let b = v[i].1.clone();
        out.push((a, b));
        i = i + 1;
    }
    assert(out.deep_view() =~= v.deep_view());
    out
}

impl XmlElement {
    /// Parse well-formed `xml` into a single root element.
    ///
    /// Leading byte-order marks are skipped. The element is the document's
    /// root element; a document that does not parse is a protocol error
    /// carrying the parser's message.
    pub fn parse(xml: &str) -> (r: Result<XmlElement, OmtError>)
        ensures
            match xml_document(strip_bom(xml@)) {
                Ok(t) => r matches Ok(e) && tree_of(e) == node_tree(t, first_child_element(t, 0, 1)),
                Err(m) => r matches Err(OmtError::Protocol(msg)) && msg@ == parse_error_message(m),
            },
    {
        let cs = str_chars(xml);
        let mut i: usize = 0;
        while i < cs.len() && cs[i] == '\u{feff}'
            invariant
                i <= cs@.len(),
                cs@ == xml@,
                skip_bom(xml@, i as int) == skip_bom(xml@, 0),
            decreases cs.len() - i,
        {
            i = i + 1;
        }
        let stripped = string_of(cs.as_slice(), i, cs.len());
        match parse_document(stripped.as_str()) {
            Ok(nodes) => {
                let root = Self::first_child_element_of(&nodes, 0, 1);
                proof {
                    let t = nodes.deep_view();
                    let k = choose|k: int| is_child_element(t, 0, k);
                    lemma_first_child_element(t, 0, 1, k);
                }
                Ok(Self::from_nodes(&nodes, root))
            },
            Err(m) => {
                let mut msg = owned("invalid metadata XML: ");
                push_str(&mut msg, m.as_str());
                Err(OmtError::Protocol(msg))
            },
        }
    }

    /// Position of the first element child of node `p` at or after `j`.
    pub fn first_child_element_of(nodes: &Vec<XmlNode>, p: usize, j: usize) -> (r: usize)
        ensures
            r == first_child_element(nodes.deep_view(), p as int, j as int),
        decreases nodes.len() - j,
    {
        let ghost t = nodes.deep_view();
        if j >= nodes.len() {
            nodes.len()
        } else if p < j && nodes[j].0 && nodes[j].5 == p {
            j
        } else {
            Self::first_child_element_of(nodes, p, j + 1)
        }
    }

    /// The element rooted at node `i` of a parsed document's node list.
    pub fn from_nodes(nodes: &Vec<XmlNode>, i: usize) -> (r: XmlElement)
        requires
            i < nodes.len(),
        ensures
            tree_of(r) == node_tree(nodes.deep_view(), i as int),
        decreases nodes@.len() - i,
    {
        let ghost t = nodes.deep_view();
        let name = nodes[i].2.clone();
        let attributes = copy_pairs(&nodes[i].4);
        let mut children: Vec<XmlElement> = Vec::new();
        let mut text = String::new();
        let mut j: usize = i + 1;
        while j < nodes.len()
            invariant
                i < j <= nodes@.len(),
                t == nodes.deep_view(),
                forest_of(children@) + node_children(t, i as int, j as int) == node_children(
                    t,
                    i as int,
                    i + 1,
                ),
                text@ + node_text(t, i as int, j as int) == node_text(t, i as int, i + 1),
            decreases nodes@.len() - j,
        {
            if nodes[j].0 && nodes[j].5 == i {
                let c = Self::from_nodes(nodes, j);
                proof {
                    lemma_forest_push(children@, c);
                    assert(forest_of(children@.push(c)) + node_children(t, i as int, j + 1)
                        =~= forest_of(children@) + node_children(t, i as int, j as int));
                }
                children.push(c);
            } else {
                proof {
                    assert(node_children(t, i as int, j as int) == node_children(t, i as int, j + 1));
                }
            }
            if nodes[j].1 && nodes[j].5 == i {
                let ghost before = text@;
                push_str(&mut text, nodes[j].3.as_str());
                proof {
                    assert(text@ + node_text(t, i as int, j + 1) =~= before + node_text(t, i as int, j as int));
                }
            }
            j = j + 1;
        }
        proof {
            assert(forest_of(children@) =~= node_children(t, i as int, i + 1));
            assert(text@ =~= node_text(t, i as int, i + 1));
        }
        let text = trim_str(text.as_str());
        XmlElement { name, attributes, children, text }
    }
}


/// Value of the first attribute named `name`.
pub open spec fn lookup_attr(attrs: Seq<(Seq<char>, Seq<char>)>, name: Seq<char>) -> Option<Seq<char>>
    decreases attrs.len(),
{
    if attrs.len() == 0 {
        None
    } else if attrs[0].0 == name {
        Some(attrs[0].1)
    } else {
        lookup_attr(attrs.drop_first(), name)
    }
}

/// Position of the first tree named `name`.
pub open spec fn first_named(s: Seq<XmlTree>, name: Seq<char>) -> Option<int>
    decreases s.len(),
{
    if s.len() == 0 {
        None
    } else if s[0].name == name {
        Some(0)
    } else {
        match first_named(s.drop_first(), name) {
            Some(k) => Some(k + 1),
            None => None,
        }
    }
}

/// The trees named `name`, in order.
pub open spec fn all_named(s: Seq<XmlTree>, name: Seq<char>) -> Seq<XmlTree>
    decreases s.len(),
{
    if s.len() == 0 {
        Seq::empty()
    } else if s.last().name == name {
        all_named(s.drop_last(), name).push(s.last())
    } else {
        all_named(s.drop_last(), name)
    }
}

/// The first child of `t` named `name`.
pub open spec fn tree_child(t: XmlTree, name: Seq<char>) -> Option<XmlTree> {
    match first_named(t.children, name) {
        Some(k) => Some(t.children[k]),
        None => None,
    }
}

/// The text of the first child of `t` named `name`, when that child exists
/// and its text is not empty.
pub open spec fn tree_child_text(t: XmlTree, name: Seq<char>) -> Option<Seq<char>> {
    match tree_child(t, name) {
        Some(c) => if c.text.len() == 0 {
            None
        } else {
            Some(c.text)
        },
        None => None,
    }
}

/// A boolean written as text: `true` or `1`, `false` or `0` (case of the
/// words ignored, surrounding white space ignored).
pub open spec fn bool_text(s: Seq<char>) -> Option<bool> {
    let t = trim(s);
    if eq_ignore_case(t, "true"@) || t == "1"@ {
        Some(true)
    } else if eq_ignore_case(t, "false"@) || t == "0"@ {
        Some(false)
    } else {
        None
    }
}

/// The view of an optional string.
pub open spec fn opt_view(o: Option<&str>) -> Option<Seq<char>> {
    match o {
        Some(v) => Some(v@),
        None => None,
    }
}

/// The trees of the elements of `s` are those of `forest_of(s)`, one by one.
pub proof fn lemma_forest_index(s: Seq<XmlElement>)
    ensures
        forest_of(s).len() == s.len(),
        forall|k: int| 0 <= k < s.len() ==> #[trigger] forest_of(s)[k] == tree_of(s[k]),
    decreases s.len(),
{
    if s.len() > 0 {
        let p = s.subrange(0, s.len() - 1);
        lemma_forest_index(p);
        assert forall|k: int| 0 <= k < s.len() implies #[trigger] forest_of(s)[k] == tree_of(s[k]) by {
            if k < s.len() - 1 {
                assert(p[k] == s[k]);
            }
        }
    }
}

/// Parse a boolean attribute/text value.
pub fn parse_bool(value: &str) -> (r: Option<bool>)
    ensures
        r == bool_text(value@),
{
    let cs = str_chars(value);
    let (a, b) = trim_bounds(cs.as_slice(), 0, cs.len());
    proof {
        assert(cs@.subrange(0, cs@.len() as int) =~= value@);
    }
    if chars_eq_ignore_case(cs.as_slice(), a, b, "true") || chars_eq(cs.as_slice(), a, b, "1") {
        Some(true)
    } else if chars_eq_ignore_case(cs.as_slice(), a, b, "false") || chars_eq(cs.as_slice(), a, b, "0") {
        Some(false)
    } else {
        None
    }
}

/// Escape text or attribute values for XML output.
pub fn escape_xml(s: &str) -> (r: String)
    ensures
        r@ == escape_seq(s@),
        unescape(r@) == s@,
        forall|i: int|
            0 <= i < r@.len() ==> #[trigger] r@[i] != '<' && r@[i] != '>' && r@[i] != '"' && r@[i]
                != '\'',
{
    proof {
        lemma_unescape_escape(s@);
        lemma_escape_no_markup(s@);
    }
    let mut out = String::new();
    push_escaped_str(&mut out, s);
    assert(Seq::<char>::empty() + escape_seq(s@) =~= escape_seq(s@));
    out
}

/// Value of the first pair of `attrs` whose key is `name`.
pub fn find_attr<'a>(attrs: &'a Vec<(String, String)>, name: &str) -> (r: Option<&'a str>)
    ensures
        opt_view(r) == lookup_attr(attrs.deep_view(), name@),
{
    let ghost all = attrs.deep_view();
    assert(all.subrange(0, all.len() as int) =~= all);
    let mut i: usize = 0;
    while i < attrs.len()
        invariant
            i <= attrs@.len(),
            all == attrs.deep_view(),
            lookup_attr(all, name@) == lookup_attr(all.subrange(i as int, all.len() as int), name@),
        decreases attrs@.len() - i,
    {
        proof {
            assert(all.subrange(i as int, all.len() as int).drop_first() =~= all.subrange(i + 1, all.len() as int));
            assert(all.subrange(i as int, all.len() as int)[0] == all[i as int]);
        }
        if str_eq(attrs[i].0.as_str(), name) {
            return Some(attrs[i].1.as_str());
        }
        i = i + 1;
    }
    None
}

impl XmlElement {
    /// Attribute value for `name`, or `None` if missing.
    pub fn attr(&self, name: &str) -> (r: Option<&str>)
        ensures
            opt_view(r) == lookup_attr(tree_of(*self).attributes, name@),
    {
        find_attr(&self.attributes, name)
    }

    /// Parse an attribute as a boolean (`true`/`1` vs `false`/`0`).
    pub fn attr_bool(&self, name: &str) -> (r: Option<bool>)
        ensures
            r == (match lookup_attr(tree_of(*self).attributes, name@) {
                Some(v) => bool_text(v),
                None => None,
            }),
    {
        match self.attr(name) {
            Some(v) => parse_bool(v),
            None => None,
        }
    }

    /// First direct child named `name`.
    pub fn child(&self, name: &str) -> (r: Option<&XmlElement>)
        ensures
            match first_named(tree_of(*self).children, name@) {
                Some(k) => r == Some(&self.children@[k]) && tree_of(self.children@[k])
                    == tree_of(*self).children[k],
                None => r is None,
            },
    {
        let ghost all = tree_of(*self).children;
        proof {
            lemma_forest_index(self.children@);
            assert(all.subrange(0, all.len() as int) =~= all);
        }
        let mut i: usize = 0;
        while i < self.children.len()
            invariant
                i <= self.children@.len(),
                all == forest_of(self.children@),
                all.len() == self.children@.len(),
                forall|k: int| 0 <= k < all.len() ==> #[trigger] all[k] == tree_of(self.children@[k]),
                first_named(all, name@) == match first_named(all.subrange(i as int, all.len() as int), name@) {
                    Some(k) => Some(k + i),
                    None => None,
                },
            decreases self.children@.len() - i,
        {
            proof {
                assert(all.subrange(i as int, all.len() as int).drop_first() =~= all.subrange(i + 1, all.len() as int));
                assert(all.subrange(i as int, all.len() as int)[0] == all[i as int]);
            }
            if str_eq(self.children[i].name.as_str(), name) {
                return Some(&self.children[i]);
            }
            i = i + 1;
        }
        None
    }

    /// All direct children named `name`, in order.
    pub fn children_named<'a>(&'a self, name: &str) -> (r: Vec<&'a XmlElement>)
        ensures
            r@.map_values(|c: &XmlElement| tree_of(*c)) == all_named(tree_of(*self).children, name@),
    {
        let ghost all = tree_of(*self).children;
        proof {
            lemma_forest_index(self.children@);
        }
        let mut out: Vec<&'a XmlElement> = Vec::new();
        let mut i: usize = 0;
        while i < self.children.len()
            invariant
                i <= self.children@.len(),
                all == forest_of(self.children@),
                all.len() == self.children@.len(),
                forall|k: int| 0 <= k < all.len() ==> #[trigger] all[k] == tree_of(self.children@[k]),
                out@.map_values(|c: &XmlElement| tree_of(*c)) == all_named(all.take(i as int), name@),
            decreases self.children@.len() - i,
        {
            proof {
                assert(all.take(i + 1).drop_last() =~= all.take(i as int));
                assert(all.take(i + 1).last() == all[i as int]);
            }
            if str_eq(self.children[i].name.as_str(), name) {
                let ghost before = out@;
                out.push(&self.children[i]);
                proof {
                    assert(out@.map_values(|c: &XmlElement| tree_of(*c)) =~= before.map_values(
                        |c: &XmlElement| tree_of(*c),
                    ).push(all[i as int]));
                }
            }
            i = i + 1;
        }
        proof {
            assert(all.take(all.len() as int) =~= all);
        }
        out
    }

    /// Text of the first child named `name`, if present and not empty.
    pub fn child_text(&self, name: &str) -> (r: Option<&str>)
        ensures
            opt_view(r) == tree_child_text(tree_of(*self), name@),
    {
        match self.child(name) {
            Some(c) => {
                if c.text.as_str().is_empty() {
                    None
                } else {
                    Some(c.text.as_str())
                }
            },
            None => None,
        }
    }

    /// A copy of this element, with the same content.
    pub fn duplicate(&self) -> (r: XmlElement)
        ensures
            tree_of(r) == tree_of(*self),
        decreases self,
    {
        let mut children: Vec<XmlElement> = Vec::new();
        let mut i: usize = 0;
        while i < self.children.len()
            invariant
                i <= self.children@.len(),
                forest_of(children@) == forest_of(self.children@.take(i as int)),
            decreases self.children@.len() - i,
        {
            let c = self.children[i].duplicate();
            proof {
                lemma_forest_push(children@, c);
                lemma_forest_push(self.children@.take(i as int), self.children@[i as int]);
                assert(self.children@.take(i as int).push(self.children@[i as int]) =~= self.children@.take(i + 1));
            }
            children.push(c);
            i = i + 1;
        }
        proof {
            assert(self.children@.take(self.children@.len() as int) =~= self.children@);
        }
        XmlElement {
            name: self.name.clone(),
            attributes: copy_pairs(&self.attributes),
            children,
            text: self.text.clone(),
        }
    }
}

} // verus!
