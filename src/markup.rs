//! Markup as the parser hands it over: a plain copy of the parser's element
//! tree, and the few calls into outside code that building a node tree needs.

use vstd::prelude::*;

verus! {

/// One parsed element, before normalization.
#[derive(Debug)]
pub struct RawElement {
    pub prefix: Option<String>,
    /// The namespace URI, if any.
    pub namespace: Option<String>,
    /// Namespace bindings in scope, key to URI; the empty key is the default binding.
    pub namespaces: Option<Vec<(String, String)>>,
    pub name: String,
    /// Attributes in document order, keyed by their local name.
    pub attributes: Vec<(String, String)>,
    pub children: Vec<RawNode>,
}

/// One parsed item: an element, character data, or an item the tree drops.
#[derive(Debug)]
pub enum RawNode {
    Element(RawElement),
    Text(String),
    CData(String),
    Comment(String),
    ProcessingInstruction(String, Option<String>),
}

/// xmltree's element, carried opaquely into the copy below.
#[verifier::external_type_specification]
#[verifier::external_body]
pub struct ExElement(xmltree::Element);

/// xmltree's parsed item, carried opaquely into the copy below.
#[verifier::external_type_specification]
#[verifier::external_body]
pub struct ExXMLNode(xmltree::XMLNode);

/// What the markup parser makes of a text: the top-level items, or its
/// error message.
pub uninterp spec fn parsed_markup(text: Seq<char>) -> Result<Seq<RawNode>, Seq<char>>;

/// The text with leading and trailing whitespace removed.
pub uninterp spec fn trimmed(text: Seq<char>) -> Seq<char>;

/// Relies on the public fields of xmltree::Element (prefix, namespace,
/// namespaces, name, attributes, children): copies them, field for field and
/// with its subtree, into a `RawElement`.
#[verifier::external_body]
fn raw_element(e: &xmltree::Element) -> RawElement {
    RawElement {
        prefix: e.prefix.clone(),
        namespace: e.namespace.clone(),
        namespaces: e.namespaces.as_ref().map(
            |ns| ns.0.iter().map(|(k, v)| (k.clone(), v.clone())).collect(),
        ),
        name: e.name.clone(),
        attributes: e.attributes.iter().map(|(k, v)| (k.clone(), v.clone())).collect(),
        children: e.children.iter().map(|c| raw_node(c)).collect(),
    }
}

/// Relies on the variants of xmltree::XMLNode: copies one item into the
/// `RawNode` variant of the same name.
#[verifier::external_body]
fn raw_node(n: &xmltree::XMLNode) -> RawNode {
    match n {
        xmltree::XMLNode::Element(e) => RawNode::Element(raw_element(e)),
        xmltree::XMLNode::Text(t) => RawNode::Text(t.clone()),
        xmltree::XMLNode::CData(t) => RawNode::CData(t.clone()),
        xmltree::XMLNode::Comment(t) => RawNode::Comment(t.clone()),
        xmltree::XMLNode::ProcessingInstruction(a, b) => RawNode::ProcessingInstruction(
            a.clone(),
            b.clone(),
        ),
    }
}

/// Relies on xmltree::Element::parse_all, which reads the markup (with
/// attributes kept in document order) and yields its top-level items, or an
/// error whose text is returned. The outcome depends on the text alone.
#[verifier::external_body]
pub(crate) fn parse_markup(text: &str) -> (r: Result<Vec<RawNode>, String>)
    ensures
        match r {
            Ok(v) => parsed_markup(text@) == Ok::<Seq<RawNode>, Seq<char>>(v@),
            Err(e) => parsed_markup(text@) == Err::<Seq<RawNode>, Seq<char>>(e@),
        },
{
    match xmltree::Element::parse_all(text.as_bytes()) {
        Ok(items) => Ok(items.iter().map(|n| raw_node(n)).collect()),
        Err(e) => Err(e.to_string()),
    }
}

/// Relies on uuid::Uuid::new_v4 and its `Display` form, which is the
/// hyphenated text of 36 characters.
#[verifier::external_body]
pub(crate) fn random_uuid() -> (r: String)
    ensures
        r@.len() == 36,
{
    uuid::Uuid::new_v4().to_string()
}

/// Relies on str::trim, which drops leading and trailing whitespace; the
/// result depends on the text alone.
#[verifier::external_body]
pub(crate) fn trim_text(text: &str) -> (r: String)
    ensures
        r@ == trimmed(text@),
{
    text.trim().to_owned()
}

} // verus!
