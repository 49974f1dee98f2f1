//! Trusted boundary to the roxmltree crate, and the flat element form
//! the navigation parser works on.
//!
//! A parsed document is handed over as its elements in document order
//! (a pre-order walk), each with its depth; the verified navigation
//! parser rebuilds the tree structure from depths, so no borrowed
//! document type has to cross the boundary.

use vstd::prelude::*;

verus! {

/// One element of a parsed XML document: the number of nodes on the
/// path from it up to the document root (its depth), its tag's local
/// name, its attributes as (local name, value) pairs in document
/// order, and its immediate text content.
#[derive(Debug)]
pub struct XmlElem {
    pub depth: usize,
    pub tag: String,
    pub attrs: Vec<(String, String)>,
    pub text: String,
}

/// The mathematical model of one element: its depth, tag name,
/// (name, value) attribute pairs, and immediate text.
pub type ElemModel = (int, Seq<char>, Seq<(Seq<char>, Seq<char>)>, Seq<char>);

/// The models of an attribute list: (name, value) character sequences.
pub open spec fn attrs_view(a: Seq<(String, String)>) -> Seq<(Seq<char>, Seq<char>)> {
    a.map_values(|p: (String, String)| (p.0@, p.1@))
}

/// The model of one element: depth, tag, attributes, text.
pub open spec fn elem_model(e: XmlElem) -> ElemModel {
    (e.depth as int, e.tag@, attrs_view(e.attrs@), e.text@)
}

/// The models of a sequence of elements.
pub open spec fn elems_view(s: Seq<XmlElem>) -> Seq<ElemModel> {
    s.map_values(|e: XmlElem| elem_model(e))
}

/// What parsing an XML document yields: its elements in document
/// order with depth, tag, attributes and immediate text; or nothing,
/// when the bytes are not well-formed XML (or not UTF-8 text).
pub uninterp spec fn xml_doc_of(bytes: Seq<u8>) -> Option<Seq<ElemModel>>;

/// Relies on roxmltree::Document::parse and the element accessors
/// tag_name, attributes, text and ancestors: parsing either fails or
/// yields the document's elements in document order, and the result is
/// a function of the input bytes alone.
#[verifier::external_body]
pub fn parse_xml_elements(bytes: &[u8]) -> (r: Option<Vec<XmlElem>>)
    ensures
        r is Some <==> xml_doc_of(bytes@) is Some,
        r matches Some(v) ==> Some(elems_view(v@)) == xml_doc_of(bytes@),
{
    let doc = roxmltree::Document::parse(core::str::from_utf8(bytes).ok()?).ok()?;
    let mut out = Vec::new();
    for n in doc.descendants().filter(|n| n.is_element()) {
        out.push(XmlElem {
            depth: n.ancestors().count(),
            tag: n.tag_name().name().to_string(),
            attrs: n.attributes().map(|a| (a.name().to_string(), a.value().to_string())).collect(),
            text: n.text().unwrap_or("").to_string(),
        });
    }
    Some(out)
}

} // verus!
