//! The bridge to the HTML parser: the one call into `html5ever`, which
//! hands out the nodes of the DOM that the parser builds as plain values.
//!
//! The parser's DOM is a tree of reference-counted nodes that the verifier
//! cannot look into. What the parser makes of a text depends on the text
//! alone, so it is given names here; nothing more is claimed of it. The
//! table that the conversion walks is built from the nodes in
//! [`crate::source::SourceDom::from_levels`].

use crate::source::{levels_view, QualifiedName, SourceAttribute, SourceData, SourceDataView};
use html5ever::driver::ParseOpts;
use html5ever::parse_document;
use html5ever::tendril::TendrilSink;
use html5ever::tree_builder::TreeBuilderOpts;
use markup5ever_rcdom::{NodeData, RcDom};
use std::rc::Rc;
use vstd::prelude::*;

verus! {

#[verifier::external_type_specification]
#[verifier::external_body]
pub struct ExRcNode(markup5ever_rcdom::Node);

/// The message of the reader, where the parser could not read `html` to its
/// end; `None` where it could.
pub uninterp spec fn read_failure(html: Seq<char>) -> Option<Seq<char>>;

/// The diagnostics that the parser reports for `html`, in its order.
pub uninterp spec fn parser_diagnostics(html: Seq<char>) -> Seq<Seq<char>>;

/// The nodes of the DOM that the parser builds for `html`, level by level:
/// the document first, then its children, then theirs, the children of a
/// node side by side in their order; each node with its data and the number
/// of its children.
pub uninterp spec fn parser_dom(html: Seq<char>) -> Seq<(SourceDataView, usize)>;

/// The `NodeData` of a node, one variant for one, with the strings copied
/// out: the contents of a text or a comment, and an element's namespace URI,
/// local name and attributes (each with namespace URI, local name and value)
/// in the order in which the node holds them. Nothing is claimed of it.
#[verifier::external_body]
pub(crate) fn node_data(handle: &Rc<markup5ever_rcdom::Node>) -> (data: SourceData) {
    match &handle.data {
        NodeData::Document => SourceData::Document,
        NodeData::Doctype { .. } => SourceData::Doctype,
        NodeData::Text { contents } => SourceData::Text(contents.borrow().to_string()),
        NodeData::Comment { contents } => SourceData::Comment(contents.to_string()),
        NodeData::ProcessingInstruction { .. } => SourceData::ProcessingInstruction,
        NodeData::Element { name, attrs, .. } => SourceData::Element(
            QualifiedName { ns: name.ns.to_string(), local: name.local.to_string() },
            attrs.borrow().iter().map(|a| SourceAttribute {
                name: QualifiedName { ns: a.name.ns.to_string(), local: a.name.local.to_string() },
                value: a.value.to_string(),
            }).collect(),
        ),
    }
}

/// Runs `html5ever::parse_document` with an `RcDom` sink over the bytes of
/// `html`, through `from_utf8().read_from(..)`: the doctype is kept,
/// scripting is off and the input is not an `iframe srcdoc` document. The
/// nodes of the DOM are then handed out level by level, each as
/// [`node_data`] gives it, with the number of its children, and
/// `RcDom::errors` text for text.
///
/// What comes back depends on the text alone. The contract says no more
/// than that: it gives a failed read, the diagnostics and the nodes their
/// names.
#[verifier::external_body]
pub(crate) fn parse_source(html: &str) -> (parsed: Result<
    (Vec<String>, Vec<(SourceData, usize)>),
    String,
>)
    ensures
        match parsed {
            Ok((diagnostics, nodes)) => {
                &&& read_failure(html@) is None
                &&& diagnostics@.map_values(|m: String| m@) == parser_diagnostics(html@)
                &&& levels_view(nodes) == parser_dom(html@)
            },
            Err(message) => read_failure(html@) == Some(message@),
        },
{
    let tree_builder =
        TreeBuilderOpts { drop_doctype: false, scripting_enabled: false, iframe_srcdoc: false, ..Default::default() };
    let dom = parse_document(RcDom::default(), ParseOpts { tree_builder, ..Default::default() })
        .from_utf8().read_from(&mut html.as_bytes()).map_err(|e| e.to_string())?;
    let mut handles = vec![dom.document.clone()];
    let mut nodes = Vec::new();
    while let Some(handle) = handles.get(nodes.len()).cloned() {
        handles.extend(handle.children.borrow().iter().cloned());
        nodes.push((node_data(&handle), handle.children.borrow().len()));
    }
    Ok((dom.errors.into_iter().map(String::from).collect(), nodes))
}

} // verus!
