use xot::html5::{
    check_diagnostics, convert_document, find_fragment_root, DomConverter, HTML_NS, MATHML_NS,
    SVG_NS, XLINK_NS, XMLNS_NS, XML_NS,
};
use xot::{
    NamespaceId, NodeId, ParseError, QualifiedName, SourceAttribute, SourceData, SourceDom, Xot,
};

fn html_element(local: &str) -> SourceData {
    SourceData::Element(
        QualifiedName { ns: HTML_NS.to_string(), local: local.to_string() },
        Vec::new(),
    )
}

fn text(content: &str) -> SourceData {
    SourceData::Text(content.to_string())
}

/// Adds a node with the given data as the last child of `parent`.
fn child(dom: &mut SourceDom, parent: usize, data: SourceData) -> usize {
    let position = dom.push(data);
    assert!(dom.add_child(parent, position));
    position
}

fn children_of(xot: &Xot, node: NodeId) -> Vec<NodeId> {
    let mut found = Vec::new();
    let mut next = xot.first_child(node);
    while let Some(c) = next {
        found.push(c);
        next = xot.next_sibling(c);
    }
    found
}

#[test]
fn test_parse_html_simple_fragment() {
    let mut xot = Xot::new();
    // The DOM of `<html><body><h1>Simple Success</h1></body></html>`, node
    // for node as the markup is written. Handed to the parser as text, the
    // markup lacks a doctype, which the parser reports as a diagnostic.
    let mut dom = SourceDom::new();
    let html = child(&mut dom, 0, html_element("html"));
    let body = child(&mut dom, html, html_element("body"));
    let h1 = child(&mut dom, body, html_element("h1"));
    child(&mut dom, h1, text("Simple Success"));
    let root = convert_document(&mut xot, &dom);

    let html_ns = xot.add_namespace("http://www.w3.org/1999/xhtml");
    let html_name = xot.add_name_ns("html", html_ns);
    let body_name = xot.add_name_ns("body", html_ns);
    let h1_name = xot.add_name_ns("h1", html_ns);

    let doc_el = xot.document_element(root).expect("No document element found");
    assert_eq!(xot.element(doc_el).unwrap().name(), html_name, "Document element should be <html>");

    let body_el = xot.first_child(doc_el).expect("No child found for <html> element");
    assert_eq!(xot.element(body_el).unwrap().name(), body_name, "First child should be <body>");

    let h1_el = xot.first_child(body_el).expect("No child found for <body> element");
    assert_eq!(xot.element(h1_el).unwrap().name(), h1_name, "First child should be <h1>");

    let text_node = xot.first_child(h1_el).expect("No child found for <h1> element");
    assert!(xot.is_text(text_node), "Child of <h1> should be a text node");
    assert_eq!(xot.text_str(text_node).unwrap(), "Simple Success", "Text content mismatch");

    // Each of them is an only child.
    assert_eq!(children_of(&xot, root), vec![doc_el]);
    assert_eq!(children_of(&xot, doc_el), vec![body_el]);
    assert_eq!(children_of(&xot, body_el), vec![h1_el]);
    assert_eq!(children_of(&xot, h1_el), vec![text_node]);
}

#[test]
fn adjacent_text_runs_become_one_text_node() {
    let mut xot = Xot::new();
    let mut dom = SourceDom::new();
    let p = child(&mut dom, 0, html_element("p"));
    child(&mut dom, p, text("Hello, "));
    child(&mut dom, p, text("world"));
    child(&mut dom, p, text("!"));
    let root = convert_document(&mut xot, &dom);
    let p_el = xot.document_element(root).unwrap();
    let kids = children_of(&xot, p_el);
    assert_eq!(kids.len(), 1);
    assert_eq!(xot.text_str(kids[0]), Some("Hello, world!"));
}

#[test]
fn text_is_merged_with_the_node_just_before_only() {
    let mut xot = Xot::new();
    let mut dom = SourceDom::new();
    let p = child(&mut dom, 0, html_element("p"));
    child(&mut dom, p, text("a"));
    child(&mut dom, p, SourceData::Comment("c".to_string()));
    child(&mut dom, p, text("b"));
    child(&mut dom, p, html_element("br"));
    child(&mut dom, p, text("d"));
    child(&mut dom, p, text("e"));
    let root = convert_document(&mut xot, &dom);
    let p_el = xot.document_element(root).unwrap();
    let kids = children_of(&xot, p_el);
    assert_eq!(kids.len(), 5);
    assert_eq!(xot.text_str(kids[0]), Some("a"));
    assert_eq!(xot.comment_str(kids[1]), Some("c"));
    assert_eq!(xot.text_str(kids[2]), Some("b"));
    assert!(xot.is_element(kids[3]));
    assert_eq!(xot.text_str(kids[4]), Some("de"));
}

#[test]
fn comments_are_never_merged() {
    let mut xot = Xot::new();
    let mut dom = SourceDom::new();
    child(&mut dom, 0, SourceData::Comment("one".to_string()));
    child(&mut dom, 0, SourceData::Comment("two".to_string()));
    let root = convert_document(&mut xot, &dom);
    let kids = children_of(&xot, root);
    assert_eq!(kids.len(), 2);
    assert_eq!(xot.comment_str(kids[0]), Some("one"));
    assert_eq!(xot.comment_str(kids[1]), Some("two"));
    assert_eq!(xot.document_element(root), None);
}

#[test]
fn doctype_and_processing_instruction_make_no_node() {
    let mut xot = Xot::new();
    let mut dom = SourceDom::new();
    child(&mut dom, 0, SourceData::Doctype);
    child(&mut dom, 0, SourceData::ProcessingInstruction);
    let html = child(&mut dom, 0, html_element("html"));
    child(&mut dom, html, SourceData::ProcessingInstruction);
    child(&mut dom, 0, SourceData::Doctype);
    let root = convert_document(&mut xot, &dom);
    assert_eq!(root, NodeId(0));
    let html_el = xot.document_element(root).unwrap();
    assert_eq!(html_el, NodeId(1));
    assert_eq!(children_of(&xot, root), vec![html_el]);
    assert_eq!(children_of(&xot, html_el), Vec::<NodeId>::new());
    // The document and the element are all the nodes there are.
    assert!(!xot.has_node(NodeId(2)));
}

#[test]
fn text_runs_around_a_skipped_node_are_merged() {
    // A doctype or a processing instruction makes no node, so the text
    // before it is still the last child when the text behind it arrives.
    let mut xot = Xot::new();
    let mut dom = SourceDom::new();
    let p = child(&mut dom, 0, html_element("p"));
    child(&mut dom, p, text("a"));
    child(&mut dom, p, SourceData::Doctype);
    child(&mut dom, p, text("b"));
    child(&mut dom, p, SourceData::ProcessingInstruction);
    child(&mut dom, p, text("c"));
    let root = convert_document(&mut xot, &dom);
    let p_el = xot.document_element(root).unwrap();
    let kids = children_of(&xot, p_el);
    assert_eq!(kids.len(), 1);
    assert_eq!(xot.text_str(kids[0]), Some("abc"));
}

#[test]
fn name_without_namespace_uri_lies_in_no_namespace() {
    let mut xot = Xot::new();
    let mut dom = SourceDom::new();
    let plain = SourceData::Element(
        QualifiedName { ns: String::new(), local: "plain".to_string() },
        vec![SourceAttribute {
            name: QualifiedName { ns: String::new(), local: "id".to_string() },
            value: "x".to_string(),
        }],
    );
    child(&mut dom, 0, plain);
    let root = convert_document(&mut xot, &dom);
    let element = xot.document_element(root).unwrap();
    let name = xot.element(element).unwrap().name();
    assert_eq!(xot.namespace_for_name(name), xot.no_namespace());
    assert_eq!(xot.local_name_str(name), "plain");
    let attribute = xot.element(element).unwrap().attributes[0].0;
    assert_eq!(xot.namespace_for_name(attribute), xot.no_namespace());
    assert_eq!(xot.local_name_str(attribute), "id");
    // No namespace was interned for the empty URI: the next new one comes
    // right behind the six that every conversion interns.
    assert_eq!(xot.add_namespace("urn:next"), NamespaceId(7));
}

#[test]
fn converter_interns_the_six_namespaces_once() {
    let mut xot = Xot::new();
    let _first = DomConverter::new(&mut xot);
    assert_eq!(xot.add_namespace(HTML_NS), NamespaceId(1));
    assert_eq!(xot.add_namespace(MATHML_NS), NamespaceId(2));
    assert_eq!(xot.add_namespace(SVG_NS), NamespaceId(3));
    assert_eq!(xot.add_namespace(XLINK_NS), NamespaceId(4));
    assert_eq!(xot.add_namespace(XML_NS), NamespaceId(5));
    assert_eq!(xot.add_namespace(XMLNS_NS), NamespaceId(6));
    let _second = DomConverter::new(&mut xot);
    assert_eq!(xot.add_namespace("urn:next"), NamespaceId(7));
    assert_eq!(HTML_NS, "http://www.w3.org/1999/xhtml");
    assert_eq!(MATHML_NS, "http://www.w3.org/1998/Math/MathML");
    assert_eq!(SVG_NS, "http://www.w3.org/2000/svg");
    assert_eq!(XLINK_NS, "http://www.w3.org/1999/xlink");
    assert_eq!(XML_NS, "http://www.w3.org/XML/1998/namespace");
    assert_eq!(XMLNS_NS, "http://www.w3.org/2000/xmlns/");
}

#[test]
fn interning_a_uri_again_gives_the_same_identifier() {
    let mut xot = Xot::new();
    let mut converter = DomConverter::new(&mut xot);
    let svg = converter.get_or_add_namespace_id(&mut xot, SVG_NS);
    assert_eq!(svg, NamespaceId(3));
    let custom = converter.get_or_add_namespace_id(&mut xot, "urn:custom");
    assert_eq!(custom, NamespaceId(7));
    let other = converter.get_or_add_namespace_id(&mut xot, "urn:other");
    assert_eq!(other, NamespaceId(8));
    assert_eq!(converter.get_or_add_namespace_id(&mut xot, "urn:custom"), custom);
    assert_eq!(converter.get_or_add_namespace_id(&mut xot, SVG_NS), svg);
    assert_eq!(xot.namespace_str(custom), "urn:custom");
    // The empty URI is "no namespace", whatever else was interned.
    assert_eq!(converter.get_or_add_namespace_id(&mut xot, ""), xot.no_namespace());
    assert_eq!(xot.add_namespace("urn:next"), NamespaceId(9));
    // A second converter on the same tree finds what the first interned.
    let mut again = DomConverter::new(&mut xot);
    assert_eq!(again.get_or_add_namespace_id(&mut xot, "urn:custom"), custom);
}

#[test]
fn qualified_names_are_interned_with_their_namespace() {
    let mut xot = Xot::new();
    let mut converter = DomConverter::new(&mut xot);
    let circle = QualifiedName { ns: SVG_NS.to_string(), local: "circle".to_string() };
    let plain = QualifiedName { ns: String::new(), local: "circle".to_string() };
    let a = converter.add_name(&mut xot, &circle);
    let b = converter.add_name(&mut xot, &plain);
    assert_ne!(a, b);
    assert_eq!(converter.add_name(&mut xot, &circle), a);
    assert_eq!(xot.local_name_str(a), "circle");
    assert_eq!(xot.namespace_str(xot.namespace_for_name(a)), SVG_NS);
    assert_eq!(xot.namespace_for_name(b), xot.no_namespace());
}

#[test]
fn empty_document_converts_to_an_empty_document() {
    let mut xot = Xot::new();
    let dom = SourceDom::new();
    let root = convert_document(&mut xot, &dom);
    assert!(xot.is_document(root));
    assert_eq!(xot.first_child(root), None);
    assert_eq!(xot.document_element(root), None);
    assert_eq!(root, NodeId(0));
    assert!(!xot.has_node(NodeId(1)));
}

#[test]
fn document_of_skipped_nodes_converts_to_an_empty_document() {
    let mut xot = Xot::new();
    let mut dom = SourceDom::new();
    child(&mut dom, 0, SourceData::Doctype);
    child(&mut dom, 0, SourceData::ProcessingInstruction);
    assert_eq!(find_fragment_root(&dom), None);
    let root = convert_document(&mut xot, &dom);
    assert_eq!(root, NodeId(0));
    assert!(xot.is_document(root));
    assert_eq!(xot.first_child(root), None);
    assert!(!xot.has_node(NodeId(1)));
}

#[test]
fn fragment_without_document_shell_is_converted() {
    // A lone text.
    let mut xot = Xot::new();
    let mut dom = SourceDom::new();
    child(&mut dom, 0, text("just text"));
    assert_eq!(find_fragment_root(&dom), Some(1));
    let root = convert_document(&mut xot, &dom);
    assert!(xot.is_document(root));
    let kids = children_of(&xot, root);
    assert_eq!(kids.len(), 1);
    assert_eq!(xot.text_str(kids[0]), Some("just text"));
    assert_eq!(xot.document_element(root), None);

    // An element that is no `html`, behind a comment.
    let mut xot = Xot::new();
    let mut dom = SourceDom::new();
    child(&mut dom, 0, SourceData::Comment("c".to_string()));
    let div = child(&mut dom, 0, html_element("div"));
    child(&mut dom, div, text("inside"));
    assert_eq!(find_fragment_root(&dom), Some(div));
    let root = convert_document(&mut xot, &dom);
    let element = xot.document_element(root).unwrap();
    assert_eq!(xot.local_name_str(xot.element(element).unwrap().name()), "div");
    assert_eq!(xot.text_str(xot.first_child(element).unwrap()), Some("inside"));
}

#[test]
fn fragment_root_is_the_first_element_or_text() {
    let mut dom = SourceDom::new();
    assert_eq!(find_fragment_root(&dom), None);
    child(&mut dom, 0, SourceData::Comment("c".to_string()));
    child(&mut dom, 0, SourceData::Doctype);
    child(&mut dom, 0, SourceData::ProcessingInstruction);
    assert_eq!(find_fragment_root(&dom), None);
    let first = child(&mut dom, 0, text("t"));
    child(&mut dom, 0, html_element("p"));
    assert_eq!(find_fragment_root(&dom), Some(first));

    let mut dom = SourceDom::new();
    let p = child(&mut dom, 0, html_element("p"));
    child(&mut dom, 0, text("t"));
    assert_eq!(find_fragment_root(&dom), Some(p));

    // Only the root's own children count.
    let mut dom = SourceDom::new();
    let inner = child(&mut dom, 0, SourceData::Document);
    child(&mut dom, inner, html_element("p"));
    assert_eq!(find_fragment_root(&dom), None);
}

#[test]
fn source_node_reached_twice_is_converted_once() {
    let mut xot = Xot::new();
    let mut dom = SourceDom::new();
    let a = child(&mut dom, 0, html_element("a"));
    let b = child(&mut dom, 0, html_element("b"));
    let shared = child(&mut dom, a, html_element("shared"));
    child(&mut dom, shared, text("once"));
    assert!(dom.add_child(b, shared));
    assert!(dom.add_child(a, shared));
    let root = convert_document(&mut xot, &dom);
    let kids = children_of(&xot, root);
    assert_eq!(kids.len(), 2);
    let under_a = children_of(&xot, kids[0]);
    assert_eq!(under_a.len(), 1);
    assert_eq!(xot.local_name_str(xot.element(under_a[0]).unwrap().name()), "shared");
    assert_eq!(xot.text_str(xot.first_child(under_a[0]).unwrap()), Some("once"));
    assert_eq!(children_of(&xot, kids[1]), Vec::<NodeId>::new());
    // document, a, shared, text, b
    assert!(xot.has_node(NodeId(4)));
    assert!(!xot.has_node(NodeId(5)));
}

#[test]
fn dom_that_holds_itself_is_converted_once() {
    let mut xot = Xot::new();
    let mut dom = SourceDom::new();
    let a = child(&mut dom, 0, html_element("a"));
    let b = child(&mut dom, a, html_element("b"));
    assert!(dom.add_child(b, a));
    assert!(dom.add_child(b, 0));
    assert!(dom.add_child(b, b));
    let root = convert_document(&mut xot, &dom);
    let a_el = xot.document_element(root).unwrap();
    let b_el = xot.first_child(a_el).unwrap();
    assert_eq!(children_of(&xot, root), vec![a_el]);
    assert_eq!(children_of(&xot, a_el), vec![b_el]);
    assert_eq!(children_of(&xot, b_el), Vec::<NodeId>::new());
    assert!(!xot.has_node(NodeId(3)));
}

#[test]
fn document_inside_a_document_hands_its_children_up() {
    let mut xot = Xot::new();
    let mut dom = SourceDom::new();
    child(&mut dom, 0, text("a"));
    let inner = child(&mut dom, 0, SourceData::Document);
    child(&mut dom, inner, text("b"));
    child(&mut dom, inner, html_element("p"));
    child(&mut dom, 0, text("c"));
    let root = convert_document(&mut xot, &dom);
    let kids = children_of(&xot, root);
    assert_eq!(kids.len(), 3);
    assert_eq!(xot.text_str(kids[0]), Some("ab"));
    assert!(xot.is_element(kids[1]));
    assert_eq!(xot.text_str(kids[2]), Some("c"));
    assert!(!xot.has_node(NodeId(4)));
}

#[test]
fn attributes_keep_source_order_and_the_last_value_wins() {
    let mut xot = Xot::new();
    let mut dom = SourceDom::new();
    let attribute = |ns: &str, local: &str, value: &str| SourceAttribute {
        name: QualifiedName { ns: ns.to_string(), local: local.to_string() },
        value: value.to_string(),
    };
    let element = SourceData::Element(
        QualifiedName { ns: SVG_NS.to_string(), local: "use".to_string() },
        vec![
            attribute("", "id", "first"),
            attribute(XLINK_NS, "href", "#a"),
            attribute("urn:custom", "href", "#b"),
            attribute("", "id", "second"),
            attribute("", "href", "#c"),
        ],
    );
    child(&mut dom, 0, element);
    let root = convert_document(&mut xot, &dom);
    let node = xot.document_element(root).unwrap();
    let attributes = &xot.element(node).unwrap().attributes;
    let seen: Vec<(String, String, String)> = attributes
        .iter()
        .map(|(name, value)| {
            (
                xot.namespace_str(xot.namespace_for_name(*name)).to_string(),
                xot.local_name_str(*name).to_string(),
                value.clone(),
            )
        })
        .collect();
    let expect = |ns: &str, local: &str, value: &str| {
        (ns.to_string(), local.to_string(), value.to_string())
    };
    assert_eq!(
        seen,
        vec![
            expect("", "id", "second"),
            expect(XLINK_NS, "href", "#a"),
            expect("urn:custom", "href", "#b"),
            expect("", "href", "#c"),
        ]
    );
    let name = xot.element(node).unwrap().name();
    assert_eq!(xot.namespace_str(xot.namespace_for_name(name)), SVG_NS);
    // The namespace met for the first time came behind the six known ones.
    assert_eq!(xot.add_namespace("urn:custom"), NamespaceId(7));
}

#[test]
fn convert_handle_adds_under_a_node_of_the_tree() {
    let mut xot = Xot::new();
    let ns = xot.no_namespace();
    let name = xot.add_name_ns("host", ns);
    let host = xot.new_element(name);
    let before = xot.new_text("kept ");
    assert!(xot.append(host, before).is_ok());

    let mut dom = SourceDom::new();
    child(&mut dom, 0, text("and more"));
    let em = child(&mut dom, 0, html_element("em"));
    child(&mut dom, em, text("!"));

    let mut converter = DomConverter::new(&mut xot);
    converter.convert_handle(&mut xot, &dom, 0, host);
    let kids = children_of(&xot, host);
    assert_eq!(kids.len(), 2);
    assert_eq!(kids[0], before);
    assert_eq!(xot.text_str(before), Some("kept and more"));
    assert_eq!(xot.local_name_str(xot.element(kids[1]).unwrap().name()), "em");

    // What the converter has met it does not convert again ...
    converter.convert_handle(&mut xot, &dom, 0, host);
    converter.convert_handle(&mut xot, &dom, em, host);
    assert_eq!(children_of(&xot, host).len(), 2);
    // ... until it is told to forget.
    converter.clear();
    converter.convert_handle(&mut xot, &dom, em, host);
    let kids = children_of(&xot, host);
    assert_eq!(kids.len(), 3);
    assert_eq!(xot.text_str(xot.first_child(kids[2]).unwrap()), Some("!"));
}

#[test]
fn add_text_joins_or_starts_a_text_node() {
    let mut xot = Xot::new();
    let doc = xot.new_document();
    let first = DomConverter::add_text(&mut xot, doc, "a");
    let second = DomConverter::add_text(&mut xot, doc, "b");
    assert_eq!(first, second);
    assert_eq!(xot.text_str(first), Some("ab"));
    let comment = xot.new_comment("c");
    assert!(xot.append(doc, comment).is_ok());
    let third = DomConverter::add_text(&mut xot, doc, "d");
    assert_ne!(third, first);
    assert_eq!(xot.text_str(first), Some("ab"));
    assert_eq!(xot.text_str(third), Some("d"));
    assert_eq!(children_of(&xot, doc), vec![first, comment, third]);
}

#[test]
fn diagnostics_stop_the_conversion() {
    assert!(check_diagnostics(Vec::new()).is_ok());
    let messages = vec!["first".to_string(), "second".to_string()];
    match check_diagnostics(messages.clone()) {
        Err(ParseError::HtmlParse(reported)) => assert_eq!(reported, messages),
        other => panic!("expected the diagnostics, got {:?}", other),
    }
}

#[test]
fn two_conversions_make_two_documents() {
    let mut xot = Xot::new();
    let mut dom = SourceDom::new();
    child(&mut dom, 0, html_element("p"));
    let first = convert_document(&mut xot, &dom);
    let second = convert_document(&mut xot, &dom);
    assert_eq!(first, NodeId(0));
    assert_eq!(second, NodeId(2));
    assert_eq!(
        xot.element(xot.document_element(first).unwrap()).unwrap().name(),
        xot.element(xot.document_element(second).unwrap()).unwrap().name()
    );
}

#[test]
fn new_converter_remembers_the_six_namespaces() {
    let mut xot = Xot::new();
    let converter = DomConverter::new(&mut xot);
    assert_eq!(converter.remembered(), 6);
}

#[test]
fn fresh_uri_is_remembered_once() {
    let mut xot = Xot::new();
    let mut converter = DomConverter::new(&mut xot);
    let a = converter.get_or_add_namespace_id(&mut xot, "urn:x");
    assert_eq!(converter.remembered(), 7);
    assert_eq!(converter.get_or_add_namespace_id(&mut xot, "urn:x"), a);
    assert_eq!(converter.remembered(), 7);
    assert_eq!(xot.namespace_str(a), "urn:x");
    assert_ne!(a, xot.no_namespace());
}

#[test]
fn seeded_and_empty_uri_leave_what_is_remembered() {
    let mut xot = Xot::new();
    let mut converter = DomConverter::new(&mut xot);
    let svg = converter.get_or_add_namespace_id(&mut xot, SVG_NS);
    assert_eq!(svg, xot.add_namespace(SVG_NS));
    assert_eq!(converter.remembered(), 6);
    assert_eq!(converter.get_or_add_namespace_id(&mut xot, ""), xot.no_namespace());
    assert_eq!(converter.remembered(), 6);
}

#[test]
fn names_without_uri_add_nothing_to_what_is_remembered() {
    let mut xot = Xot::new();
    let doc = xot.new_document();
    let mut converter = DomConverter::new(&mut xot);
    let mut dom = SourceDom::new();
    let plain = SourceData::Element(
        QualifiedName { ns: String::new(), local: "n".to_string() },
        vec![SourceAttribute {
            name: QualifiedName { ns: String::new(), local: "a".to_string() },
            value: "v".to_string(),
        }],
    );
    let element = child(&mut dom, 0, plain);
    converter.convert_handle(&mut xot, &dom, element, doc);
    assert_eq!(converter.remembered(), 6);
    let e = xot.first_child(doc).unwrap();
    let none = xot.no_namespace();
    assert_eq!(xot.element(e).unwrap().name(), xot.add_name_ns("n", none));
    let a = xot.add_name_ns("a", none);
    assert_eq!(xot.element(e).unwrap().attributes, vec![(a, "v".to_string())]);
    assert_eq!(xot.add_namespace("urn:next"), NamespaceId(7));

    // An attribute in a namespace not met before is remembered. The places
    // of another DOM mean nothing to the converter, so it forgets them first.
    converter.clear();
    assert_eq!(converter.remembered(), 6);
    let mut dom = SourceDom::new();
    let named = SourceData::Element(
        QualifiedName { ns: HTML_NS.to_string(), local: "n".to_string() },
        vec![SourceAttribute {
            name: QualifiedName { ns: "urn:attr".to_string(), local: "a".to_string() },
            value: "v".to_string(),
        }],
    );
    let element = child(&mut dom, 0, named);
    converter.convert_handle(&mut xot, &dom, element, doc);
    assert_eq!(converter.remembered(), 7);
}

#[test]
fn skipped_nodes_change_nothing_under_any_parent() {
    let mut xot = Xot::new();
    let doc = xot.new_document();
    let text_node = xot.new_text("t");
    assert!(xot.append(doc, text_node).is_ok());
    let mut converter = DomConverter::new(&mut xot);
    let mut dom = SourceDom::new();
    let doctype = child(&mut dom, 0, SourceData::Doctype);
    let pi = child(&mut dom, 0, SourceData::ProcessingInstruction);
    let para = child(&mut dom, 0, html_element("p"));
    // Under a text node, and under what is no node at all.
    converter.convert_handle(&mut xot, &dom, doctype, text_node);
    converter.convert_handle(&mut xot, &dom, pi, NodeId(99));
    assert_eq!(converter.remembered(), 6);
    assert_eq!(children_of(&xot, doc), vec![text_node]);
    assert_eq!(xot.text_str(text_node), Some("t"));
    assert!(!xot.has_node(NodeId(2)));
    // A node met before is passed over wherever it is asked for again.
    converter.convert_handle(&mut xot, &dom, para, doc);
    assert!(xot.has_node(NodeId(2)));
    converter.convert_handle(&mut xot, &dom, para, text_node);
    converter.convert_handle(&mut xot, &dom, para, NodeId(99));
    assert!(!xot.has_node(NodeId(3)));
    assert_eq!(children_of(&xot, doc).len(), 2);
}

#[test]
fn table_that_is_not_well_formed_is_taken_for_an_empty_document() {
    let broken = SourceDom { nodes: Vec::new() };
    let dom = broken.usable();
    assert!(dom.is_well_formed());
    assert_eq!(dom.len(), 1);
    let mut good = SourceDom::new();
    child(&mut good, 0, text("kept"));
    let same = good.usable();
    assert_eq!(same.len(), 2);
    assert_eq!(same.nodes[0].children, vec![1]);
}

#[test]
fn table_is_built_from_nodes_level_by_level() {
    let text = |t: &str| SourceData::Text(t.to_string());
    // document[html[head, body[p["a"], "b"]]]
    let levels = vec![
        (SourceData::Document, 1),
        (html_element("html"), 2),
        (html_element("head"), 0),
        (html_element("body"), 2),
        (html_element("p"), 1),
        (text("b"), 0),
        (text("a"), 0),
    ];
    let dom = SourceDom::from_levels(levels);
    assert!(dom.is_well_formed());
    assert_eq!(dom.len(), 7);
    let children: Vec<Vec<usize>> = dom.nodes.iter().map(|n| n.children.clone()).collect();
    assert_eq!(
        children,
        vec![vec![1], vec![2, 3], vec![], vec![4, 5], vec![6], vec![], vec![]]
    );
    assert!(matches!(dom.nodes[0].data, SourceData::Document));
    match &dom.nodes[6].data {
        SourceData::Text(t) => assert_eq!(t, "a"),
        other => panic!("expected a text, got {:?}", other),
    }

    // Children that find no place make no table.
    let dom = SourceDom::from_levels(vec![(SourceData::Document, 2), (text("x"), 0)]);
    assert_eq!(dom.len(), 0);
    assert_eq!(dom.usable().len(), 1);
    let dom = SourceDom::from_levels(vec![(SourceData::Document, usize::MAX)]);
    assert_eq!(dom.len(), 0);
    let dom = SourceDom::from_levels(Vec::new());
    assert_eq!(dom.len(), 0);

    // Nodes that no count reaches stay in the table, without a parent.
    let dom = SourceDom::from_levels(vec![(SourceData::Document, 0), (text("x"), 0)]);
    assert_eq!(dom.len(), 2);
    assert!(dom.nodes[0].children.is_empty());

    // A text that counts children gives a table that is not well formed.
    let dom = SourceDom::from_levels(vec![(text("x"), 1), (text("y"), 0)]);
    assert_eq!(dom.len(), 2);
    assert!(!dom.is_well_formed());
}

#[test]
fn document_of_comments_and_skipped_nodes_has_no_document_element() {
    let mut xot = Xot::new();
    let mut dom = SourceDom::new();
    child(&mut dom, 0, SourceData::Doctype);
    child(&mut dom, 0, SourceData::Comment("one".to_string()));
    child(&mut dom, 0, SourceData::ProcessingInstruction);
    child(&mut dom, 0, SourceData::Comment("two".to_string()));
    assert_eq!(find_fragment_root(&dom), None);
    let root = convert_document(&mut xot, &dom);
    assert!(xot.is_document(root));
    assert_eq!(xot.document_element(root), None);
    let kids = children_of(&xot, root);
    assert_eq!(kids.len(), 2);
    assert_eq!(xot.comment_str(kids[0]), Some("one"));
    assert_eq!(xot.comment_str(kids[1]), Some("two"));
}
