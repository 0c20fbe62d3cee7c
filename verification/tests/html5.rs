use xot::html5::{parse_html, HTML_NS, SVG_NS, XLINK_NS};
use xot::{NodeId, ParseError, Xot};

/// Writes a subtree in one line: names with their namespace URI, attributes
/// in their order, children in brackets.
fn parsed_outline(xot: &Xot, node: NodeId, out: &mut String) {
    if let Some(text) = xot.text_str(node) {
        out.push_str(&format!("{:?}", text));
        return;
    }
    if let Some(text) = xot.comment_str(node) {
        out.push_str(&format!("<!--{}-->", text));
        return;
    }
    if let Some(element) = xot.element(node) {
        let name = element.name();
        out.push_str(&format!(
            "<{{{}}}{}",
            xot.namespace_str(xot.namespace_for_name(name)),
            xot.local_name_str(name)
        ));
        for (attribute, value) in element.attributes.iter() {
            out.push_str(&format!(
                " {{{}}}{}={:?}",
                xot.namespace_str(xot.namespace_for_name(*attribute)),
                xot.local_name_str(*attribute),
                value
            ));
        }
        out.push('>');
    } else {
        out.push_str("#document");
    }
    out.push('[');
    let mut child = xot.first_child(node);
    while let Some(c) = child {
        parsed_outline(xot, c, out);
        child = xot.next_sibling(c);
        if child.is_some() {
            out.push(',');
        }
    }
    out.push(']');
}

#[test]
fn test_parse_html_with_doctype() {
    let mut xot = Xot::new();
    let html = r#"<!DOCTYPE html>
<html>
<head><title>Test</title></head>
<body><p>Hello</p></body>
</html>"#;
    let result = xot.parse_html(html);
    assert!(result.is_ok());
    let root = result.unwrap();
    let doc_el = xot.document_element(root).unwrap();
    let element = xot.element(doc_el).unwrap();
    let name = element.name();
    assert_eq!(xot.local_name_str(name), "html");
    assert_eq!(xot.namespace_str(xot.namespace_for_name(name)), HTML_NS);
}

#[test]
fn doctype_leaves_no_node_and_descendants_stay() {
    let mut xot = Xot::new();
    let html = "<!DOCTYPE html>\n<html>\n<head><title>Test</title></head>\n<body><p>Hello</p></body>\n</html>";
    let root = xot.parse_html(html).unwrap();
    let mut out = String::new();
    parsed_outline(&xot, root, &mut out);
    let h = "{http://www.w3.org/1999/xhtml}";
    assert_eq!(
        out,
        format!(
            "#document[<{h}html>[<{h}head>[<{h}title>[\"Test\"]],\"\\n\",<{h}body>[<{h}p>[\"Hello\"],\"\\n\"]]]",
            h = h
        )
    );
    // The document element is the document's only child: the doctype made
    // no node.
    let doc_el = xot.document_element(root).unwrap();
    assert_eq!(xot.first_child(root), Some(doc_el));
    assert_eq!(xot.next_sibling(doc_el), None);
}

#[test]
fn parse_keeps_attributes_comments_and_foreign_names() {
    let mut xot = Xot::new();
    let html = "<!DOCTYPE html><html><body><h1 class=\"x\" id=y>Hi<!-- c -->there</h1><svg xlink:href=\"#a\"><circle/></svg></body></html>";
    let root = parse_html(&mut xot, html).unwrap();
    let mut out = String::new();
    parsed_outline(&xot, root, &mut out);
    let h = HTML_NS;
    let s = SVG_NS;
    let x = XLINK_NS;
    assert_eq!(
        out,
        format!(
            "#document[<{{{h}}}html>[<{{{h}}}head>[],<{{{h}}}body>[<{{{h}}}h1 {{}}class=\"x\" {{}}id=\"y\">[\"Hi\",<!-- c -->,\"there\"],<{{{s}}}svg {{{x}}}href=\"#a\">[<{{{s}}}circle>[]]]]]",
            h = h,
            s = s,
            x = x
        )
    );
    // Attribute names without a namespace URI lie in "no namespace".
    let html_el = xot.document_element(root).unwrap();
    let head = xot.first_child(html_el).unwrap();
    let body = xot.next_sibling(head).unwrap();
    let h1 = xot.first_child(body).unwrap();
    let class = xot.element(h1).unwrap().attributes[0].0;
    assert_eq!(xot.namespace_for_name(class), xot.no_namespace());
}

#[test]
fn comments_around_the_document_element_are_kept() {
    let mut xot = Xot::new();
    let root = xot
        .parse_html("<!-- lead --><!DOCTYPE html><html></html><!-- tail -->")
        .unwrap();
    let mut out = String::new();
    parsed_outline(&xot, root, &mut out);
    let h = HTML_NS;
    assert_eq!(
        out,
        format!(
            "#document[<!-- lead -->,<{{{h}}}html>[<{{{h}}}head>[],<{{{h}}}body>[]],<!-- tail -->]",
            h = h
        )
    );
    let lead = xot.first_child(root).unwrap();
    assert!(xot.is_comment(lead));
    assert_eq!(xot.document_element(root), xot.next_sibling(lead));
}

#[test]
fn markup_without_doctype_is_a_parse_error() {
    let mut xot = Xot::new();
    let result = xot.parse_html("<html><body><h1>Simple Success</h1></body></html>");
    match result {
        Err(ParseError::HtmlParse(messages)) => {
            assert_eq!(messages, vec!["Unexpected token".to_string()]);
        }
        other => panic!("expected diagnostics, got {:?}", other),
    }
    // Nothing was added to the tree.
    assert!(!xot.has_node(NodeId(0)));
    assert_eq!(xot.add_namespace(HTML_NS).0, 1);
}

#[test]
fn empty_and_blank_input_are_parse_errors() {
    for input in ["", "   ", "\n\t"] {
        let mut xot = Xot::new();
        match xot.parse_html(input) {
            Err(ParseError::HtmlParse(messages)) => assert!(!messages.is_empty()),
            other => panic!("expected diagnostics for {:?}, got {:?}", input, other),
        }
        assert!(!xot.has_node(NodeId(0)));
    }
}

#[test]
fn all_diagnostics_are_reported_in_order() {
    let mut xot = Xot::new();
    let result = xot.parse_html("<!DOCTYPE html><p></b></i>");
    match result {
        Err(ParseError::HtmlParse(messages)) => {
            assert_eq!(messages.len(), 2);
        }
        other => panic!("expected diagnostics, got {:?}", other),
    }
}

#[test]
fn doctype_alone_gives_the_document_shell() {
    let mut xot = Xot::new();
    let root = xot.parse_html("<!DOCTYPE html>").unwrap();
    let mut out = String::new();
    parsed_outline(&xot, root, &mut out);
    let h = HTML_NS;
    assert_eq!(
        out,
        format!("#document[<{{{h}}}html>[<{{{h}}}head>[],<{{{h}}}body>[]]]", h = h)
    );
}

#[test]
fn two_documents_in_one_tree_share_their_names() {
    let mut xot = Xot::new();
    let first = xot.parse_html("<!DOCTYPE html><p>a</p>").unwrap();
    let second = xot.parse_html("<!DOCTYPE html><p>b</p>").unwrap();
    assert_ne!(first, second);
    assert!(xot.is_document(first));
    assert!(xot.is_document(second));
    let first_el = xot.document_element(first).unwrap();
    let second_el = xot.document_element(second).unwrap();
    assert_ne!(first_el, second_el);
    assert_eq!(
        xot.element(first_el).unwrap().name(),
        xot.element(second_el).unwrap().name()
    );
    assert_eq!(xot.parent(second_el), Some(second));
}

#[test]
fn children_come_in_document_order_at_every_level() {
    let mut xot = Xot::new();
    let html = "<!DOCTYPE html><html><head><title>t</title><meta charset=\"utf-8\"></head><body><ul><li>a</li><li>b<b>c</b></li></ul><p>d</p></body></html>";
    let root = xot.parse_html(html).unwrap();
    let mut out = String::new();
    parsed_outline(&xot, root, &mut out);
    let h = HTML_NS;
    assert_eq!(
        out,
        format!(
            "#document[<{{{h}}}html>[<{{{h}}}head>[<{{{h}}}title>[\"t\"],<{{{h}}}meta {{}}charset=\"utf-8\">[]],<{{{h}}}body>[<{{{h}}}ul>[<{{{h}}}li>[\"a\"],<{{{h}}}li>[\"b\",<{{{h}}}b>[\"c\"]]],<{{{h}}}p>[\"d\"]]]]",
            h = h
        )
    );
}

#[test]
fn same_text_parses_to_the_same_tree_twice() {
    let html = "<!DOCTYPE html><p class=\"x\">one<!--two--><i>three</i></p>";
    let mut first = Xot::new();
    let mut second = Xot::new();
    let a = first.parse_html(html).unwrap();
    let b = second.parse_html(html).unwrap();
    let mut one = String::new();
    let mut two = String::new();
    parsed_outline(&first, a, &mut one);
    parsed_outline(&second, b, &mut two);
    assert_eq!(a, b);
    assert_eq!(one, two);
}
