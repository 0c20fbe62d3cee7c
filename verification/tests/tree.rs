use xot::{Error, NameId, NamespaceId, NodeId, Xot};

#[test]
fn new_tree_knows_only_no_namespace() {
    let mut xot = Xot::new();
    assert_eq!(xot.no_namespace(), NamespaceId(0));
    assert_eq!(xot.namespace_str(xot.no_namespace()), "");
    assert_eq!(xot.add_namespace(""), xot.no_namespace());
    assert!(!xot.has_node(NodeId(0)));
    assert_eq!(xot.add_namespace("urn:first"), NamespaceId(1));
}

#[test]
fn namespaces_are_interned_once() {
    let mut xot = Xot::new();
    let a = xot.add_namespace("urn:a");
    let b = xot.add_namespace("urn:b");
    assert_ne!(a, b);
    assert_eq!(xot.add_namespace("urn:a"), a);
    assert_eq!(xot.add_namespace("urn:b"), b);
    assert_eq!(xot.namespace_str(a), "urn:a");
    assert_eq!(xot.namespace_str(b), "urn:b");
    assert_eq!(xot.add_namespace("urn:c"), NamespaceId(3));
}

#[test]
fn names_are_interned_once_per_namespace() {
    let mut xot = Xot::new();
    let a = xot.add_namespace("urn:a");
    let none = xot.no_namespace();
    let p_a = xot.add_name_ns("p", a);
    let p_none = xot.add_name_ns("p", none);
    let q_a = xot.add_name_ns("q", a);
    assert_eq!(p_a, NameId(0));
    assert_eq!(p_none, NameId(1));
    assert_eq!(q_a, NameId(2));
    assert_eq!(xot.add_name_ns("p", a), p_a);
    assert_eq!(xot.add_name_ns("p", none), p_none);
    assert_eq!(xot.local_name_str(p_none), "p");
    assert_eq!(xot.namespace_for_name(p_none), none);
    assert_eq!(xot.namespace_for_name(q_a), a);
    assert_eq!(xot.local_name_str(q_a), "q");
}

#[test]
fn append_links_parent_and_children_in_order() {
    let mut xot = Xot::new();
    let ns = xot.no_namespace();
    let name = xot.add_name_ns("e", ns);
    let doc = xot.new_document();
    let root = xot.new_element(name);
    let first = xot.new_text("one");
    let second = xot.new_comment("two");
    let third = xot.new_element(name);
    assert!(xot.append(doc, root).is_ok());
    assert!(xot.append(root, first).is_ok());
    assert!(xot.append(root, second).is_ok());
    assert!(xot.append(root, third).is_ok());
    assert_eq!(xot.parent(doc), None);
    assert_eq!(xot.parent(root), Some(doc));
    assert_eq!(xot.parent(third), Some(root));
    assert_eq!(xot.first_child(root), Some(first));
    assert_eq!(xot.last_child(root), Some(third));
    assert_eq!(xot.next_sibling(first), Some(second));
    assert_eq!(xot.next_sibling(second), Some(third));
    assert_eq!(xot.next_sibling(third), None);
    assert_eq!(xot.next_sibling(doc), None);
    assert_eq!(xot.first_child(first), None);
    assert_eq!(xot.last_child(third), None);
    assert_eq!(xot.text_str(first), Some("one"));
    assert_eq!(xot.comment_str(second), Some("two"));
    assert_eq!(xot.text_str(second), None);
    assert_eq!(xot.comment_str(first), None);
    assert!(xot.is_document(doc) && !xot.is_document(root));
    assert!(xot.is_element(root) && !xot.is_element(first));
    assert!(xot.is_text(first) && !xot.is_text(second));
    assert!(xot.is_comment(second) && !xot.is_comment(third));
    assert_eq!(xot.element(root).unwrap().name(), name);
    assert!(xot.element(first).is_none());
}

#[test]
fn append_refuses_what_would_break_the_tree() {
    let mut xot = Xot::new();
    let ns = xot.no_namespace();
    let name = xot.add_name_ns("e", ns);
    let doc = xot.new_document();
    let other_doc = xot.new_document();
    let outer = xot.new_element(name);
    let inner = xot.new_element(name);
    let text = xot.new_text("t");
    let comment = xot.new_comment("c");
    let loose = xot.new_element(name);
    assert!(xot.append(outer, inner).is_ok());
    // A text or a comment holds no children.
    assert!(matches!(xot.append(text, loose), Err(Error::InvalidOperation)));
    assert!(matches!(xot.append(comment, loose), Err(Error::InvalidOperation)));
    // A document is nobody's child.
    assert!(matches!(xot.append(doc, other_doc), Err(Error::InvalidOperation)));
    assert!(matches!(xot.append(outer, doc), Err(Error::InvalidOperation)));
    // A node that sits in a tree is not appended again.
    assert!(matches!(xot.append(doc, inner), Err(Error::InvalidOperation)));
    assert!(matches!(xot.append(outer, inner), Err(Error::InvalidOperation)));
    // A node goes neither under itself nor under what lies below it.
    assert!(matches!(xot.append(loose, loose), Err(Error::InvalidOperation)));
    assert!(matches!(xot.append(inner, outer), Err(Error::InvalidOperation)));
    // What is no node of the tree is refused.
    assert!(matches!(xot.append(NodeId(99), loose), Err(Error::InvalidOperation)));
    assert!(matches!(xot.append(doc, NodeId(99)), Err(Error::InvalidOperation)));
    // Nothing of that changed the tree.
    assert_eq!(xot.first_child(doc), None);
    assert_eq!(xot.parent(loose), None);
    assert_eq!(xot.parent(outer), None);
    assert_eq!(xot.last_child(outer), Some(inner));
    // And what is allowed still works.
    assert!(xot.append(doc, outer).is_ok());
    assert!(xot.append(inner, loose).is_ok());
    assert_eq!(xot.parent(loose), Some(inner));
}

#[test]
fn set_text_replaces_the_content_of_a_text_node_only() {
    let mut xot = Xot::new();
    let text = xot.new_text("before");
    let comment = xot.new_comment("c");
    assert!(xot.set_text(text, "after").is_ok());
    assert_eq!(xot.text_str(text), Some("after"));
    assert!(matches!(xot.set_text(comment, "x"), Err(Error::NotText)));
    assert!(matches!(xot.set_text(NodeId(7), "x"), Err(Error::NotText)));
    assert_eq!(xot.comment_str(comment), Some("c"));
}

#[test]
fn set_attribute_keeps_first_place_and_last_value() {
    let mut xot = Xot::new();
    let ns = xot.no_namespace();
    let e = xot.add_name_ns("e", ns);
    let a = xot.add_name_ns("a", ns);
    let b = xot.add_name_ns("b", ns);
    let element = xot.new_element(e);
    let text = xot.new_text("t");
    assert!(xot.element(element).unwrap().attributes.is_empty());
    assert!(xot.set_attribute(element, a, "1").is_ok());
    assert!(xot.set_attribute(element, b, "2").is_ok());
    assert!(xot.set_attribute(element, a, "3").is_ok());
    assert_eq!(
        xot.element(element).unwrap().attributes,
        vec![(a, "3".to_string()), (b, "2".to_string())]
    );
    assert!(matches!(xot.set_attribute(text, a, "1"), Err(Error::NotElement)));
    assert!(matches!(xot.set_attribute(NodeId(9), a, "1"), Err(Error::NotElement)));
    assert_eq!(xot.element(element).unwrap().name(), e);
}

#[test]
fn document_element_is_the_first_element_child() {
    let mut xot = Xot::new();
    let ns = xot.no_namespace();
    let name = xot.add_name_ns("e", ns);
    let doc = xot.new_document();
    assert_eq!(xot.document_element(doc), None);
    let comment = xot.new_comment("c");
    let text = xot.new_text("t");
    let first = xot.new_element(name);
    let second = xot.new_element(name);
    assert!(xot.append(doc, comment).is_ok());
    assert!(xot.append(doc, text).is_ok());
    assert_eq!(xot.document_element(doc), None);
    assert!(xot.append(doc, first).is_ok());
    assert!(xot.append(doc, second).is_ok());
    assert_eq!(xot.document_element(doc), Some(first));
    // Only a document has a document element.
    assert_eq!(xot.document_element(first), None);
    assert_eq!(xot.document_element(NodeId(50)), None);
}

#[test]
fn what_is_no_node_has_nothing() {
    let xot = Xot::new();
    let ghost = NodeId(3);
    assert!(!xot.has_node(ghost));
    assert_eq!(xot.parent(ghost), None);
    assert_eq!(xot.first_child(ghost), None);
    assert_eq!(xot.last_child(ghost), None);
    assert_eq!(xot.next_sibling(ghost), None);
    assert_eq!(xot.text_str(ghost), None);
    assert_eq!(xot.comment_str(ghost), None);
    assert!(xot.element(ghost).is_none());
    assert!(!xot.is_document(ghost) && !xot.is_element(ghost));
    assert!(!xot.is_text(ghost) && !xot.is_comment(ghost));
}
