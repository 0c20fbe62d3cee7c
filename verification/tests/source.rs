use xot::{QualifiedName, SourceData, SourceDom, SourceNode};

#[test]
fn new_dom_is_an_empty_document() {
    let dom = SourceDom::new();
    assert_eq!(dom.len(), 1);
    assert!(matches!(dom.nodes[0].data, SourceData::Document));
    assert!(dom.nodes[0].children.is_empty());
    assert!(dom.is_well_formed());
}

#[test]
fn push_and_add_child_build_the_table() {
    let mut dom = SourceDom::new();
    let name = QualifiedName { ns: String::new(), local: "e".to_string() };
    let element = dom.push(SourceData::Element(name, Vec::new()));
    let text = dom.push(SourceData::Text("t".to_string()));
    assert_eq!(element, 1);
    assert_eq!(text, 2);
    assert!(dom.nodes[1].children.is_empty());
    assert!(dom.add_child(0, element));
    assert!(dom.add_child(element, text));
    assert!(dom.add_child(element, text));
    assert_eq!(dom.nodes[0].children, vec![1]);
    assert_eq!(dom.nodes[1].children, vec![2, 2]);
    assert!(dom.is_well_formed());
}

#[test]
fn add_child_refuses_leaves_and_unknown_positions() {
    let mut dom = SourceDom::new();
    let text = dom.push(SourceData::Text("t".to_string()));
    let comment = dom.push(SourceData::Comment("c".to_string()));
    let doctype = dom.push(SourceData::Doctype);
    let pi = dom.push(SourceData::ProcessingInstruction);
    assert!(!dom.add_child(text, comment));
    assert!(!dom.add_child(comment, text));
    assert!(!dom.add_child(doctype, text));
    assert!(!dom.add_child(pi, text));
    assert!(!dom.add_child(0, 5));
    assert!(!dom.add_child(5, 0));
    for node in dom.nodes.iter() {
        assert!(node.children.is_empty());
    }
    assert!(dom.is_well_formed());
}

#[test]
fn is_well_formed_finds_what_is_wrong() {
    let empty = SourceDom { nodes: Vec::new() };
    assert!(!empty.is_well_formed());

    let dangling = SourceDom {
        nodes: vec![SourceNode { data: SourceData::Document, children: vec![1] }],
    };
    assert!(!dangling.is_well_formed());

    let text_with_child = SourceDom {
        nodes: vec![
            SourceNode { data: SourceData::Document, children: vec![1] },
            SourceNode { data: SourceData::Text("t".to_string()), children: vec![0] },
        ],
    };
    assert!(!text_with_child.is_well_formed());

    let cyclic = SourceDom {
        nodes: vec![SourceNode { data: SourceData::Document, children: vec![0, 0] }],
    };
    assert!(cyclic.is_well_formed());
}
