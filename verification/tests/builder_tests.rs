use xml_dom::{
    build, build_from_str, BuildError, Document, Event, Namespace, Node, QName, StructureError,
};

fn qn(s: &str) -> QName {
    QName { local_name: s.to_string(), prefix: None, namespace: None }
}

fn start(s: &str) -> Event {
    Event::StartElement { name: qn(s), attributes: Vec::new(), namespace: Namespace { entries: Vec::new() } }
}

fn text(s: &str) -> Event {
    Event::Text { content: s.to_string() }
}

fn structure_kind(r: Result<Document, BuildError>) -> StructureError {
    match r {
        Err(BuildError::Structure { kind }) => kind,
        Err(BuildError::Source { message }) => panic!("source error: {}", message),
        Ok(_) => panic!("build unexpectedly succeeded"),
    }
}

#[test]
fn balanced_events_build_with_one_element_per_start() {
    let events = vec![start("a"), text("hi"), start("b"), Event::EndElement, Event::EndElement];
    let doc = build(&events).unwrap();
    let elements = doc
        .nodes
        .iter()
        .filter(|n| matches!(n, Node::Element(_)))
        .count();
    assert_eq!(elements, 2);
    let root = match &doc.nodes[doc.root] {
        Node::Element(e) => e,
        Node::Text(_) => panic!("root is not an element"),
    };
    assert_eq!(root.name.local_name, "a");
    // children of the root come in document order: the text, then <b>
    assert_eq!(root.children.len(), 2);
    match &doc.nodes[root.children[0]] {
        Node::Text(t) => assert_eq!(t.content, "hi"),
        Node::Element(_) => panic!("first child should be the text"),
    }
    match &doc.nodes[root.children[1]] {
        Node::Element(e) => assert_eq!(e.name.local_name, "b"),
        Node::Text(_) => panic!("second child should be <b>"),
    }
    assert!(root.children[0] < root.children[1]);
}

#[test]
fn pretty_printing_round_trip() {
    let events = vec![start("a"), text("hi"), start("b"), Event::EndElement, Event::EndElement];
    let doc = build(&events).unwrap();
    assert_eq!(doc.to_pretty(), "<a>\n  hi\n  <b>\n  </b>\n</a>\n");
}

#[test]
fn text_parent_is_the_open_element() {
    let events = vec![start("a"), start("b"), text("inner"), Event::EndElement, text("outer"), Event::EndElement];
    let doc = build(&events).unwrap();
    for (i, node) in doc.nodes.iter().enumerate() {
        if let Node::Text(t) = node {
            let p = t.get_parent().expect("a built text leaf has a parent");
            let parent = match &doc.nodes[p] {
                Node::Element(e) => e,
                Node::Text(_) => panic!("parent must be an element"),
            };
            assert!(parent.children.contains(&i));
            let expected = if t.content == "inner" { "b" } else { "a" };
            assert_eq!(parent.name.local_name, expected);
        }
    }
}

#[test]
fn lone_end_event_is_an_unmatched_close() {
    let kind = structure_kind(build(&vec![Event::EndElement]));
    assert_eq!(kind, StructureError::UnmatchedClose);
}

#[test]
fn unterminated_element_fails() {
    let kind = structure_kind(build(&vec![start("a")]));
    assert_eq!(kind, StructureError::UnterminatedElement);
}

#[test]
fn empty_event_sequence_is_an_empty_document() {
    let kind = structure_kind(build(&Vec::new()));
    assert_eq!(kind, StructureError::EmptyDocument);
}

#[test]
fn text_before_any_element_fails() {
    let kind = structure_kind(build(&vec![text("stray")]));
    assert_eq!(kind, StructureError::TextOutsideRoot);
}

#[test]
fn events_after_the_root_closed_fail() {
    let kind = structure_kind(build(&vec![start("a"), Event::EndElement, start("b")]));
    assert_eq!(kind, StructureError::ContentAfterRoot);
    let kind = structure_kind(build(&vec![start("a"), Event::EndElement, Event::EndElement]));
    assert_eq!(kind, StructureError::ContentAfterRoot);
}

#[test]
fn source_errors_propagate_verbatim() {
    let events = vec![start("a"), Event::SourceError { message: "bad token".to_string() }];
    match build(&events) {
        Err(BuildError::Source { message }) => assert_eq!(message, "bad token"),
        _ => panic!("expected the source error back"),
    }
}

#[test]
fn metadata_events_do_not_shape_the_tree() {
    let events = vec![Event::Metadata, start("a"), Event::Metadata, Event::EndElement, Event::Metadata];
    let doc = build(&events).unwrap();
    assert_eq!(doc.nodes.len(), 1);
    assert_eq!(doc.to_pretty(), "<a>\n</a>\n");
}

#[test]
fn adjacent_text_events_stay_separate_leaves() {
    let events = vec![start("a"), text("one"), text("two"), Event::EndElement];
    let doc = build(&events).unwrap();
    let root = match &doc.nodes[doc.root] {
        Node::Element(e) => e,
        Node::Text(_) => panic!("root is not an element"),
    };
    assert_eq!(root.children.len(), 2);
    assert_eq!(doc.to_pretty(), "<a>\n  one\n  two\n</a>\n");
}

#[test]
fn parsing_markup_builds_the_same_tree_as_its_events() {
    let doc = build_from_str("<a>hi<b></b></a>").unwrap();
    let events = vec![start("a"), text("hi"), start("b"), Event::EndElement, Event::EndElement];
    let from_events = build(&events).unwrap();
    assert_eq!(doc.to_pretty(), from_events.to_pretty());
    assert_eq!(doc.to_pretty(), "<a>\n  hi\n  <b>\n  </b>\n</a>\n");
}

#[test]
fn parsing_carries_attributes_and_prefixes_through() {
    let doc = build_from_str("<n:a xmlns:n=\"urn:x\" k=\"v\" w=\"z\"></n:a>").unwrap();
    let root = match &doc.nodes[doc.root] {
        Node::Element(e) => e,
        Node::Text(_) => panic!("root is not an element"),
    };
    assert_eq!(root.name.local_name, "a");
    assert_eq!(root.name.prefix.as_deref(), Some("n"));
    assert_eq!(root.name.namespace.as_deref(), Some("urn:x"));
    assert_eq!(root.attributes.len(), 2);
    assert_eq!(root.attributes[0].name.local_name, "k");
    assert_eq!(root.attributes[0].value, "v");
    assert_eq!(root.attributes[1].name.local_name, "w");
    assert_eq!(root.attributes[1].value, "z");
    assert!(root
        .namespace
        .entries
        .iter()
        .any(|(p, u)| p == "n" && u == "urn:x"));
}

#[test]
fn parsing_malformed_markup_propagates_the_source_error() {
    match build_from_str("<a>") {
        Err(BuildError::Source { message }) => assert!(!message.is_empty()),
        Err(BuildError::Structure { kind }) => panic!("wrong error kind: {:?}", kind),
        Ok(_) => panic!("malformed markup must not build"),
    }
}

#[test]
fn parsing_a_self_closing_child_keeps_document_order() {
    let doc = build_from_str("<a>x<b/>y</a>").unwrap();
    assert_eq!(doc.to_pretty(), "<a>\n  x\n  <b>\n  </b>\n  y\n</a>\n");
}
