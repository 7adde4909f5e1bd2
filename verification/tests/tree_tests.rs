use xml_dom::{
    build, rc_text_new, Element, Event, Namespace, Node, QName, Text, TextIterator,
};

fn qn(s: &str) -> QName {
    QName { local_name: s.to_string(), prefix: None, namespace: None }
}

fn start(s: &str) -> Event {
    Event::StartElement { name: qn(s), attributes: Vec::new(), namespace: Namespace { entries: Vec::new() } }
}

fn text(s: &str) -> Event {
    Event::Text { content: s.to_string() }
}

#[test]
fn element_new_starts_empty_and_add_child_keeps_order() {
    let mut e = Element::new(qn("a"), Vec::new(), Namespace { entries: Vec::new() });
    assert!(e.children.is_empty());
    assert!(e.parent.is_none());
    e.add_child(3);
    e.add_child(7);
    assert_eq!(e.children, vec![3, 7]);
}

#[test]
fn text_new_records_parent_and_content() {
    let t = Text::new(Some(4), "abc".to_string());
    assert_eq!(t.get_parent(), Some(4));
    assert_eq!(t.content, "abc");
    let orphan = Text::new(None, "x".to_string());
    assert_eq!(orphan.get_parent(), None);
}

#[test]
fn text_format_pretty_indents_and_ends_the_line() {
    let t = Text::new(None, "hi".to_string());
    let mut out = String::new();
    t.format_pretty(&mut out, 4, 2);
    assert_eq!(out, "    hi\n");
}

#[test]
fn rc_text_new_keeps_the_leaf() {
    let rc = rc_text_new(Text::new(Some(1), "shared".to_string()));
    assert_eq!(rc.content, "shared");
    assert_eq!(rc.get_parent(), Some(1));
}

#[test]
fn text_iterator_yields_text_children_in_order_then_stays_empty() {
    // <a>x<b>skipped</b>y</a>: the root's children are [x, <b>, y]
    let events = vec![
        start("a"),
        text("x"),
        start("b"),
        text("skipped"),
        Event::EndElement,
        text("y"),
        Event::EndElement,
    ];
    let doc = build(&events).unwrap();
    let root_children = match &doc.nodes[doc.root] {
        Node::Element(e) => &e.children,
        Node::Text(_) => panic!("root is not an element"),
    };
    let mut it = TextIterator::new(&doc, root_children);
    let first = it.next().expect("first text leaf");
    let second = it.next().expect("second text leaf");
    match (&doc.nodes[first], &doc.nodes[second]) {
        (Node::Text(x), Node::Text(y)) => {
            assert_eq!(x.content, "x");
            assert_eq!(y.content, "y");
        },
        _ => panic!("the iterator must yield text leaves"),
    }
    // it skips the element child and recurses into nothing
    assert_eq!(it.next(), None);
    // exhausted for good: a fresh iterator is needed to go again
    assert_eq!(it.next(), None);
    let mut again = TextIterator::new(&doc, root_children);
    assert!(again.next().is_some());
}

#[test]
fn text_iterator_over_childless_sequence_is_empty() {
    let events = vec![start("a"), Event::EndElement];
    let doc = build(&events).unwrap();
    let root_children = match &doc.nodes[doc.root] {
        Node::Element(e) => &e.children,
        Node::Text(_) => panic!("root is not an element"),
    };
    let mut it = TextIterator::new(&doc, root_children);
    assert_eq!(it.next(), None);
}

#[test]
fn duplicate_copies_a_qualified_name() {
    let q = QName {
        local_name: "item".to_string(),
        prefix: Some("ns".to_string()),
        namespace: Some("urn:y".to_string()),
    };
    let d = q.duplicate();
    assert_eq!(d.local_name, q.local_name);
    assert_eq!(d.prefix, q.prefix);
    assert_eq!(d.namespace, q.namespace);
}

#[test]
fn format_node_accepts_a_base_offset_and_increment() {
    let events = vec![start("a"), text("t"), Event::EndElement];
    let doc = build(&events).unwrap();
    let mut out = String::new();
    doc.format_node(doc.root, &mut out, 1, 3);
    assert_eq!(out, " <a>\n    t\n </a>\n");
}
