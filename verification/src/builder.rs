//! The builder: a one-pass state machine that turns an ordered sequence of
//! parse events into one [`Document`].
//!
//! The machine keeps an explicit stack of the arena indices of the
//! currently open elements. A start event pushes a fresh element, a text
//! event attaches a new leaf to the top of the stack, and an end event
//! pops the top and either attaches it to the new top or, when the stack
//! empties, makes it the document's root. Once a root exists the machine
//! is done and accepts nothing further but metadata.

use vstd::prelude::*;

use crate::dom::text::{Text, TextV};
use crate::dom::{
    children_of, nodes_wf, parent_of, wf, wf_children_at, wf_text_at, Attribute, AttributeV,
    Document, DocumentV, Element, ElementV, Namespace, Node, NodeV, QName, QNameV,
};

verus! {

/// One typed parse event, as the external event source hands them over.
pub enum Event {
    /// An element opens, with its qualified name, its ordered attribute
    /// list, and the namespace mapping in scope at that point.
    StartElement { name: QName, attributes: Vec<Attribute>, namespace: Namespace },
    /// The most recently opened element closes.
    EndElement,
    /// Character data inside the currently open element.
    Text { content: String },
    /// Informational metadata (document version, encoding, comments and
    /// the like); it does not shape the tree and is ignored.
    Metadata,
    /// The event source itself reported malformed input; the message is
    /// carried verbatim and aborts the build.
    SourceError { message: String },
}

/// The mathematical value of an [`Event`].
#[verifier::ext_equal]
pub enum EventV {
    StartElement {
        name: QNameV,
        attributes: Seq<AttributeV>,
        namespace: Seq<(Seq<char>, Seq<char>)>,
    },
    EndElement,
    Text { content: Seq<char> },
    Metadata,
    SourceError { message: Seq<char> },
}

impl DeepView for Event {
    type V = EventV;

    open spec fn deep_view(&self) -> EventV {
        match self {
            Event::StartElement { name, attributes, namespace } => EventV::StartElement {
                name: name.deep_view(),
                attributes: attributes.deep_view(),
                namespace: namespace.deep_view(),
            },
            Event::EndElement => EventV::EndElement,
            Event::Text { content } => EventV::Text { content: content@ },
            Event::Metadata => EventV::Metadata,
            Event::SourceError { message } => EventV::SourceError { message: message@ },
        }
    }
}

/// How an event sequence can violate the builder's stack discipline.
#[derive(Clone, Copy, PartialEq, Eq, Structural, Debug)]
pub enum StructureError {
    /// An end event arrived while no element was open and no root existed.
    UnmatchedClose,
    /// A text event arrived before any element was opened.
    TextOutsideRoot,
    /// The event sequence ended while at least one element was still open.
    UnterminatedElement,
    /// The event sequence ended without ever opening an element.
    EmptyDocument,
    /// A start, end or text event arrived after the root element had
    /// already been closed.
    ContentAfterRoot,
}

/// Why a build failed. A failed build never exposes a partial tree.
#[derive(Debug)]
pub enum BuildError {
    /// The event source reported malformed input; its message is passed
    /// through verbatim.
    Source { message: String },
    /// The event sequence violated the stack discipline.
    Structure { kind: StructureError },
}

/// The mathematical value of a [`BuildError`].
#[verifier::ext_equal]
pub enum BuildErrorV {
    Source { message: Seq<char> },
    Structure { kind: StructureError },
}

impl DeepView for BuildError {
    type V = BuildErrorV;

    open spec fn deep_view(&self) -> BuildErrorV {
        match self {
            BuildError::Source { message } => BuildErrorV::Source { message: message@ },
            BuildError::Structure { kind } => BuildErrorV::Structure { kind: *kind },
        }
    }
}

/// The builder's state between two events: the arena grown so far, the
/// stack of open element indices (innermost last), and the root index
/// once the root element has closed.
#[verifier::ext_equal]
pub struct BuilderStateV {
    pub nodes: Seq<NodeV>,
    pub stack: Seq<usize>,
    pub root: Option<usize>,
}

/// The state before any event: no nodes, nothing open, no root.
pub open spec fn init_state() -> BuilderStateV {
    BuilderStateV { nodes: Seq::empty(), stack: Seq::empty(), root: None }
}

/// Appends child index `c` to the children of the element at `p`; leaves
/// the arena unchanged when `p` does not hold an element.
pub open spec fn attach(nodes: Seq<NodeV>, p: int, c: usize) -> Seq<NodeV> {
    if 0 <= p < nodes.len() && nodes[p] is Element {
        let e = nodes[p]->Element_0;
        nodes.update(
            p,
            NodeV::Element(
                ElementV {
                    name: e.name,
                    attributes: e.attributes,
                    namespace: e.namespace,
                    parent: e.parent,
                    children: e.children.push(c),
                },
            ),
        )
    } else {
        nodes
    }
}

/// One transition of the builder: the current state and the next event
/// give either the next state or the error that aborts the build.
pub open spec fn step(st: BuilderStateV, ev: EventV) -> Result<BuilderStateV, BuildErrorV> {
    match ev {
        EventV::Metadata => Ok(st),
        EventV::SourceError { message } => Err(BuildErrorV::Source { message }),
        EventV::StartElement { name, attributes, namespace } => {
            if st.root is Some {
                Err(BuildErrorV::Structure { kind: StructureError::ContentAfterRoot })
            } else {
                let parent = if st.stack.len() > 0 {
                    Some(st.stack.last())
                } else {
                    None
                };
                let e = ElementV { name, attributes, namespace, parent, children: Seq::empty() };
                Ok(
                    BuilderStateV {
                        nodes: st.nodes.push(NodeV::Element(e)),
                        stack: st.stack.push(st.nodes.len() as usize),
                        root: st.root,
                    },
                )
            }
        },
        EventV::Text { content } => {
            if st.root is Some {
                Err(BuildErrorV::Structure { kind: StructureError::ContentAfterRoot })
            } else if st.stack.len() == 0 {
                Err(BuildErrorV::Structure { kind: StructureError::TextOutsideRoot })
            } else {
                let p = st.stack.last();
                let idx = st.nodes.len() as usize;
                let grown = st.nodes.push(NodeV::Text(TextV { parent: Some(p), content }));
                Ok(
                    BuilderStateV {
                        nodes: attach(grown, p as int, idx),
                        stack: st.stack,
                        root: st.root,
                    },
                )
            }
        },
        EventV::EndElement => {
            if st.root is Some {
                Err(BuildErrorV::Structure { kind: StructureError::ContentAfterRoot })
            } else if st.stack.len() == 0 {
                Err(BuildErrorV::Structure { kind: StructureError::UnmatchedClose })
            } else {
                let closed = st.stack.last();
                let rest = st.stack.drop_last();
                if rest.len() > 0 {
                    Ok(
                        BuilderStateV {
                            nodes: attach(st.nodes, rest.last() as int, closed),
                            stack: rest,
                            root: st.root,
                        },
                    )
                } else {
                    Ok(BuilderStateV { nodes: st.nodes, stack: rest, root: Some(closed) })
                }
            }
        },
    }
}

/// Runs the machine over `evs[i..]` starting from `st`: the result of
/// folding [`step`] over the remaining events, stopping at the first
/// error.
pub open spec fn run_from(st: BuilderStateV, evs: Seq<EventV>, i: int) -> Result<
    BuilderStateV,
    BuildErrorV,
>
    decreases evs.len() - i,
{
    if i < 0 || i >= evs.len() {
        Ok(st)
    } else {
        match step(st, evs[i]) {
            Ok(st2) => run_from(st2, evs, i + 1),
            Err(e) => Err(e),
        }
    }
}

/// What building from a whole event sequence yields: the document when
/// the machine ends with a closed root, and otherwise exactly the error
/// the transition table prescribes.
pub open spec fn build_model(evs: Seq<EventV>) -> Result<DocumentV, BuildErrorV> {
    match run_from(init_state(), evs, 0) {
        Ok(st) => {
            if st.stack.len() > 0 {
                Err(BuildErrorV::Structure { kind: StructureError::UnterminatedElement })
            } else {
                match st.root {
                    Some(r) => Ok(DocumentV { nodes: st.nodes, root: r }),
                    None => Err(BuildErrorV::Structure { kind: StructureError::EmptyDocument }),
                }
            }
        },
        Err(e) => Err(e),
    }
}

/// The view of the builder's executable state.
pub open spec fn state_v(nodes: Seq<NodeV>, stack: Seq<usize>, root: Option<usize>) -> BuilderStateV {
    BuilderStateV { nodes, stack, root }
}

/// Copies an optional string, preserving its value.
fn clone_opt_string(o: &Option<String>) -> (r: Option<String>)
    ensures
        r.deep_view() == o.deep_view(),
{
    match o {
        Option::Some(s) => Option::Some(s.clone()),
        Option::None => Option::None,
    }
}

impl QName {
    /// Copies the qualified name, preserving its value.
    pub fn duplicate(&self) -> (r: QName)
        ensures
            r.deep_view() == self.deep_view(),
    {
        QName {
            local_name: self.local_name.clone(),
            prefix: clone_opt_string(&self.prefix),
            namespace: clone_opt_string(&self.namespace),
        }
    }
}

/// Copies an attribute list, preserving its value.
fn clone_attributes(a: &Vec<Attribute>) -> (r: Vec<Attribute>)
    ensures
        r.deep_view() == a.deep_view(),
{
    let mut r: Vec<Attribute> = Vec::new();
    let mut i: usize = 0;
    while i < a.len()
        invariant
            i <= a@.len(),
            r.deep_view() =~= a.deep_view().subrange(0, i as int),
        decreases a@.len() - i,
    {
        let at = &a[i];
        r.push(Attribute { name: at.name.duplicate(), value: at.value.clone() });
        proof {
            let dv = a.deep_view();
            assert(r.deep_view() =~~= dv.subrange(0, i + 1)) by {
                assert(dv.subrange(0, i + 1) =~= dv.subrange(0, i as int).push(dv[i as int]));
                assert(r@.last().deep_view() =~~= dv[i as int]);
            }
        }
        i += 1;
    }
    proof {
        assert(a.deep_view().subrange(0, a@.len() as int) =~= a.deep_view());
    }
    r
}

/// Copies a namespace snapshot, preserving its value.
fn clone_namespace(n: &Namespace) -> (r: Namespace)
    ensures
        r.deep_view() == n.deep_view(),
{
    let mut entries: Vec<(String, String)> = Vec::new();
    let mut i: usize = 0;
    while i < n.entries.len()
        invariant
            i <= n.entries@.len(),
            entries.deep_view() =~= n.entries.deep_view().subrange(0, i as int),
        decreases n.entries@.len() - i,
    {
        let e = &n.entries[i];
        entries.push((e.0.clone(), e.1.clone()));
        proof {
            let dv = n.entries.deep_view();
            assert(entries.deep_view() =~~= dv.subrange(0, i + 1)) by {
                assert(dv.subrange(0, i + 1) =~= dv.subrange(0, i as int).push(dv[i as int]));
                assert(entries@.last().deep_view() =~~= dv[i as int]);
            }
        }
        i += 1;
    }
    proof {
        assert(n.entries.deep_view().subrange(0, n.entries@.len() as int) =~= n.entries.deep_view());
    }
    Namespace { entries }
}

/// Appends `c` to the children of the element at `p`, through
/// [`Element::add_child`]; does nothing when `p` holds a text leaf, to
/// mirror [`attach`].
fn attach_child(nodes: &mut Vec<Node>, p: usize, c: usize)
    requires
        p < old(nodes)@.len(),
    ensures
        final(nodes).deep_view() == attach(old(nodes).deep_view(), p as int, c),
{
    let ghost pre = nodes.deep_view();
    match &mut nodes[p] {
        Node::Element(e) => {
            e.add_child(c);
        },
        Node::Text(_) => {},
    }
    proof {
        assert(nodes.deep_view() =~~= attach(pre, p as int, c));
    }
}

/// Builds a document from an ordered event sequence.
///
/// The result is exactly what the builder's transition table prescribes:
/// the tree whose arena grows node by node in event order when the
/// sequence is well formed, and otherwise the first error the table
/// reaches — the source's own message verbatim, or the structural fault.
pub fn build(events: &Vec<Event>) -> (r: Result<Document, BuildError>)
    ensures
        r is Ok ==> build_model(events.deep_view()) == Ok::<DocumentV, BuildErrorV>(
            r->Ok_0.deep_view(),
        ),
        r is Err ==> build_model(events.deep_view()) == Err::<DocumentV, BuildErrorV>(
            r->Err_0.deep_view(),
        ),
        r is Ok ==> wf(r->Ok_0.deep_view()),
{
    let ghost evs = events.deep_view();
    let mut nodes: Vec<Node> = Vec::new();
    let mut stack: Vec<usize> = Vec::new();
    let mut root: Option<usize> = None;
    let mut i: usize = 0;
    proof {
        assert(state_v(nodes.deep_view(), stack@, root) =~~= init_state());
    }
    while i < events.len()
        invariant
            i <= evs.len(),
            evs == events.deep_view(),
            run_from(init_state(), evs, 0) == run_from(
                state_v(nodes.deep_view(), stack@, root),
                evs,
                i as int,
            ),
            forall|k: int| 0 <= k < stack@.len() ==> (#[trigger] stack@[k]) < nodes@.len(),
        decreases evs.len() - i,
    {
        let ghost st = state_v(nodes.deep_view(), stack@, root);
        proof {
            assert(evs[i as int] == events@[i as int].deep_view());
        }
        match &events[i] {
            Event::Metadata => {},
            Event::SourceError { message } => {
                return Err(BuildError::Source { message: message.clone() });
            },
            Event::StartElement { name, attributes, namespace } => {
                if root.is_some() {
                    return Err(
                        BuildError::Structure { kind: StructureError::ContentAfterRoot },
                    );
                }
                let idx = nodes.len();
                let mut el = Element::new(
                    name.duplicate(),
                    clone_attributes(attributes),
                    clone_namespace(namespace),
                );
                if stack.len() > 0 {
                    el.parent = Some(stack[stack.len() - 1]);
                }
                nodes.push(Node::Element(el));
                stack.push(idx);
                proof {
                    assert(nodes.deep_view() =~~= st.nodes.push(
                        NodeV::Element(step_start_element(st, evs[i as int])),
                    ));
                    assert(stack@ =~= st.stack.push(st.nodes.len() as usize));
                    assert(step(st, evs[i as int]) == Ok::<BuilderStateV, BuildErrorV>(
                        state_v(nodes.deep_view(), stack@, root),
                    ));
                }
            },
            Event::Text { content } => {
                if root.is_some() {
                    return Err(
                        BuildError::Structure { kind: StructureError::ContentAfterRoot },
                    );
                }
                if stack.len() == 0 {
                    return Err(
                        BuildError::Structure { kind: StructureError::TextOutsideRoot },
                    );
                }
                let p = stack[stack.len() - 1];
                let idx = nodes.len();
                nodes.push(Node::Text(Text::new(Some(p), content.clone())));
                proof {
                    assert(nodes.deep_view() =~~= st.nodes.push(
                        NodeV::Text(TextV { parent: Some(p), content: content@ }),
                    ));
                }
                attach_child(&mut nodes, p, idx);
                proof {
                    assert(step(st, evs[i as int]) == Ok::<BuilderStateV, BuildErrorV>(
                        state_v(nodes.deep_view(), stack@, root),
                    ));
                }
            },
            Event::EndElement => {
                if root.is_some() {
                    return Err(
                        BuildError::Structure { kind: StructureError::ContentAfterRoot },
                    );
                }
                if stack.len() == 0 {
                    return Err(
                        BuildError::Structure { kind: StructureError::UnmatchedClose },
                    );
                }
                let closed = stack.pop().unwrap();
                proof {
                    assert(stack@ =~= st.stack.drop_last());
                }
                if stack.len() > 0 {
                    let p = stack[stack.len() - 1];
                    attach_child(&mut nodes, p, closed);
                } else {
                    root = Some(closed);
                }
                proof {
                    assert(step(st, evs[i as int]) == Ok::<BuilderStateV, BuildErrorV>(
                        state_v(nodes.deep_view(), stack@, root),
                    ));
                }
            },
        }
        i += 1;
    }
    if stack.len() > 0 {
        return Err(BuildError::Structure { kind: StructureError::UnterminatedElement });
    }
    match root {
        Some(r) => {
            let doc = Document { nodes, root: r };
            proof {
                assert(build_model(evs) == Ok::<DocumentV, BuildErrorV>(doc.deep_view()));
                assert(evs.len() <= usize::MAX);
                lemma_build_model_wf(evs);
            }
            Ok(doc)
        },
        None => Err(BuildError::Structure { kind: StructureError::EmptyDocument }),
    }
}

/// Everything that holds of the builder's state between any two events:
/// the arena is well formed so far, the stack names element nodes in
/// strictly increasing index order, each open element's parent is the one
/// below it on the stack (the bottom one has none), an open element's
/// children all precede the element open directly above it, and once a
/// root exists the stack is empty and the root is a parentless element.
pub open spec fn st_inv(st: BuilderStateV) -> bool {
    &&& nodes_wf(st.nodes)
    &&& forall|k: int|
        0 <= k < st.stack.len() ==> (#[trigger] st.stack[k]) < st.nodes.len()
            && st.nodes[st.stack[k] as int] is Element
    &&& forall|k1: int, k2: int| 0 <= k1 < k2 < st.stack.len() ==> st.stack[k1] < st.stack[k2]
    &&& st.stack.len() > 0 ==> st.nodes[st.stack[0] as int]->Element_0.parent is None
    &&& forall|k: int|
        1 <= k < st.stack.len() ==> st.nodes[#[trigger] st.stack[k] as int]->Element_0.parent
            == Some(st.stack[k - 1])
    &&& forall|k: int, j: int|
        0 <= k < st.stack.len() - 1 && 0 <= j < children_of(st.nodes, st.stack[k] as int).len()
            ==> #[trigger] children_of(st.nodes, st.stack[k] as int)[j] < st.stack[k + 1]
    &&& st.root is Some ==> st.stack.len() == 0 && st.root->0 < st.nodes.len()
        && st.nodes[st.root->0 as int] is Element
        && st.nodes[st.root->0 as int]->Element_0.parent is None
}

/// One transition keeps the builder's state invariant.
proof fn lemma_step_preserves_inv(st: BuilderStateV, ev: EventV)
    requires
        st_inv(st),
        st.nodes.len() < usize::MAX,
        step(st, ev) is Ok,
    ensures
        st_inv(step(st, ev)->Ok_0),
{
    let st2 = step(st, ev)->Ok_0;
    match ev {
        EventV::Metadata => {},
        EventV::SourceError { .. } => {},
        EventV::StartElement { name, attributes, namespace } => {
            let idx = st.nodes.len() as usize;
            assert forall|i: int| 0 <= i < st2.nodes.len() implies #[trigger] wf_children_at(
                st2.nodes,
                i,
            ) by {
                if i < st.nodes.len() {
                    assert(wf_children_at(st.nodes, i));
                    assert(children_of(st2.nodes, i) == children_of(st.nodes, i));
                    assert forall|k: int|
                        0 <= k < children_of(st2.nodes, i).len() implies i < (
                        #[trigger] children_of(st2.nodes, i)[k]) < st2.nodes.len() && parent_of(
                        st2.nodes,
                        children_of(st2.nodes, i)[k] as int,
                    ) == Some(i as usize) by {
                        assert(children_of(st.nodes, i)[k] < st.nodes.len());
                    }
                } else {
                    assert(children_of(st2.nodes, i) =~= Seq::<usize>::empty());
                }
            }
            assert forall|i: int| 0 <= i < st2.nodes.len() implies #[trigger] wf_text_at(
                st2.nodes,
                i,
            ) by {
                if i < st.nodes.len() {
                    assert(wf_text_at(st.nodes, i));
                    if st2.nodes[i] is Text {
                        let q = st2.nodes[i]->Text_0.parent;
                        assert(st2.nodes[i] == st.nodes[i]);
                        assert(children_of(st2.nodes, q->0 as int) == children_of(
                            st.nodes,
                            q->0 as int,
                        ));
                    }
                }
            }
            assert forall|k: int| 0 <= k < st2.stack.len() implies (#[trigger] st2.stack[k])
                < st2.nodes.len() && st2.nodes[st2.stack[k] as int] is Element by {
                if k < st.stack.len() {
                    assert(st2.stack[k] == st.stack[k]);
                    assert(st2.nodes[st.stack[k] as int] == st.nodes[st.stack[k] as int]);
                } else {
                    assert(st2.stack[k] == idx);
                }
            }
            assert forall|k: int|
                1 <= k < st2.stack.len() implies st2.nodes[
                #[trigger] st2.stack[k] as int]->Element_0.parent == Some(st2.stack[k - 1]) by {
                if k < st.stack.len() {
                    assert(st2.nodes[st.stack[k] as int] == st.nodes[st.stack[k] as int]);
                }
            }
            assert forall|k: int, j: int|
                0 <= k < st2.stack.len() - 1 && 0 <= j < children_of(
                    st2.nodes,
                    st2.stack[k] as int,
                ).len() implies #[trigger] children_of(st2.nodes, st2.stack[k] as int)[j]
                < st2.stack[k + 1] by {
                assert(st2.stack[k] == st.stack[k]);
                assert(children_of(st2.nodes, st.stack[k] as int) == children_of(
                    st.nodes,
                    st.stack[k] as int,
                ));
                assert(wf_children_at(st.nodes, st.stack[k] as int));
                if k == st.stack.len() - 1 {
                    assert(children_of(st.nodes, st.stack[k] as int)[j] < st.nodes.len());
                }
            }
        },
        EventV::Text { content } => {
            let p = st.stack.last();
            let idx = st.nodes.len() as usize;
            let grown = st.nodes.push(NodeV::Text(TextV { parent: Some(p), content }));
            lemma_attach_grown_inv(st, content, p, idx);
        },
        EventV::EndElement => {
            let closed = st.stack.last();
            let rest = st.stack.drop_last();
            if rest.len() > 0 {
                lemma_attach_close_inv(st, rest.last(), closed);
            } else {
                assert(st.stack[0] == closed);
            }
        },
    }
}

/// Node-local well-formedness at `i` survives growing the arena by one
/// text leaf at `idx` recorded as a child of the open element `p`.
proof fn lemma_grown_node_facts(st: BuilderStateV, content: Seq<char>, p: usize, idx: usize, i: int)
    requires
        st_inv(st),
        st.nodes.len() < usize::MAX,
        st.root is None,
        st.stack.len() > 0,
        p == st.stack.last(),
        idx == st.nodes.len(),
        0 <= i < attach(
            st.nodes.push(NodeV::Text(TextV { parent: Some(p), content })),
            p as int,
            idx,
        ).len(),
    ensures
        wf_children_at(
            attach(st.nodes.push(NodeV::Text(TextV { parent: Some(p), content })), p as int, idx),
            i,
        ),
        wf_text_at(
            attach(st.nodes.push(NodeV::Text(TextV { parent: Some(p), content })), p as int, idx),
            i,
        ),
{
    let grown = st.nodes.push(NodeV::Text(TextV { parent: Some(p), content }));
    let nodes2 = attach(grown, p as int, idx);
    assert(st.nodes[p as int] is Element);
    assert(grown[p as int] == st.nodes[p as int]);
    assert(nodes2.len() == st.nodes.len() + 1);
    assert(children_of(nodes2, p as int) =~= children_of(st.nodes, p as int).push(idx));
    assert(nodes2[idx as int] == grown[idx as int]);
    if i < st.nodes.len() {
        assert(wf_children_at(st.nodes, i));
        assert(wf_text_at(st.nodes, i));
        if i != p {
            assert(children_of(nodes2, i) == children_of(st.nodes, i));
            assert(nodes2[i] == st.nodes[i]);
        }
        assert forall|k: int|
            0 <= k < children_of(nodes2, i).len() implies i < (
            #[trigger] children_of(nodes2, i)[k]) < nodes2.len() && parent_of(
            nodes2,
            children_of(nodes2, i)[k] as int,
        ) == Some(i as usize) by {
            let c = children_of(nodes2, i)[k];
            if i == p && k == children_of(nodes2, i).len() - 1 {
                assert(c == idx);
                assert(parent_of(nodes2, idx as int) == Some(p));
            } else {
                assert(children_of(st.nodes, i)[k] == c);
                assert(c < st.nodes.len());
                assert(parent_of(nodes2, c as int) == parent_of(st.nodes, c as int));
            }
        }
        if i == p {
            assert forall|k1: int, k2: int|
                0 <= k1 < k2 < children_of(nodes2, i).len() implies children_of(nodes2, i)[k1]
                < children_of(nodes2, i)[k2] by {
                if k2 == children_of(nodes2, i).len() - 1 {
                    assert(children_of(nodes2, i)[k1] == children_of(st.nodes, i)[k1]);
                    assert(children_of(st.nodes, i)[k1] < st.nodes.len());
                }
            }
        }
        if nodes2[i] is Text {
            let q = nodes2[i]->Text_0.parent;
            assert(nodes2[i] == st.nodes[i]);
            if q->0 == p {
                assert(children_of(st.nodes, p as int).contains(i as usize));
                let w = choose|w: int|
                    0 <= w < children_of(st.nodes, p as int).len() && children_of(
                        st.nodes,
                        p as int,
                    )[w] == i as usize;
                assert(children_of(nodes2, p as int)[w] == i as usize);
                assert(children_of(nodes2, q->0 as int).contains(i as usize));
            } else {
                assert(children_of(nodes2, q->0 as int) == children_of(st.nodes, q->0 as int));
            }
        }
    } else {
        assert(i == idx);
        assert(nodes2[i] is Text);
        assert(children_of(nodes2, i) =~= Seq::<usize>::empty());
        assert(children_of(nodes2, p as int).last() == idx);
        assert(children_of(nodes2, p as int).contains(idx));
    }
}

/// Growing the arena by one text leaf at `idx` and recording it as a
/// child of the open element `p` (the stack's top) keeps the invariant.
proof fn lemma_attach_grown_inv(st: BuilderStateV, content: Seq<char>, p: usize, idx: usize)
    requires
        st_inv(st),
        st.nodes.len() < usize::MAX,
        st.root is None,
        st.stack.len() > 0,
        p == st.stack.last(),
        idx == st.nodes.len(),
    ensures
        st_inv(
            BuilderStateV {
                nodes: attach(
                    st.nodes.push(NodeV::Text(TextV { parent: Some(p), content })),
                    p as int,
                    idx,
                ),
                stack: st.stack,
                root: st.root,
            },
        ),
{
    let grown = st.nodes.push(NodeV::Text(TextV { parent: Some(p), content }));
    let nodes2 = attach(grown, p as int, idx);
    assert(st.nodes[p as int] is Element);
    assert(grown[p as int] == st.nodes[p as int]);
    assert(nodes2.len() == st.nodes.len() + 1);
    assert(children_of(nodes2, p as int) =~= children_of(st.nodes, p as int).push(idx));
    assert forall|i: int| 0 <= i < nodes2.len() implies #[trigger] wf_children_at(nodes2, i) by {
        lemma_grown_node_facts(st, content, p, idx, i);
    }
    assert forall|i: int| 0 <= i < nodes2.len() implies #[trigger] wf_text_at(nodes2, i) by {
        lemma_grown_node_facts(st, content, p, idx, i);
    }
    assert forall|k: int| 0 <= k < st.stack.len() implies (#[trigger] st.stack[k]) < nodes2.len()
        && nodes2[st.stack[k] as int] is Element by {}
    assert forall|k: int|
        1 <= k < st.stack.len() implies nodes2[
        #[trigger] st.stack[k] as int]->Element_0.parent == Some(st.stack[k - 1]) by {
        assert(nodes2[st.stack[k] as int]->Element_0.parent == st.nodes[
            st.stack[k] as int]->Element_0.parent);
    }
    assert(nodes2[st.stack[0] as int]->Element_0.parent is None);
    assert forall|k: int, j: int|
        0 <= k < st.stack.len() - 1 && 0 <= j < children_of(nodes2, st.stack[k] as int).len()
            implies #[trigger] children_of(nodes2, st.stack[k] as int)[j] < st.stack[k + 1] by {
        assert(st.stack[k] < st.stack[st.stack.len() - 1]);
        assert(st.stack[k] != p);
        assert(children_of(nodes2, st.stack[k] as int) == children_of(
            st.nodes,
            st.stack[k] as int,
        ));
    }
}

/// Node-local well-formedness at `i` survives recording the closed
/// element as a child of the element at `p`.
proof fn lemma_close_node_facts(st: BuilderStateV, p: usize, closed: usize, i: int)
    requires
        st_inv(st),
        st.root is None,
        st.stack.len() >= 2,
        closed == st.stack.last(),
        p == st.stack.drop_last().last(),
        0 <= i < attach(st.nodes, p as int, closed).len(),
    ensures
        wf_children_at(attach(st.nodes, p as int, closed), i),
        wf_text_at(attach(st.nodes, p as int, closed), i),
{
    let nodes2 = attach(st.nodes, p as int, closed);
    let kp = st.stack.len() - 2;
    assert(st.stack[kp] == p && st.stack[kp + 1] == closed);
    assert(p < closed < st.nodes.len());
    assert(st.nodes[p as int] is Element);
    assert(nodes2.len() == st.nodes.len());
    assert(children_of(nodes2, p as int) =~= children_of(st.nodes, p as int).push(closed));
    assert(st.nodes[closed as int]->Element_0.parent == Some(st.stack[kp + 1 - 1]));
    // every earlier child of `p` precedes `closed`
    assert(forall|j: int|
        0 <= j < children_of(st.nodes, p as int).len()
            ==> #[trigger] children_of(st.nodes, p as int)[j] < closed);
    assert(wf_children_at(st.nodes, i));
    assert(wf_text_at(st.nodes, i));
    if i != p {
        assert(children_of(nodes2, i) == children_of(st.nodes, i));
        assert(nodes2[i] == st.nodes[i]);
    }
    assert forall|k: int|
        0 <= k < children_of(nodes2, i).len() implies i < (
        #[trigger] children_of(nodes2, i)[k]) < nodes2.len() && parent_of(
        nodes2,
        children_of(nodes2, i)[k] as int,
    ) == Some(i as usize) by {
        let c = children_of(nodes2, i)[k];
        if i == p && k == children_of(nodes2, i).len() - 1 {
            assert(c == closed);
            assert(parent_of(nodes2, c as int) == parent_of(st.nodes, c as int));
        } else {
            assert(children_of(st.nodes, i)[k] == c);
            assert(parent_of(nodes2, c as int) == parent_of(st.nodes, c as int));
        }
    }
    if i == p {
        assert forall|k1: int, k2: int|
            0 <= k1 < k2 < children_of(nodes2, i).len() implies children_of(nodes2, i)[k1]
            < children_of(nodes2, i)[k2] by {
            if k2 == children_of(nodes2, i).len() - 1 {
                assert(children_of(nodes2, i)[k1] == children_of(st.nodes, i)[k1]);
                assert(children_of(st.nodes, i)[k1] < closed);
            }
        }
    }
    if nodes2[i] is Text {
        let q = nodes2[i]->Text_0.parent;
        assert(nodes2[i] == st.nodes[i]);
        if q->0 == p {
            assert(children_of(st.nodes, p as int).contains(i as usize));
            let w = choose|w: int|
                0 <= w < children_of(st.nodes, p as int).len() && children_of(
                    st.nodes,
                    p as int,
                )[w] == i as usize;
            assert(children_of(nodes2, p as int)[w] == i as usize);
            assert(children_of(nodes2, q->0 as int).contains(i as usize));
        } else {
            assert(children_of(nodes2, q->0 as int) == children_of(st.nodes, q->0 as int));
        }
    }
}

/// Recording the closed element (the popped stack top) as a child of the
/// element open directly below it keeps the invariant.
proof fn lemma_attach_close_inv(st: BuilderStateV, p: usize, closed: usize)
    requires
        st_inv(st),
        st.root is None,
        st.stack.len() >= 2,
        closed == st.stack.last(),
        p == st.stack.drop_last().last(),
    ensures
        st_inv(
            BuilderStateV {
                nodes: attach(st.nodes, p as int, closed),
                stack: st.stack.drop_last(),
                root: st.root,
            },
        ),
{
    let rest = st.stack.drop_last();
    let nodes2 = attach(st.nodes, p as int, closed);
    let kp = st.stack.len() - 2;
    assert(st.stack[kp] == p && st.stack[kp + 1] == closed);
    assert(p < closed < st.nodes.len());
    assert(st.nodes[p as int] is Element);
    assert(nodes2.len() == st.nodes.len());
    assert forall|i: int| 0 <= i < nodes2.len() implies #[trigger] wf_children_at(nodes2, i) by {
        lemma_close_node_facts(st, p, closed, i);
    }
    assert forall|i: int| 0 <= i < nodes2.len() implies #[trigger] wf_text_at(nodes2, i) by {
        lemma_close_node_facts(st, p, closed, i);
    }
    assert forall|k: int| 0 <= k < rest.len() implies (#[trigger] rest[k]) < nodes2.len()
        && nodes2[rest[k] as int] is Element by {
        assert(rest[k] == st.stack[k]);
    }
    assert forall|k: int|
        1 <= k < rest.len() implies nodes2[#[trigger] rest[k] as int]->Element_0.parent == Some(
        rest[k - 1],
    ) by {
        assert(rest[k] == st.stack[k]);
        assert(nodes2[st.stack[k] as int]->Element_0.parent == st.nodes[
            st.stack[k] as int]->Element_0.parent);
    }
    assert(rest[0] == st.stack[0]);
    assert(nodes2[rest[0] as int]->Element_0.parent is None);
    assert forall|k: int, j: int|
        0 <= k < rest.len() - 1 && 0 <= j < children_of(nodes2, rest[k] as int).len()
            implies #[trigger] children_of(nodes2, rest[k] as int)[j] < rest[k + 1] by {
        assert(rest[k] == st.stack[k] && rest[k + 1] == st.stack[k + 1]);
        assert(st.stack[k] < p);
        assert(children_of(nodes2, rest[k] as int) == children_of(st.nodes, st.stack[k] as int));
    }
}

/// Running the machine from a state that satisfies the invariant lands in
/// a state that satisfies it, as long as the arena stays indexable.
proof fn lemma_run_preserves_inv(st: BuilderStateV, evs: Seq<EventV>, i: int)
    requires
        st_inv(st),
        st.nodes.len() + evs.len() - i <= usize::MAX,
        run_from(st, evs, i) is Ok,
    ensures
        st_inv(run_from(st, evs, i)->Ok_0),
    decreases evs.len() - i,
{
    if 0 <= i < evs.len() {
        lemma_step_preserves_inv(st, evs[i]);
        let st2 = step(st, evs[i])->Ok_0;
        assert(st2.nodes.len() <= st.nodes.len() + 1);
        lemma_run_preserves_inv(st2, evs, i + 1);
    }
}

/// Whatever document the model yields is well formed: the arena's
/// ownership runs strictly downward, children sit in document order, and
/// every back-reference resolves.
pub proof fn lemma_build_model_wf(evs: Seq<EventV>)
    requires
        build_model(evs) is Ok,
        evs.len() <= usize::MAX,
    ensures
        wf(build_model(evs)->Ok_0),
{
    assert(st_inv(init_state()));
    lemma_run_preserves_inv(init_state(), evs, 0);
}

/// The number of start events in `evs[i..]`.
pub open spec fn count_starts_from(evs: Seq<EventV>, i: int) -> nat
    decreases evs.len() - i,
{
    if i < 0 || i >= evs.len() {
        0
    } else {
        (if evs[i] is StartElement {
            1nat
        } else {
            0nat
        }) + count_starts_from(evs, i + 1)
    }
}

/// The number of element nodes in an arena.
pub open spec fn count_elements(nodes: Seq<NodeV>) -> nat
    decreases nodes.len(),
{
    if nodes.len() == 0 {
        0
    } else {
        count_elements(nodes.drop_last()) + (if nodes.last() is Element {
            1nat
        } else {
            0nat
        })
    }
}

/// Appending a node changes the element count by one exactly when the
/// node is an element.
proof fn lemma_count_push(nodes: Seq<NodeV>, v: NodeV)
    ensures
        count_elements(nodes.push(v)) == count_elements(nodes) + (if v is Element {
            1nat
        } else {
            0nat
        }),
{
    assert(nodes.push(v).drop_last() =~= nodes);
    assert(nodes.push(v).last() == v);
}

/// Replacing a node by one of the same kind keeps the element count.
proof fn lemma_count_update(nodes: Seq<NodeV>, p: int, v: NodeV)
    requires
        0 <= p < nodes.len(),
        nodes[p] is Element <==> v is Element,
    ensures
        count_elements(nodes.update(p, v)) == count_elements(nodes),
    decreases nodes.len(),
{
    if p == nodes.len() - 1 {
        assert(nodes.update(p, v).drop_last() =~= nodes.drop_last());
        assert(nodes.update(p, v).last() == v);
    } else {
        assert(nodes.update(p, v).drop_last() =~= nodes.drop_last().update(p, v));
        assert(nodes.update(p, v).last() == nodes.last());
        lemma_count_update(nodes.drop_last(), p, v);
    }
}

/// Attaching a child index keeps the element count.
proof fn lemma_attach_count(nodes: Seq<NodeV>, p: int, c: usize)
    ensures
        count_elements(attach(nodes, p, c)) == count_elements(nodes),
{
    if 0 <= p < nodes.len() && nodes[p] is Element {
        let e = nodes[p]->Element_0;
        lemma_count_update(
            nodes,
            p,
            NodeV::Element(
                ElementV {
                    name: e.name,
                    attributes: e.attributes,
                    namespace: e.namespace,
                    parent: e.parent,
                    children: e.children.push(c),
                },
            ),
        );
    }
}

/// One transition adds an element node exactly on a start event.
proof fn lemma_step_count(st: BuilderStateV, ev: EventV)
    requires
        step(st, ev) is Ok,
    ensures
        count_elements(step(st, ev)->Ok_0.nodes) == count_elements(st.nodes) + (
        if ev is StartElement {
            1nat
        } else {
            0nat
        }),
{
    match ev {
        EventV::Metadata => {},
        EventV::SourceError { .. } => {},
        EventV::StartElement { name, attributes, namespace } => {
            let parent = if st.stack.len() > 0 {
                Some(st.stack.last())
            } else {
                None
            };
            lemma_count_push(
                st.nodes,
                NodeV::Element(
                    ElementV { name, attributes, namespace, parent, children: Seq::empty() },
                ),
            );
        },
        EventV::Text { content } => {
            let p = st.stack.last();
            let idx = st.nodes.len() as usize;
            let grown = st.nodes.push(NodeV::Text(TextV { parent: Some(p), content }));
            lemma_count_push(st.nodes, NodeV::Text(TextV { parent: Some(p), content }));
            lemma_attach_count(grown, p as int, idx);
        },
        EventV::EndElement => {
            let closed = st.stack.last();
            let rest = st.stack.drop_last();
            if rest.len() > 0 {
                lemma_attach_count(st.nodes, rest.last() as int, closed);
            }
        },
    }
}

/// Over any run that reaches the end without an error, the arena gains
/// one element node per start event.
proof fn lemma_run_count(st: BuilderStateV, evs: Seq<EventV>, i: int)
    requires
        run_from(st, evs, i) is Ok,
    ensures
        count_elements(run_from(st, evs, i)->Ok_0.nodes) == count_elements(st.nodes)
            + count_starts_from(evs, i),
    decreases evs.len() - i,
{
    if 0 <= i < evs.len() {
        lemma_step_count(st, evs[i]);
        lemma_run_count(step(st, evs[i])->Ok_0, evs, i + 1);
    }
}

/// Structural well-formedness of `evs[i..]`, scanned with the current
/// nesting depth and whether any element was opened yet: no source
/// errors, text and end events only inside an open element, at most one
/// root, and the sequence ends at depth zero having opened something.
pub open spec fn scan_wf(evs: Seq<EventV>, i: int, depth: int, started: bool) -> bool
    decreases evs.len() - i,
{
    if i >= evs.len() {
        depth == 0 && started
    } else {
        match evs[i] {
            EventV::Metadata => scan_wf(evs, i + 1, depth, started),
            EventV::SourceError { .. } => false,
            EventV::StartElement { .. } => !(started && depth == 0) && scan_wf(
                evs,
                i + 1,
                depth + 1,
                true,
            ),
            EventV::Text { .. } => depth >= 1 && scan_wf(evs, i + 1, depth, started),
            EventV::EndElement => depth >= 1 && scan_wf(evs, i + 1, depth - 1, started),
        }
    }
}

/// A well-formed event sequence: balanced start/end pairs around exactly
/// one root element, character data only inside an open element, and no
/// source errors.
pub open spec fn events_wf(evs: Seq<EventV>) -> bool {
    scan_wf(evs, 0, 0, false)
}

/// A scan that accepts the remaining events means the machine runs them
/// to completion and ends with a closed root.
proof fn lemma_scan_run_ok(st: BuilderStateV, evs: Seq<EventV>, i: int)
    requires
        0 <= i,
        scan_wf(evs, i, st.stack.len() as int, st.stack.len() > 0 || st.root is Some),
        st.root is Some ==> st.stack.len() == 0,
    ensures
        run_from(st, evs, i) is Ok,
        run_from(st, evs, i)->Ok_0.stack.len() == 0,
        run_from(st, evs, i)->Ok_0.root is Some,
    decreases evs.len() - i,
{
    if i < evs.len() {
        match evs[i] {
            EventV::Metadata => {
                lemma_scan_run_ok(st, evs, i + 1);
            },
            EventV::SourceError { .. } => {},
            EventV::StartElement { .. } => {
                assert(st.root is None);
                lemma_scan_run_ok(step(st, evs[i])->Ok_0, evs, i + 1);
            },
            EventV::Text { .. } => {
                assert(st.root is None);
                lemma_scan_run_ok(step(st, evs[i])->Ok_0, evs, i + 1);
            },
            EventV::EndElement => {
                assert(st.root is None);
                lemma_scan_run_ok(step(st, evs[i])->Ok_0, evs, i + 1);
            },
        }
    }
}

/// Every well-formed event sequence builds: the machine reaches the end
/// with the root closed, the resulting tree is well formed — children of
/// every element sit in document order — and it holds exactly one element
/// node per start event.
pub proof fn lemma_build_succeeds(evs: Seq<EventV>)
    requires
        events_wf(evs),
        evs.len() <= usize::MAX,
    ensures
        build_model(evs) is Ok,
        wf(build_model(evs)->Ok_0),
        count_elements(build_model(evs)->Ok_0.nodes) == count_starts_from(evs, 0),
        forall|i: int, k1: int, k2: int|
            0 <= i < build_model(evs)->Ok_0.nodes.len() && 0 <= k1 < k2 < children_of(
                build_model(evs)->Ok_0.nodes,
                i,
            ).len() ==> children_of(build_model(evs)->Ok_0.nodes, i)[k1] < children_of(
                build_model(evs)->Ok_0.nodes,
                i,
            )[k2],
{
    lemma_scan_run_ok(init_state(), evs, 0);
    lemma_run_count(init_state(), evs, 0);
    lemma_build_model_wf(evs);
    let nodes = build_model(evs)->Ok_0.nodes;
    assert forall|i: int, k1: int, k2: int|
        0 <= i < nodes.len() && 0 <= k1 < k2 < children_of(nodes, i).len() implies children_of(
        nodes,
        i,
    )[k1] < children_of(nodes, i)[k2] by {
        assert(wf_children_at(nodes, i));
    }
}

/// For every text leaf of a built document the parent back-reference
/// resolves: it names an element earlier in the arena — by construction
/// in [`step`], the element that was open when the text event was
/// processed — and that element lists the leaf among its children.
pub proof fn lemma_text_parent_resolves(evs: Seq<EventV>, i: int)
    requires
        build_model(evs) is Ok,
        evs.len() <= usize::MAX,
        0 <= i < build_model(evs)->Ok_0.nodes.len(),
        build_model(evs)->Ok_0.nodes[i] is Text,
    ensures
        ({
            let doc = build_model(evs)->Ok_0;
            let p = doc.nodes[i]->Text_0.parent;
            &&& p is Some
            &&& p->0 < i
            &&& doc.nodes[p->0 as int] is Element
            &&& children_of(doc.nodes, p->0 as int).contains(i as usize)
        }),
{
    lemma_build_model_wf(evs);
    assert(wf_text_at(build_model(evs)->Ok_0.nodes, i));
}

/// The element value that a start event pushes, given the state it meets.
pub open spec fn step_start_element(st: BuilderStateV, ev: EventV) -> ElementV {
    ElementV {
        name: ev->StartElement_name,
        attributes: ev->StartElement_attributes,
        namespace: ev->StartElement_namespace,
        parent: if st.stack.len() > 0 {
            Some(st.stack.last())
        } else {
            None
        },
        children: Seq::empty(),
    }
}

} // verus!
