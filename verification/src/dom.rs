//! The document tree's vocabulary: qualified names, attributes, namespace
//! snapshots, elements, text leaves, and the arena that holds them all.

pub mod text;

use vstd::prelude::*;

use crate::dom::text::{Text, TextV};

verus! {

/// A qualified name: a local name optionally scoped by a namespace
/// prefix and URI.
pub struct QName {
    /// The local part of the name, e.g. `item` in `ns:item`.
    pub local_name: String,
    /// The namespace prefix, if the name carries one.
    pub prefix: Option<String>,
    /// The namespace URI the prefix resolves to, if any.
    pub namespace: Option<String>,
}

/// The mathematical value of a [`QName`].
#[verifier::ext_equal]
pub struct QNameV {
    pub local_name: Seq<char>,
    pub prefix: Option<Seq<char>>,
    pub namespace: Option<Seq<char>>,
}

impl DeepView for QName {
    type V = QNameV;

    open spec fn deep_view(&self) -> QNameV {
        QNameV {
            local_name: self.local_name@,
            prefix: self.prefix.deep_view(),
            namespace: self.namespace.deep_view(),
        }
    }
}

/// One attribute of an element: a qualified name and a raw value.
/// Duplicates are passed through exactly as the event source gave them;
/// the tree performs no deduplication or validation.
pub struct Attribute {
    pub name: QName,
    pub value: String,
}

/// The mathematical value of an [`Attribute`].
#[verifier::ext_equal]
pub struct AttributeV {
    pub name: QNameV,
    pub value: Seq<char>,
}

impl DeepView for Attribute {
    type V = AttributeV;

    open spec fn deep_view(&self) -> AttributeV {
        AttributeV { name: self.name.deep_view(), value: self.value@ }
    }
}

/// The namespace mapping in scope at one element: a snapshot of
/// prefix/URI pairs, not a lazily inherited chain.
pub struct Namespace {
    pub entries: Vec<(String, String)>,
}

impl DeepView for Namespace {
    type V = Seq<(Seq<char>, Seq<char>)>;

    open spec fn deep_view(&self) -> Seq<(Seq<char>, Seq<char>)> {
        self.entries.deep_view()
    }
}

/// An element of the tree. Children are held as indices into the owning
/// [`Document`]'s node arena, in document order.
pub struct Element {
    pub name: QName,
    pub attributes: Vec<Attribute>,
    pub namespace: Namespace,
    /// Index of the enclosing element in the arena; `None` for the root.
    pub parent: Option<usize>,
    /// Indices of this element's children, in document order.
    pub children: Vec<usize>,
}

/// The mathematical value of an [`Element`].
#[verifier::ext_equal]
pub struct ElementV {
    pub name: QNameV,
    pub attributes: Seq<AttributeV>,
    pub namespace: Seq<(Seq<char>, Seq<char>)>,
    pub parent: Option<usize>,
    pub children: Seq<usize>,
}

impl DeepView for Element {
    type V = ElementV;

    open spec fn deep_view(&self) -> ElementV {
        ElementV {
            name: self.name.deep_view(),
            attributes: self.attributes.deep_view(),
            namespace: self.namespace.deep_view(),
            parent: self.parent,
            children: self.children.deep_view(),
        }
    }
}

impl Element {
    /// Constructs an element with no children yet and no parent recorded.
    pub fn new(name: QName, attributes: Vec<Attribute>, namespace: Namespace) -> (r: Element)
        ensures
            r.deep_view() == (ElementV {
                name: name.deep_view(),
                attributes: attributes.deep_view(),
                namespace: namespace.deep_view(),
                parent: None,
                children: Seq::<usize>::empty(),
            }),
    {
        let r = Element { name, attributes, namespace, parent: None, children: Vec::new() };
        proof {
            assert(r.deep_view().children =~= Seq::<usize>::empty());
        }
        r
    }

    /// Appends the arena index of a child node to the ordered children
    /// sequence, preserving the order of earlier children.
    pub fn add_child(&mut self, child: usize)
        ensures
            final(self).deep_view() == (ElementV {
                children: old(self).deep_view().children.push(child),
                ..old(self).deep_view()
            }),
    {
        self.children.push(child);
        proof {
            assert(self.deep_view().children =~= old(self).deep_view().children.push(child));
        }
    }
}

/// A node of the tree: either a text leaf or an element.
pub enum Node {
    Text(Text),
    Element(Element),
}

/// The mathematical value of a [`Node`].
#[verifier::ext_equal]
pub enum NodeV {
    Text(TextV),
    Element(ElementV),
}

impl DeepView for Node {
    type V = NodeV;

    open spec fn deep_view(&self) -> NodeV {
        match self {
            Node::Text(t) => NodeV::Text(t.deep_view()),
            Node::Element(e) => NodeV::Element(e.deep_view()),
        }
    }
}

/// A document: the node arena and the index of the single root element.
/// Immutable after construction; only [`crate::build`] produces one.
pub struct Document {
    /// All nodes of the tree. Indices are assigned in creation order, so a
    /// parent always has a smaller index than each of its children.
    pub nodes: Vec<Node>,
    /// Arena index of the root element.
    pub root: usize,
}

/// The mathematical value of a [`Document`].
#[verifier::ext_equal]
pub struct DocumentV {
    pub nodes: Seq<NodeV>,
    pub root: usize,
}

impl DeepView for Document {
    type V = DocumentV;

    open spec fn deep_view(&self) -> DocumentV {
        DocumentV { nodes: self.nodes.deep_view(), root: self.root }
    }
}

/// The children sequence of the node at index `i` of an arena: an
/// element's recorded children, or the empty sequence for a text leaf.
pub open spec fn children_of(nodes: Seq<NodeV>, i: int) -> Seq<usize> {
    match nodes[i] {
        NodeV::Element(e) => e.children,
        NodeV::Text(_) => Seq::empty(),
    }
}

/// The parent index recorded at node `i` of an arena.
pub open spec fn parent_of(nodes: Seq<NodeV>, i: int) -> Option<usize> {
    match nodes[i] {
        NodeV::Element(e) => e.parent,
        NodeV::Text(t) => t.parent,
    }
}

/// The children list at index `i` stays inside the arena, points only
/// forward, is strictly increasing (children appear in creation order,
/// which is document order), and every child names `i` as its parent.
pub open spec fn wf_children_at(nodes: Seq<NodeV>, i: int) -> bool {
    let cs = children_of(nodes, i);
    &&& forall|k: int| 0 <= k < cs.len() ==> i < #[trigger] cs[k] < nodes.len()
    &&& forall|k1: int, k2: int| 0 <= k1 < k2 < cs.len() ==> cs[k1] < cs[k2]
    &&& forall|k: int|
        0 <= k < cs.len() ==> parent_of(nodes, #[trigger] cs[k] as int) == Some(i as usize)
}

/// A text leaf's parent link resolves: it names an element earlier in the
/// arena whose children list records this leaf.
pub open spec fn wf_text_at(nodes: Seq<NodeV>, i: int) -> bool {
    nodes[i] is Text ==> {
        let p = nodes[i]->Text_0.parent;
        &&& p is Some
        &&& p->0 < i
        &&& nodes[p->0 as int] is Element
        &&& children_of(nodes, p->0 as int).contains(i as usize)
    }
}

/// Well-formedness of a node arena: every child index points past its
/// parent into the arena (so ownership runs strictly downward and
/// traversal terminates), and every text leaf's back-reference resolves.
pub open spec fn nodes_wf(nodes: Seq<NodeV>) -> bool {
    &&& forall|i: int| 0 <= i < nodes.len() ==> #[trigger] wf_children_at(nodes, i)
    &&& forall|i: int| 0 <= i < nodes.len() ==> #[trigger] wf_text_at(nodes, i)
}

/// Well-formedness of a document: a well-formed arena whose root index
/// names an element with no parent. Every document a successful build
/// returns satisfies this.
pub open spec fn wf(doc: DocumentV) -> bool {
    &&& doc.root < doc.nodes.len()
    &&& doc.nodes[doc.root as int] is Element
    &&& doc.nodes[doc.root as int]->Element_0.parent is None
    &&& nodes_wf(doc.nodes)
}

} // verus!
