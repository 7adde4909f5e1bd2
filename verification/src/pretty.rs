//! Depth-first pretty printing: every node is rendered on its own lines,
//! children one level deeper, with a trailing newline after every line
//! and no other trailing whitespace.

use vstd::prelude::*;

use crate::dom::{children_of, nodes_wf, wf, wf_children_at, Document, DocumentV, Node, NodeV};

verus! {

/// `n` spaces.
pub open spec fn spaces(n: nat) -> Seq<char>
    decreases n,
{
    if n == 0 {
        Seq::empty()
    } else {
        spaces((n - 1) as nat).push(' ')
    }
}

/// The rendering of a text leaf: its content on one line, at a left
/// offset of `indent` spaces.
pub open spec fn text_pretty(content: Seq<char>, indent: nat) -> Seq<char> {
    spaces(indent) + content + seq!['\n']
}

/// The rendering of node `i` of `doc` at a left offset of `indent`
/// spaces, children `inc` further right: a text leaf is its content on
/// one line; an element is `<name>`, its children, then `</name>`.
pub open spec fn pretty_node(doc: DocumentV, i: int, indent: nat, inc: nat) -> Seq<char>
    decreases doc.nodes.len() - i, 1nat, 0nat,
        when nodes_wf(doc.nodes) && 0 <= i < doc.nodes.len()
{
    match doc.nodes[i] {
        NodeV::Text(t) => text_pretty(t.content, indent),
        NodeV::Element(e) => spaces(indent) + seq!['<'] + e.name.local_name + seq!['>', '\n']
            + pretty_children(doc, i, 0, indent + inc, inc) + spaces(indent) + seq!['<', '/']
            + e.name.local_name + seq!['>', '\n'],
    }
}

/// The renderings of children `k..` of the element at `i`, concatenated
/// in document order.
pub open spec fn pretty_children(doc: DocumentV, i: int, k: int, indent: nat, inc: nat) -> Seq<
    char,
>
    decreases doc.nodes.len() - i, 0nat, children_of(doc.nodes, i).len() - k,
        when nodes_wf(doc.nodes) && 0 <= i < doc.nodes.len()
        via pretty_children_decreases
{
    if k < 0 || k >= children_of(doc.nodes, i).len() {
        Seq::empty()
    } else {
        pretty_node(doc, children_of(doc.nodes, i)[k] as int, indent, inc) + pretty_children(
            doc,
            i,
            k + 1,
            indent,
            inc,
        )
    }
}

/// The recursion of [`pretty_children`] into a child terminates because
/// a well-formed arena's child indices strictly exceed their parent's.
#[via_fn]
proof fn pretty_children_decreases(doc: DocumentV, i: int, k: int, indent: nat, inc: nat) {
    if nodes_wf(doc.nodes) && 0 <= i < doc.nodes.len() {
        assert(wf_children_at(doc.nodes, i));
        if 0 <= k < children_of(doc.nodes, i).len() {
            assert(i < children_of(doc.nodes, i)[k] < doc.nodes.len());
        }
    }
}

/// Appends `n` spaces to `out`.
pub(crate) fn push_spaces(out: &mut String, n: usize)
    ensures
        final(out)@ == old(out)@ + spaces(n as nat),
{
    let mut k: usize = 0;
    proof {
        assert(old(out)@ + spaces(0) =~= old(out)@);
    }
    while k < n
        invariant
            k <= n,
            out@ == old(out)@ + spaces(k as nat),
        decreases n - k,
    {
        out.append(" ");
        proof {
            reveal_strlit(" ");
            assert(" "@ =~= seq![' ']);
            assert(out@ =~= old(out)@ + spaces((k + 1) as nat));
        }
        k += 1;
    }
}

impl Document {
    /// Writes the rendering of node `i` onto `out`: the node's own lines,
    /// children indented `inc` spaces further. `indent` is the left
    /// offset in spaces of this node's lines.
    pub fn format_node(&self, i: usize, out: &mut String, indent: usize, inc: usize)
        requires
            nodes_wf(self.deep_view().nodes),
            i < self.deep_view().nodes.len(),
            indent + inc * (self.deep_view().nodes.len() - i) <= usize::MAX,
        ensures
            final(out)@ == old(out)@ + pretty_node(
                self.deep_view(),
                i as int,
                indent as nat,
                inc as nat,
            ),
        decreases self.deep_view().nodes.len() - i,
    {
        let ghost dv = self.deep_view();
        let ghost base = out@;
        match &self.nodes[i] {
            Node::Text(t) => {
                push_spaces(out, indent);
                out.append(t.content.as_str());
                out.append("\n");
                proof {
                    reveal_strlit("\n");
                    assert("\n"@ =~= seq!['\n']);
                    assert(out@ =~= base + pretty_node(dv, i as int, indent as nat, inc as nat));
                }
            },
            Node::Element(e) => {
                proof {
                    assert(wf_children_at(dv.nodes, i as int));
                }
                push_spaces(out, indent);
                out.append("<");
                out.append(e.name.local_name.as_str());
                out.append(">\n");
                proof {
                    reveal_strlit("<");
                    reveal_strlit(">\n");
                    assert("<"@ =~= seq!['<']);
                    assert(">\n"@ =~= seq!['>', '\n']);
                }
                let ghost mid = out@;
                proof {
                    assert(mid =~= base + spaces(indent as nat) + seq!['<']
                        + e.name.local_name@ + seq!['>', '\n']);
                }
                assert(indent + inc <= usize::MAX) by (nonlinear_arith)
                    requires
                        indent + inc * (dv.nodes.len() - i) <= usize::MAX,
                        i < dv.nodes.len(),
                        inc >= 0,
                ;
                let next = indent + inc;
                let mut k: usize = 0;
                proof {
                    assert(mid + pretty_children(dv, i as int, 0, next as nat, inc as nat) =~= mid
                        + pretty_children(dv, i as int, 0, next as nat, inc as nat));
                }
                while k < e.children.len()
                    invariant
                        k <= e.children@.len(),
                        dv == self.deep_view(),
                        nodes_wf(dv.nodes),
                        i < dv.nodes.len(),
                        self.nodes@[i as int] == Node::Element(*e),
                        children_of(dv.nodes, i as int) == e.children@,
                        indent + inc * (dv.nodes.len() - i) <= usize::MAX,
                        next == indent + inc,
                        out@ + pretty_children(dv, i as int, k as int, next as nat, inc as nat)
                            == mid + pretty_children(dv, i as int, 0, next as nat, inc as nat),
                    decreases e.children@.len() - k,
                {
                    let c = e.children[k];
                    proof {
                        assert(wf_children_at(dv.nodes, i as int));
                        assert(children_of(dv.nodes, i as int)[k as int] == c);
                        assert(i < c < dv.nodes.len());
                        assert(next + inc * (dv.nodes.len() - c) <= indent + inc * (dv.nodes.len()
                            - i)) by (nonlinear_arith)
                            requires
                                next == indent + inc,
                                i < c < dv.nodes.len(),
                                inc >= 0,
                        ;
                    }
                    let ghost before = out@;
                    self.format_node(c, out, next, inc);
                    proof {
                        assert(out@ + pretty_children(dv, i as int, k + 1, next as nat, inc as nat)
                            =~= before + pretty_children(dv, i as int, k as int, next as nat,
                            inc as nat));
                    }
                    k += 1;
                }
                proof {
                    assert(pretty_children(dv, i as int, k as int, next as nat, inc as nat)
                        =~= Seq::<char>::empty());
                    assert(out@ =~= mid + pretty_children(dv, i as int, 0, next as nat,
                        inc as nat));
                }
                let ghost closing_base = out@;
                push_spaces(out, indent);
                out.append("</");
                out.append(e.name.local_name.as_str());
                out.append(">\n");
                proof {
                    reveal_strlit("</");
                    reveal_strlit(">\n");
                    assert("</"@ =~= seq!['<', '/']);
                    assert(">\n"@ =~= seq!['>', '\n']);
                    assert(out@ =~= base + pretty_node(dv, i as int, indent as nat, inc as nat));
                }
            },
        }
    }

    /// The whole document rendered from the root: offset zero, two spaces
    /// per nesting level, a trailing newline after every line.
    pub fn to_pretty(&self) -> (r: String)
        requires
            wf(self.deep_view()),
            2 * self.deep_view().nodes.len() <= usize::MAX,
        ensures
            r@ == pretty_node(self.deep_view(), self.deep_view().root as int, 0, 2),
    {
        let mut out = String::new();
        self.format_node(self.root, &mut out, 0, 2);
        proof {
            assert(Seq::<char>::empty() + pretty_node(
                self.deep_view(),
                self.deep_view().root as int,
                0,
                2,
            ) =~= pretty_node(self.deep_view(), self.deep_view().root as int, 0, 2));
        }
        out
    }
}

} // verus!
