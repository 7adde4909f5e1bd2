//! Text leaves of the tree, and an iterator that picks the text nodes out
//! of a children sequence.

use std::rc::Rc;

use vstd::prelude::*;

use crate::dom::{Document, Node};
use crate::pretty::{push_spaces, text_pretty};

verus! {

/// A text leaf of the tree.
pub struct Text {
    /// Arena index of the enclosing element; the back-reference is a bare
    /// index, so it never owns the parent and cannot form a cycle.
    pub parent: Option<usize>,
    /// The character data, exactly as one text event carried it. Adjacent
    /// text events are never merged: each one becomes its own leaf.
    pub content: String,
}

/// The mathematical value of a [`Text`].
#[verifier::ext_equal]
pub struct TextV {
    pub parent: Option<usize>,
    pub content: Seq<char>,
}

impl DeepView for Text {
    type V = TextV;

    open spec fn deep_view(&self) -> TextV {
        TextV { parent: self.parent, content: self.content@ }
    }
}

impl Text {
    /// Constructs a text leaf with the given parent back-reference.
    pub fn new(parent: Option<usize>, content: String) -> (r: Text)
        ensures
            r.deep_view() == (TextV { parent, content: content@ }),
    {
        Text { parent, content }
    }

    /// Looks the parent up. Returns `None` when no enclosing element was
    /// recorded; after a successful build every text leaf has one.
    pub fn get_parent(&self) -> (r: Option<usize>)
        ensures
            r == self.deep_view().parent,
    {
        self.parent
    }

    /// Writes this leaf's rendering onto `out`: its content on one line
    /// at a left offset of `indent` spaces, then a newline. A leaf has no
    /// children, so the per-level increment `inc` plays no part here; it
    /// is accepted so leaves and elements render through one calling
    /// convention.
    pub fn format_pretty(&self, out: &mut String, indent: usize, inc: usize)
        ensures
            final(out)@ == old(out)@ + text_pretty(self.deep_view().content, indent as nat),
    {
        push_spaces(out, indent);
        out.append(self.content.as_str());
        out.append("\n");
        proof {
            reveal_strlit("\n");
            assert("\n"@ =~= seq!['\n']);
            assert(out@ =~= old(out)@ + text_pretty(self.deep_view().content, indent as nat));
        }
    }
}

/// A text leaf under shared ownership, for consumers that hold on to
/// leaves independently of the arena.
pub type RcText = Rc<Text>;

/// Wraps a text leaf in shared ownership.
pub fn rc_text_new(text: Text) -> (r: RcText)
    ensures
        *r == text,
{
    Rc::new(text)
}

/// The arena indices of the text leaves among `children[i..]`, in order;
/// an index that does not name a text node in `doc` is skipped.
pub open spec fn texts_from(doc: crate::dom::DocumentV, children: Seq<usize>, i: int) -> Seq<usize>
    decreases children.len() - i,
{
    if i < 0 || i >= children.len() {
        Seq::empty()
    } else if children[i] < doc.nodes.len() && doc.nodes[children[i] as int] is Text {
        seq![children[i]] + texts_from(doc, children, i + 1)
    } else {
        texts_from(doc, children, i + 1)
    }
}

/// A lazy iterator over one children sequence that yields the text
/// leaves, skipping elements. It never recurses into element subtrees,
/// and once exhausted it stays exhausted; iterating again takes a fresh
/// iterator.
pub struct TextIterator<'a> {
    /// The document whose arena the child indices point into.
    pub doc: &'a Document,
    /// The children sequence the iterator draws from.
    pub children: &'a Vec<usize>,
    /// Position of the next candidate in the children sequence.
    pub pos: usize,
}

impl<'a> TextIterator<'a> {
    /// A fresh iterator over the given children sequence.
    pub fn new(doc: &'a Document, children: &'a Vec<usize>) -> (r: TextIterator<'a>)
        ensures
            r.doc == doc,
            r.children == children,
            r.pos == 0,
    {
        TextIterator { doc, children, pos: 0 }
    }

    /// The arena indices of the text leaves not yet yielded, in order.
    pub open spec fn remaining(&self) -> Seq<usize> {
        texts_from(self.doc.deep_view(), self.children@, self.pos as int)
    }

    /// Yields the arena index of the next text leaf, or `None` once the
    /// children sequence holds no further one — and `None` ever after.
    pub fn next(&mut self) -> (r: Option<usize>)
        ensures
            final(self).doc == old(self).doc,
            final(self).children == old(self).children,
            old(self).remaining().len() > 0 ==> r == Some(old(self).remaining().first())
                && final(self).remaining() == old(self).remaining().drop_first(),
            old(self).remaining().len() == 0 ==> r is None && final(self).remaining().len() == 0,
            r is Some ==> r->0 < old(self).doc.deep_view().nodes.len()
                && old(self).doc.deep_view().nodes[r->0 as int] is Text,
    {
        let ghost dv = self.doc.deep_view();
        let ghost cs = self.children@;
        while self.pos < self.children.len()
            invariant
                cs == self.children@,
                dv == self.doc.deep_view(),
                texts_from(dv, cs, self.pos as int) == old(self).remaining(),
                self.doc == old(self).doc,
                self.children == old(self).children,
            decreases cs.len() - self.pos,
        {
            let c = self.children[self.pos];
            self.pos += 1;
            if c < self.doc.nodes.len() {
                let is_text = match &self.doc.nodes[c] {
                    Node::Text(_) => true,
                    Node::Element(_) => false,
                };
                if is_text {
                    proof {
                        assert(old(self).remaining() =~= seq![c] + texts_from(
                            dv,
                            cs,
                            self.pos as int,
                        ));
                        assert((seq![c] + texts_from(dv, cs, self.pos as int)).drop_first()
                            =~= texts_from(dv, cs, self.pos as int));
                    }
                    return Some(c);
                }
            }
        }
        None
    }
}

} // verus!
