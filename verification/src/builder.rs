//! The stack-based tree assembler: opens and closes interior nodes, appends
//! leaf tokens (interning their text), and hands out the finished immutable
//! tree together with the interner.
//!
//! Every `start_node` is paired with exactly one later `finish_node`; the
//! open-node stack is empty only before the first `start_node` and after the
//! last `finish_node`, which completes the single top-level node. Ghost
//! counters record how many nodes were started and finished.

use vstd::prelude::*;

use crate::green::{GreenNode, Interner, intern_index, interior_children, node_kind};
use crate::syntax::SyntaxKind;

verus! {

/// One open node: its kind and the children collected so far.
struct Frame {
    kind: SyntaxKind,
    children: Vec<GreenNode>,
}

/// The assembler. Nodes under construction live on a stack of open frames;
/// finishing the outermost frame completes the tree.
pub struct GreenNodeBuilder {
    stack: Vec<Frame>,
    completed: Option<GreenNode>,
    interner: Interner,
    starts: Ghost<nat>,
    finishes: Ghost<nat>,
}

impl GreenNodeBuilder {
    /// The open nodes, outermost first: each one's kind and the children
    /// collected so far.
    pub closed spec fn frames(self) -> Seq<(SyntaxKind, Seq<GreenNode>)> {
        self.stack@.map(|i: int, f: Frame| (f.kind, f.children@))
    }

    /// The completed top-level node, once the last `finish_node` has run.
    pub closed spec fn completed_root(self) -> Option<GreenNode> {
        self.completed
    }

    /// The texts interned for the leaves so far.
    pub closed spec fn interner_view(self) -> Seq<Seq<char>> {
        self.interner@
    }

    /// The interner holds no text twice.
    pub closed spec fn interner_wf(self) -> bool {
        self.interner.wf()
    }

    /// How many nodes [`GreenNodeBuilder::start_node`] has opened.
    pub closed spec fn starts_count(self) -> nat {
        self.starts@
    }

    /// How many nodes [`GreenNodeBuilder::finish_node`] has closed.
    pub closed spec fn finishes_count(self) -> nat {
        self.finishes@
    }

    /// A builder with no open node, no completed tree and an empty interner.
    pub fn new() -> (r: GreenNodeBuilder)
        ensures
            r.frames() == Seq::<(SyntaxKind, Seq<GreenNode>)>::empty(),
            r.completed_root() is None,
            r.interner_view() == Seq::<Seq<char>>::empty(),
            r.interner_wf(),
            r.starts_count() == 0,
            r.finishes_count() == 0,
    {
        let r = GreenNodeBuilder {
            stack: Vec::new(),
            completed: None,
            interner: Interner::new(),
            starts: Ghost(0),
            finishes: Ghost(0),
        };
        proof {
            assert(r.frames() =~= Seq::<(SyntaxKind, Seq<GreenNode>)>::empty());
        }
        r
    }

    /// Push a new, empty interior node of `kind`: it becomes the target of
    /// the following `token` and `start_node` calls.
    pub fn start_node(&mut self, kind: SyntaxKind)
        requires
            old(self).completed_root() is None,
        ensures
            final(self).frames() == old(self).frames().push((kind, Seq::<GreenNode>::empty())),
            final(self).completed_root() is None,
            final(self).interner_view() == old(self).interner_view(),
            old(self).interner_wf() ==> final(self).interner_wf(),
            final(self).starts_count() == old(self).starts_count() + 1,
            final(self).finishes_count() == old(self).finishes_count(),
    {
        self.stack.push(Frame { kind, children: Vec::new() });
        proof {
            self.starts@ = self.starts@ + 1;
            assert(final(self).frames() =~= old(self).frames().push(
                (kind, Seq::<GreenNode>::empty()),
            ));
        }
    }

    /// Intern `text` and append a leaf of `kind` as the last child of the
    /// innermost open node.
    pub fn token(&mut self, kind: SyntaxKind, text: &str)
        requires
            old(self).frames().len() > 0,
            old(self).completed_root() is None,
        ensures
            token_effect(*old(self), *final(self), kind, text@),
    {
        let id = self.interner.intern(String::from_str(text));
        let mut top = self.stack.pop().unwrap();
        top.children.push(GreenNode::Leaf { kind, text_id: id });
        self.stack.push(top);
        proof {
            crate::green::lemma_intern_index(old(self).interner_view(), text@, 0);
            let fs0 = old(self).frames();
            let fs1 = final(self).frames();
            assert forall|j: int| 0 <= j < fs0.len() - 1 implies fs1[j] == fs0[j] by {
                assert(final(self).stack@[j] == old(self).stack@[j]);
            }
            assert(fs1.last().1 =~= fs0.last().1.push((GreenNode::Leaf { kind, text_id: id })));
        }
    }

    /// Pop the innermost open node, freeze it, and append it as the last
    /// child of the node below it — or, when it was the outermost open node,
    /// record it as the completed top-level node.
    pub fn finish_node(&mut self)
        requires
            old(self).frames().len() > 0,
            old(self).completed_root() is None,
        ensures
            final(self).interner_view() == old(self).interner_view(),
            old(self).interner_wf() ==> final(self).interner_wf(),
            final(self).starts_count() == old(self).starts_count(),
            final(self).finishes_count() == old(self).finishes_count() + 1,
            final(self).frames().len() == old(self).frames().len() - 1,
            old(self).frames().len() == 1 ==> match final(self).completed_root() {
                Some(root) => {
                    &&& root is Interior
                    &&& node_kind(root) == old(self).frames().last().0
                    &&& interior_children(root) == old(self).frames().last().1
                },
                None => false,
            },
            old(self).frames().len() > 1 ==> ({
                let fs0 = old(self).frames();
                let fs1 = final(self).frames();
                let parent = fs0[fs0.len() - 2];
                &&& final(self).completed_root() is None
                &&& (forall|j: int| 0 <= j < fs0.len() - 2 ==> fs1[j] == fs0[j])
                &&& fs1.last().0 == parent.0
                &&& fs1.last().1.len() == parent.1.len() + 1
                &&& (forall|j: int| 0 <= j < parent.1.len() ==> fs1.last().1[j] == parent.1[j])
                &&& fs1.last().1.last() is Interior
                &&& node_kind(fs1.last().1.last()) == fs0.last().0
                &&& interior_children(fs1.last().1.last()) == fs0.last().1
            }),
    {
        let top = self.stack.pop().unwrap();
        let node = GreenNode::Interior { kind: top.kind, children: top.children };
        if self.stack.len() == 0 {
            self.completed = Some(node);
        } else {
            let mut parent = self.stack.pop().unwrap();
            parent.children.push(node);
            self.stack.push(parent);
            proof {
                let fs0 = old(self).frames();
                assert forall|j: int| 0 <= j < fs0.len() - 2 implies self.frames()[j] == fs0[j] by {
                    assert(self.stack@[j] == old(self).stack@[j]);
                }
            }
        }
        proof {
            self.finishes@ = self.finishes@ + 1;
        }
    }

    /// Hand out the finished immutable tree and the interner its leaves
    /// index; valid only once the stack has emptied and completed the
    /// top-level node.
    pub fn finish(self) -> (r: (GreenNode, Interner))
        requires
            self.completed_root() is Some,
        ensures
            r.0 == self.completed_root().unwrap(),
            r.1@ == self.interner_view(),
            self.interner_wf() ==> r.1.wf(),
    {
        let GreenNodeBuilder { stack: _, completed, interner, starts: _, finishes: _ } = self;
        (completed.unwrap(), interner)
    }
}

/// How one appended leaf changes a builder: what
/// [`GreenNodeBuilder::token`] does for `kind` and `text`, and what the
/// statement grammar's recording of a span amounts to. The innermost open
/// node gains one leaf of `kind` whose identifier resolves to `text`; the
/// interner gains `text` unless it already held it; everything else stands.
pub open spec fn token_effect(
    b0: GreenNodeBuilder,
    b1: GreenNodeBuilder,
    kind: SyntaxKind,
    text: Seq<char>,
) -> bool {
    let idx = intern_index(b0.interner_view(), text, 0);
    &&& b1.completed_root() == b0.completed_root()
    &&& b1.starts_count() == b0.starts_count()
    &&& b1.finishes_count() == b0.finishes_count()
    &&& b1.interner_view() == (if idx < b0.interner_view().len() {
        b0.interner_view()
    } else {
        b0.interner_view().push(text)
    })
    &&& 0 <= idx < b1.interner_view().len()
    &&& idx == (idx as usize) as int
    &&& b1.interner_view()[idx] == text
    &&& b0.interner_view().len() <= b1.interner_view().len()
    &&& (forall|k: int|
        0 <= k < b0.interner_view().len() ==> b1.interner_view()[k] == b0.interner_view()[k])
    &&& (b0.interner_wf() ==> b1.interner_wf())
    &&& b1.frames().len() == b0.frames().len()
    &&& (forall|j: int| 0 <= j < b0.frames().len() - 1 ==> b1.frames()[j] == b0.frames()[j])
    &&& b1.frames().last().0 == b0.frames().last().0
    &&& b1.frames().last().1 == b0.frames().last().1.push(
        (GreenNode::Leaf { kind: kind, text_id: idx as usize }),
    )
}

} // verus!
