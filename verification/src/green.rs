//! The green tree: an immutable, owned tree of kind-tagged interior nodes
//! and leaf tokens, and the interner that deduplicates the text its leaves
//! carry. Positions are not stored; the source text is recovered by
//! concatenating leaf texts in order.

use vstd::prelude::*;

use crate::syntax::SyntaxKind;

verus! {

/// An immutable tree value. An interior node is a kind plus an ordered
/// sequence of children; a leaf is a kind plus its text, held as an
/// identifier into the [`Interner`] that was handed out with the tree.
#[derive(Debug, PartialEq, Eq)]
pub enum GreenNode {
    /// A kind-tagged interior node with its children in document order.
    Interior { kind: SyntaxKind, children: Vec<GreenNode> },
    /// A kind-tagged leaf carrying interned text.
    Leaf { kind: SyntaxKind, text_id: usize },
}

/// The kind tag of a node, interior or leaf.
pub open spec fn node_kind(n: GreenNode) -> SyntaxKind {
    match n {
        GreenNode::Interior { kind, .. } => kind,
        GreenNode::Leaf { kind, .. } => kind,
    }
}

/// The children of an interior node, in order; a leaf has none.
pub open spec fn interior_children(n: GreenNode) -> Seq<GreenNode> {
    match n {
        GreenNode::Interior { children, .. } => children@,
        GreenNode::Leaf { .. } => Seq::empty(),
    }
}

/// Index of the first entry of `tv` equal to `t` at or after `i`, or
/// `tv.len()` when there is none: the identifier [`Interner::intern`] hands
/// out, and the position it stores a new text at.
pub open spec fn intern_index(tv: Seq<Seq<char>>, t: Seq<char>, i: int) -> int
    decreases tv.len() - i,
{
    if i < 0 || i >= tv.len() {
        tv.len() as int
    } else if tv[i] == t {
        i
    } else {
        intern_index(tv, t, i + 1)
    }
}

pub proof fn lemma_intern_index(tv: Seq<Seq<char>>, t: Seq<char>, i: int)
    requires
        0 <= i <= tv.len(),
    ensures
        i <= intern_index(tv, t, i) <= tv.len(),
        intern_index(tv, t, i) < tv.len() ==> tv[intern_index(tv, t, i)] == t,
        forall|k: int| i <= k < intern_index(tv, t, i) ==> tv[k] != t,
    decreases tv.len() - i,
{
    if i < tv.len() && tv[i] != t {
        lemma_intern_index(tv, t, i + 1);
    }
}

/// A mapping from text content to a stable identifier: repeated identical
/// substrings share one stored copy. Owned by the builder during
/// construction, handed out read-only beside the finished tree.
#[derive(Debug)]
pub struct Interner {
    texts: Vec<String>,
}

impl View for Interner {
    type V = Seq<Seq<char>>;

    /// The stored texts, in order of first interning; a leaf's `text_id`
    /// indexes this sequence.
    closed spec fn view(&self) -> Seq<Seq<char>> {
        self.texts@.map(|i: int, t: String| t@)
    }
}

impl Interner {
    /// No text is stored twice.
    pub open spec fn wf(self) -> bool {
        forall|i: int, j: int| 0 <= i < j < self@.len() ==> self@[i] != self@[j]
    }

    /// An empty interner.
    pub fn new() -> (r: Interner)
        ensures
            r@ == Seq::<Seq<char>>::empty(),
            r.wf(),
    {
        let r = Interner { texts: Vec::new() };
        proof {
            assert(r@ =~= Seq::<Seq<char>>::empty());
        }
        r
    }

    /// Canonicalize `t`: hand out the identifier of the stored copy equal to
    /// it, storing `t` only when no copy is there yet.
    pub fn intern(&mut self, t: String) -> (id: usize)
        ensures
            id as int == intern_index(old(self)@, t@, 0),
            final(self)@ == (if intern_index(old(self)@, t@, 0) < old(self)@.len() {
                old(self)@
            } else {
                old(self)@.push(t@)
            }),
            id < final(self)@.len(),
            final(self)@[id as int] == t@,
            old(self).wf() ==> final(self).wf(),
    {
        proof {
            lemma_intern_index(self@, t@, 0);
        }
        let n = self.texts.len();
        let mut i: usize = 0;
        while i < n
            invariant
                0 <= i <= n,
                n == self@.len(),
                self@ == old(self)@,
                self.texts@.len() == n,
                intern_index(self@, t@, 0) == intern_index(self@, t@, i as int),
            decreases n - i,
        {
            if self.texts[i].eq(&t) {
                return i;
            }
            i = i + 1;
        }
        self.texts.push(t);
        proof {
            assert(final(self)@ =~= old(self)@.push(t@));
            if old(self).wf() {
                lemma_intern_index(old(self)@, t@, 0);
                let tv = final(self)@;
                assert forall|a: int, b: int| 0 <= a < b < tv.len() implies tv[a] != tv[b] by {
                    if b == old(self)@.len() {
                        assert(tv[b] == t@);
                    }
                }
            }
        }
        n
    }

    /// The stored text under `id`, or `None` for an identifier this interner
    /// never handed out.
    pub fn resolve(&self, id: usize) -> (r: Option<&String>)
        ensures
            match r {
                Some(t) => id < self@.len() && t@ == self@[id as int],
                None => id >= self@.len(),
            },
    {
        if id < self.texts.len() {
            Some(&self.texts[id])
        } else {
            None
        }
    }

    /// How many distinct texts are stored.
    pub fn len(&self) -> (n: usize)
        ensures
            n == self@.len(),
    {
        self.texts.len()
    }
}

} // verus!
