use vstd::prelude::*;

verus! {

/// The closed set of tags naming nodes of the green tree.
///
/// The core itself creates `Root` for the single top-level node and the
/// trivia kinds `Comment`, `Newline` and `Whitespace` for leaves; `Statement`
/// is the kind under which the statement grammar records the spans handed to
/// it. Further statement-internal kinds are added here by grammars that need
/// them; the core never infers any.
#[derive(Debug, Clone, Copy, PartialEq, Eq, Structural)]
pub enum SyntaxKind {
    /// The sole top-level node wrapping an entire parse.
    Root,
    /// A block or line comment, kept verbatim.
    Comment,
    /// A maximal run of line breaks, kept verbatim.
    Newline,
    /// A maximal run of inter-token spacing (space, tab, form feed).
    Whitespace,
    /// A statement span, as recorded by the statement grammar.
    Statement,
}

} // verus!
