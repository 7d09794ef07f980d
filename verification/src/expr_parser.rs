//! The statement grammar, the pipeline's one outward seam: it is handed each
//! statement span together with the open tree builder and records the span's
//! internal structure under the currently open node.
//!
//! Whatever grammar stands here must balance every `start_node` it issues
//! with a matching `finish_node` before returning, and must account for the
//! entire span text as leaf content — [`token_effect`] states exactly that
//! for the grammar below, which records each span as a single
//! [`SyntaxKind::Statement`] leaf and leaves finer structure to richer
//! grammars substituted in its place.

use vstd::prelude::*;

use crate::builder::{GreenNodeBuilder, token_effect};
use crate::syntax::SyntaxKind;

verus! {

/// Record the statement span `text` under the currently open node: one
/// `Statement` leaf carrying the span verbatim, the open-node stack left at
/// the depth it was entered with.
pub fn parse_expr(text: &str, builder: &mut GreenNodeBuilder)
    requires
        old(builder).frames().len() > 0,
        old(builder).completed_root() is None,
    ensures
        token_effect(*old(builder), *final(builder), SyntaxKind::Statement, text@),
{
    builder.token(SyntaxKind::Statement, text);
}

} // verus!
