//! The pipeline-wide properties, stated and proved over the same spec
//! functions the parser's contracts use: the tree's leaves reproduce the
//! source, leaf order follows token order, re-tokenizing a reconstruction
//! changes nothing, and a bad region always leaves a diagnostic behind.

use vstd::prelude::*;

use crate::green::{GreenNode, interior_children};
use crate::lexer::{Token, failure_end, lemma_failure_end, lemma_token_at, token_at};
use crate::parser::{
    concat_texts, is_parse_tree, leaf_data, leaf_kind_of, leaf_matches, lex_ok, resolved_leaves,
    spec_error_regions, spec_leaves,
};
use crate::syntax::SyntaxKind;

verus! {

/// The tokens a scan of `s` hands out from offset `i` on, in order;
/// failure regions contribute none.
pub open spec fn spec_tokens(s: Seq<char>, i: int) -> Seq<Token>
    decreases s.len() - i,
    when 0 <= i
    via spec_tokens_decreases
{
    if i >= s.len() {
        Seq::empty()
    } else {
        match token_at(s, i) {
            Some((t, e)) => seq![t] + spec_tokens(s, e),
            None => spec_tokens(s, failure_end(s, i)),
        }
    }
}

#[via_fn]
proof fn spec_tokens_decreases(s: Seq<char>, i: int) {
    lemma_token_at(s, i);
    if 0 <= i < s.len() && token_at(s, i) is None {
        lemma_failure_end(s, i);
    }
}

proof fn lemma_reconstruction_from(s: Seq<char>, i: int)
    requires
        0 <= i <= s.len(),
        lex_ok(s, i),
    ensures
        concat_texts(spec_leaves(s, i)) == s.subrange(i, s.len() as int),
    decreases s.len() - i,
{
    if i >= s.len() {
        assert(concat_texts(spec_leaves(s, i)) =~= s.subrange(i, s.len() as int));
    } else {
        let r = token_at(s, i);
        match r {
            Some((t, e)) => {
                lemma_token_at(s, i);
                lemma_reconstruction_from(s, e);
                let item = (leaf_kind_of(t), s.subrange(i, e));
                let ls = spec_leaves(s, i);
                assert(ls == seq![item] + spec_leaves(s, e));
                assert(ls.drop_first() =~= spec_leaves(s, e));
                assert(concat_texts(ls) == item.1 + concat_texts(spec_leaves(s, e)));
                assert(s.subrange(i, e) + s.subrange(e, s.len() as int) =~= s.subrange(
                    i,
                    s.len() as int,
                ));
            },
            None => {
                assert(false);
            },
        }
    }
}

/// Reconstruction: for any input without a failure region, concatenating
/// the texts of the leaves a parse grows — inter-token spacing included —
/// reproduces the input exactly.
pub proof fn lemma_reconstruction(s: Seq<char>)
    requires
        lex_ok(s, 0),
    ensures
        concat_texts(spec_leaves(s, 0)) == s,
{
    lemma_reconstruction_from(s, 0);
    assert(s.subrange(0, s.len() as int) =~= s);
}

/// Idempotence: for any input without a failure region, tokenizing the
/// reconstructed text grows exactly the leaves of the original input, so
/// the re-parse's tree is the original tree over again.
pub proof fn lemma_retokenize_idempotent(s: Seq<char>)
    requires
        lex_ok(s, 0),
    ensures
        spec_leaves(concat_texts(spec_leaves(s, 0)), 0) == spec_leaves(s, 0),
{
    lemma_reconstruction(s);
}

proof fn lemma_leaf_order_from(s: Seq<char>, i: int)
    requires
        0 <= i <= s.len(),
    ensures
        spec_leaves(s, i).len() == spec_tokens(s, i).len(),
        forall|j: int|
            0 <= j < spec_tokens(s, i).len() ==> spec_leaves(s, i)[j].0 == leaf_kind_of(
                #[trigger] spec_tokens(s, i)[j],
            ),
    decreases s.len() - i,
{
    if i < s.len() {
        let r = token_at(s, i);
        match r {
            Some((t, e)) => {
                lemma_token_at(s, i);
                lemma_leaf_order_from(s, e);
                let lv = spec_leaves(s, i);
                let tk = spec_tokens(s, i);
                assert(lv == seq![(leaf_kind_of(t), s.subrange(i, e))] + spec_leaves(s, e));
                assert(tk == seq![t] + spec_tokens(s, e));
                assert forall|j: int| 0 <= j < tk.len() implies lv[j].0 == leaf_kind_of(
                    #[trigger] tk[j],
                ) by {
                    if j > 0 {
                        assert(lv[j] == spec_leaves(s, e)[j - 1]);
                        assert(tk[j] == spec_tokens(s, e)[j - 1]);
                    }
                }
            },
            None => {
                lemma_failure_end(s, i);
                lemma_leaf_order_from(s, failure_end(s, i));
            },
        }
    }
}

/// Order: the leaves a parse grows stand in exactly the order the
/// tokenizer hands the tokens out, one leaf per token, each of the kind the
/// pipeline records that token under.
pub proof fn lemma_leaf_order(s: Seq<char>)
    ensures
        spec_leaves(s, 0).len() == spec_tokens(s, 0).len(),
        forall|j: int|
            0 <= j < spec_tokens(s, 0).len() ==> spec_leaves(s, 0)[j].0 == leaf_kind_of(
                #[trigger] spec_tokens(s, 0)[j],
            ),
{
    lemma_leaf_order_from(s, 0);
}

proof fn lemma_recovery_from(s: Seq<char>, i: int)
    requires
        0 <= i <= s.len(),
        !lex_ok(s, i),
    ensures
        spec_error_regions(s, i).len() > 0,
    decreases s.len() - i,
{
    let r = token_at(s, i);
    match r {
        Some((t, e)) => {
            lemma_token_at(s, i);
            lemma_recovery_from(s, e);
        },
        None => {},
    }
}

/// Recovery: any input with an unrecognized region still parses to
/// completion — [`crate::parser::Parser::parse`] always completes the tree —
/// and its diagnostic list is not empty.
pub proof fn lemma_recovery(s: Seq<char>)
    requires
        !lex_ok(s, 0),
    ensures
        spec_error_regions(s, 0).len() > 0,
{
    lemma_recovery_from(s, 0);
}

/// Reconstruction, stated of a finished tree: the leaves of any parse tree
/// of an input without a failure region resolve, through its interner, to
/// texts whose concatenation is the input itself — what
/// [`crate::parser::ParseOutcome::reconstruct`] computes.
pub proof fn lemma_parse_tree_reconstruction(root: GreenNode, itn: Seq<Seq<char>>, s: Seq<char>)
    requires
        is_parse_tree(root, itn, s),
        lex_ok(s, 0),
    ensures
        concat_texts(resolved_leaves(root, itn)) == s,
{
    let cs = interior_children(root);
    let want = spec_leaves(s, 0);
    assert forall|j: int| 0 <= j < cs.len() implies resolved_leaves(root, itn)[j] == want[j] by {
        assert(leaf_matches(cs[j], itn, want[j]));
        assert(resolved_leaves(root, itn)[j] == leaf_data(cs[j], itn));
    }
    assert(resolved_leaves(root, itn) =~= want);
    lemma_reconstruction(s);
}

} // verus!
