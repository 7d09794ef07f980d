//! The driver: one full parse pass over a script. It pulls classified spans
//! from the [`Lexer`], appends trivia directly as leaves, hands statement
//! spans to the statement grammar ([`crate::expr_parser`]), records a
//! diagnostic for every lexical failure, and closes the single `Root` node at
//! end of input.
//!
//! The contracts pin the whole outcome down: the finished tree is the `Root`
//! node whose leaves, in order, are exactly [`spec_leaves`] of the input, and
//! the diagnostics are exactly the messages for [`spec_error_regions`] of the
//! input.

use vstd::prelude::*;

use crate::builder::{GreenNodeBuilder, token_effect};
use crate::expr_parser::parse_expr;
use crate::green::{GreenNode, Interner, interior_children, node_kind};
use crate::lexer::{
    Lexer, Token, failure_end, lemma_failure_end, lemma_token_at, token_at,
};
use crate::syntax::SyntaxKind;

verus! {

/// The leaf kind under which the driver, together with the statement
/// grammar, records a token of each class.
pub open spec fn leaf_kind_of(t: Token) -> SyntaxKind {
    match t {
        Token::Expr => SyntaxKind::Statement,
        Token::Newline => SyntaxKind::Newline,
        Token::Comment => SyntaxKind::Comment,
        Token::Whitespace => SyntaxKind::Whitespace,
    }
}

/// The leaves a parse of `s` grows from offset `i` on: for every token its
/// leaf kind and its exact text, in scan order; failure regions grow no
/// leaf.
pub open spec fn spec_leaves(s: Seq<char>, i: int) -> Seq<(SyntaxKind, Seq<char>)>
    decreases s.len() - i,
    when 0 <= i
    via spec_leaves_decreases
{
    if i >= s.len() {
        Seq::empty()
    } else {
        match token_at(s, i) {
            Some((t, e)) => seq![(leaf_kind_of(t), s.subrange(i, e))] + spec_leaves(s, e),
            None => spec_leaves(s, failure_end(s, i)),
        }
    }
}

#[via_fn]
proof fn spec_leaves_decreases(s: Seq<char>, i: int) {
    lemma_token_at(s, i);
    if 0 <= i < s.len() && token_at(s, i) is None {
        lemma_failure_end(s, i);
    }
}

/// The failure regions a scan of `s` meets from offset `i` on, each one's
/// exact text, in scan order.
pub open spec fn spec_error_regions(s: Seq<char>, i: int) -> Seq<Seq<char>>
    decreases s.len() - i,
    when 0 <= i
    via spec_error_regions_decreases
{
    if i >= s.len() {
        Seq::empty()
    } else {
        match token_at(s, i) {
            Some((t, e)) => spec_error_regions(s, e),
            None => seq![s.subrange(i, failure_end(s, i))] + spec_error_regions(
                s,
                failure_end(s, i),
            ),
        }
    }
}

#[via_fn]
proof fn spec_error_regions_decreases(s: Seq<char>, i: int) {
    lemma_token_at(s, i);
    if 0 <= i < s.len() && token_at(s, i) is None {
        lemma_failure_end(s, i);
    }
}

/// Whether scanning `s` from offset `i` on meets no failure region.
pub open spec fn lex_ok(s: Seq<char>, i: int) -> bool
    decreases s.len() - i,
    when 0 <= i
    via lex_ok_decreases
{
    if i >= s.len() {
        true
    } else {
        match token_at(s, i) {
            Some((t, e)) => lex_ok(s, e),
            None => false,
        }
    }
}

#[via_fn]
proof fn lex_ok_decreases(s: Seq<char>, i: int) {
    lemma_token_at(s, i);
}

/// The diagnostic recorded for one failure region.
pub open spec fn error_message(region: Seq<char>) -> Seq<char> {
    "Error parsing token: '"@ + region + "'"@
}

/// `n` is a leaf of the wanted kind whose identifier resolves, through the
/// interner contents `itn`, to the wanted text.
pub open spec fn leaf_matches(
    n: GreenNode,
    itn: Seq<Seq<char>>,
    want: (SyntaxKind, Seq<char>),
) -> bool {
    match n {
        GreenNode::Leaf { kind, text_id } => {
            &&& kind == want.0
            &&& text_id < itn.len()
            &&& itn[text_id as int] == want.1
        },
        GreenNode::Interior { .. } => false,
    }
}

/// `cs` is exactly the wanted sequence of leaves, kind for kind and text
/// for text.
pub open spec fn leaves_match(
    cs: Seq<GreenNode>,
    itn: Seq<Seq<char>>,
    want: Seq<(SyntaxKind, Seq<char>)>,
) -> bool {
    &&& cs.len() == want.len()
    &&& forall|j: int| 0 <= j < cs.len() ==> leaf_matches(#[trigger] cs[j], itn, want[j])
}

/// What a completed parse of `s` hands out: the sole top-level node is an
/// interior `Root` node whose children are, in order, exactly the leaves of
/// [`spec_leaves`], their texts resolved through the interner contents
/// `itn`.
pub open spec fn is_parse_tree(root: GreenNode, itn: Seq<Seq<char>>, s: Seq<char>) -> bool {
    &&& root is Interior
    &&& node_kind(root) == SyntaxKind::Root
    &&& leaves_match(interior_children(root), itn, spec_leaves(s, 0))
}

/// The diagnostics `msgs` are, in order, exactly the messages for the
/// failure regions `regions`.
pub open spec fn errors_report(msgs: Seq<Seq<char>>, regions: Seq<Seq<char>>) -> bool {
    &&& msgs.len() == regions.len()
    &&& forall|j: int| 0 <= j < msgs.len() ==> msgs[j] == error_message(#[trigger] regions[j])
}

/// The text of a sequence of leaves: their texts concatenated in order.
pub open spec fn concat_texts(ls: Seq<(SyntaxKind, Seq<char>)>) -> Seq<char>
    decreases ls.len(),
{
    if ls.len() == 0 {
        Seq::empty()
    } else {
        ls[0].1 + concat_texts(ls.drop_first())
    }
}

/// Concatenating one more leaf appends its text.
pub proof fn lemma_concat_texts_push(ls: Seq<(SyntaxKind, Seq<char>)>, x: (SyntaxKind, Seq<char>))
    ensures
        concat_texts(ls.push(x)) == concat_texts(ls) + x.1,
    decreases ls.len(),
{
    if ls.len() == 0 {
        assert(ls.push(x).drop_first() =~= Seq::<(SyntaxKind, Seq<char>)>::empty());
        assert(ls.push(x)[0] == x);
        assert(concat_texts(ls.push(x)) == x.1 + concat_texts(Seq::<(SyntaxKind, Seq<char>)>::empty()));
        assert(x.1 + Seq::<char>::empty() =~= x.1);
        assert(Seq::<char>::empty() + x.1 =~= x.1);
    } else {
        assert(ls.push(x)[0] == ls[0]);
        assert(ls.push(x).drop_first() =~= ls.drop_first().push(x));
        assert(concat_texts(ls.push(x)) == ls[0].1 + concat_texts(ls.drop_first().push(x)));
        lemma_concat_texts_push(ls.drop_first(), x);
        assert((ls[0].1 + concat_texts(ls.drop_first())) + x.1 =~= ls[0].1 + (concat_texts(
            ls.drop_first(),
        ) + x.1));
    }
}

/// The kind and text a child of the root contributes: a leaf's interned
/// text resolved through the interner contents `itn`; anything else — an
/// interior child, or an identifier the interner never handed out —
/// contributes no text.
pub open spec fn leaf_data(c: GreenNode, itn: Seq<Seq<char>>) -> (SyntaxKind, Seq<char>) {
    match c {
        GreenNode::Leaf { kind, text_id } => (
            kind,
            if text_id < itn.len() {
                itn[text_id as int]
            } else {
                Seq::empty()
            },
        ),
        GreenNode::Interior { kind, .. } => (kind, Seq::empty()),
    }
}

/// The leaves of `root`, each with its text resolved through `itn`.
pub open spec fn resolved_leaves(root: GreenNode, itn: Seq<Seq<char>>) -> Seq<
    (SyntaxKind, Seq<char>),
> {
    interior_children(root).map(|j: int, c: GreenNode| leaf_data(c, itn))
}

/// Everything one parse call hands out: the immutable tree, the interner
/// its leaves index, and the diagnostics in encounter order.
#[derive(Debug)]
pub struct ParseOutcome {
    /// The finished tree, rooted at the sole `Root` node.
    pub root: GreenNode,
    /// The interner resolving the tree's leaf texts.
    pub interner: Interner,
    /// One message per failure region, in encounter order; empty when every
    /// character of the input was consumed by a recognized rule.
    pub errors: Vec<String>,
}

impl ParseOutcome {
    /// The source text the tree preserves: the texts of the root's leaves,
    /// resolved through the interner and concatenated in document order.
    /// For a parse without diagnostics this is the input itself
    /// ([`crate::laws::lemma_parse_tree_reconstruction`]).
    pub fn reconstruct(&self) -> (r: String)
        ensures
            r@ == concat_texts(resolved_leaves(self.root, self.interner@)),
    {
        let ghost rl = resolved_leaves(self.root, self.interner@);
        let mut out = String::new();
        match &self.root {
            GreenNode::Interior { kind: _, children } => {
                let n = children.len();
                let mut i: usize = 0;
                while i < n
                    invariant
                        i <= n,
                        n == children@.len(),
                        children@ == interior_children(self.root),
                        rl == resolved_leaves(self.root, self.interner@),
                        rl.len() == n,
                        out@ == concat_texts(rl.take(i as int)),
                    decreases n - i,
                {
                    let ghost out0 = out@;
                    proof {
                        assert(rl[i as int] == leaf_data(children@[i as int], self.interner@));
                    }
                    match &children[i] {
                        GreenNode::Leaf { kind: _, text_id } => {
                            match self.interner.resolve(*text_id) {
                                Some(t) => {
                                    out.append(t.as_str());
                                },
                                None => {},
                            }
                        },
                        GreenNode::Interior { .. } => {},
                    }
                    proof {
                        assert(out@ =~= out0 + rl[i as int].1);
                        lemma_concat_texts_push(rl.take(i as int), rl[i as int]);
                        assert(rl.take(i as int + 1) =~= rl.take(i as int).push(rl[i as int]));
                    }
                    i = i + 1;
                }
                proof {
                    assert(rl.take(n as int) =~= rl);
                }
            },
            GreenNode::Leaf { .. } => {
                proof {
                    assert(rl =~= Seq::<(SyntaxKind, Seq<char>)>::empty());
                }
            },
        }
        out
    }
}

/// One parse pass over one input: a tokenizer, a tree builder and the
/// diagnostics collected so far.
pub struct Parser {
    lexer: Lexer,
    builder: GreenNodeBuilder,
    errors: Vec<String>,
}

impl Parser {
    /// The input text this parser scans.
    pub closed spec fn input_view(self) -> Seq<char> {
        self.lexer.input_view()
    }

    /// The tokenizer's cursor.
    pub closed spec fn lexer_pos(self) -> int {
        self.lexer.pos_spec()
    }

    /// The tokenizer's state is well formed.
    pub closed spec fn lexer_wf(self) -> bool {
        self.lexer.wf()
    }

    /// The builder's open nodes.
    pub closed spec fn open_frames(self) -> Seq<(SyntaxKind, Seq<GreenNode>)> {
        self.builder.frames()
    }

    /// The completed top-level node, once the pass has run.
    pub closed spec fn completed_root(self) -> Option<GreenNode> {
        self.builder.completed_root()
    }

    /// The texts interned so far.
    pub closed spec fn interner_view(self) -> Seq<Seq<char>> {
        self.builder.interner_view()
    }

    /// The interner holds no text twice.
    pub closed spec fn interner_wf(self) -> bool {
        self.builder.interner_wf()
    }

    /// How many nodes the pass has opened.
    pub closed spec fn starts_count(self) -> nat {
        self.builder.starts_count()
    }

    /// How many nodes the pass has closed.
    pub closed spec fn finishes_count(self) -> nat {
        self.builder.finishes_count()
    }

    /// The diagnostics recorded so far.
    pub closed spec fn errors_view(self) -> Seq<Seq<char>> {
        self.errors.deep_view()
    }

    /// A parser that has not run yet: cursor at the start, no open or
    /// completed node, nothing interned, no diagnostics. [`Parser::parse`]
    /// runs on exactly such a parser, once.
    pub open spec fn fresh(self) -> bool {
        &&& self.lexer_wf()
        &&& self.lexer_pos() == 0
        &&& self.open_frames().len() == 0
        &&& self.completed_root() is None
        &&& self.interner_view().len() == 0
        &&& self.interner_wf()
        &&& self.starts_count() == 0
        &&& self.finishes_count() == 0
        &&& self.errors_view().len() == 0
    }

    /// A parser over `input`, ready for its one [`Parser::parse`] call.
    pub fn new(input: &str) -> (r: Parser)
        ensures
            r.fresh(),
            r.input_view() == input@,
    {
        Parser {
            lexer: Token::lexer(input),
            builder: GreenNodeBuilder::new(),
            errors: Vec::new(),
        }
    }

    /// One full parse pass, iterative and non-reentrant: open `Root`, route
    /// every token, record a diagnostic for every failure region, close
    /// `Root` at end of input. Never fails; the worst outcome is a tree
    /// without the failed regions plus a non-empty diagnostic list.
    ///
    /// After the pass the number of opened nodes equals the number of closed
    /// ones, exactly one closing completed the top-level `Root`, the tree's
    /// leaves are exactly [`spec_leaves`] of the input, and the diagnostics
    /// are exactly the messages for [`spec_error_regions`] of the input.
    pub fn parse(&mut self) -> (r: Result<(), String>)
        requires
            old(self).fresh(),
        ensures
            r is Ok,
            final(self).input_view() == old(self).input_view(),
            final(self).open_frames().len() == 0,
            final(self).starts_count() == final(self).finishes_count(),
            final(self).interner_wf(),
            match final(self).completed_root() {
                Some(root) => is_parse_tree(
                    root,
                    final(self).interner_view(),
                    old(self).input_view(),
                ),
                None => false,
            },
            errors_report(final(self).errors_view(), spec_error_regions(old(self).input_view(), 0)),
    {
        let ghost s = self.lexer.input_view();
        self.builder.start_node(SyntaxKind::Root);
        let ghost mut done: Seq<(SyntaxKind, Seq<char>)> = Seq::empty();
        let ghost mut done_errs: Seq<Seq<char>> = Seq::empty();
        proof {
            assert(spec_leaves(s, 0) =~= done + spec_leaves(s, 0));
            assert(spec_error_regions(s, 0) =~= done_errs + spec_error_regions(s, 0));
        }
        loop
            invariant
                self.lexer.wf(),
                self.lexer.input_view() == s,
                0 <= self.lexer.pos_spec() <= s.len(),
                self.builder.frames().len() == 1,
                self.builder.frames()[0].0 == SyntaxKind::Root,
                self.builder.completed_root() is None,
                self.builder.interner_wf(),
                self.builder.starts_count() == 1,
                self.builder.finishes_count() == 0,
                leaves_match(self.builder.frames()[0].1, self.builder.interner_view(), done),
                spec_leaves(s, 0) == done + spec_leaves(s, self.lexer.pos_spec()),
                errors_report(self.errors.deep_view(), done_errs),
                spec_error_regions(s, 0) == done_errs + spec_error_regions(
                    s,
                    self.lexer.pos_spec(),
                ),
            ensures
                self.lexer.wf(),
                self.lexer.input_view() == s,
                self.lexer.pos_spec() == s.len(),
                self.builder.frames().len() == 1,
                self.builder.frames()[0].0 == SyntaxKind::Root,
                self.builder.completed_root() is None,
                self.builder.interner_wf(),
                self.builder.starts_count() == 1,
                self.builder.finishes_count() == 0,
                leaves_match(self.builder.frames()[0].1, self.builder.interner_view(), done),
                spec_leaves(s, 0) == done + spec_leaves(s, s.len() as int),
                errors_report(self.errors.deep_view(), done_errs),
                spec_error_regions(s, 0) == done_errs + spec_error_regions(s, s.len() as int),
            decreases s.len() - self.lexer.pos_spec(),
        {
            let ghost pos0 = self.lexer.pos_spec();
            let tok_opt = self.lexer.next();
            match tok_opt {
                None => {
                    break ;
                },
                Some(Ok(tok)) => {
                    proof {
                        lemma_token_at(s, pos0);
                    }
                    let ghost pos1 = self.lexer.pos_spec();
                    let ghost item = (leaf_kind_of(tok), s.subrange(pos0, pos1));
                    let ghost b0 = self.builder;
                    let sl = self.lexer.slice();
                    match tok {
                        Token::Comment => self.builder.token(SyntaxKind::Comment, sl),
                        Token::Newline => self.builder.token(SyntaxKind::Newline, sl),
                        Token::Whitespace => self.builder.token(SyntaxKind::Whitespace, sl),
                        Token::Expr => parse_expr(sl, &mut self.builder),
                    }
                    proof {
                        assert(token_effect(b0, self.builder, leaf_kind_of(tok), item.1));
                        let itn0 = b0.interner_view();
                        let itn1 = self.builder.interner_view();
                        let cs0 = b0.frames()[0].1;
                        let cs1 = self.builder.frames()[0].1;
                        let done0 = done;
                        done = done.push(item);
                        assert(b0.frames().last() == b0.frames()[0]);
                        assert(self.builder.frames().last() == self.builder.frames()[0]);
                        assert forall|j: int| 0 <= j < cs1.len() implies leaf_matches(
                            #[trigger] cs1[j],
                            itn1,
                            done[j],
                        ) by {
                            if j < cs0.len() {
                                assert(cs1[j] == cs0[j]);
                                assert(leaf_matches(cs0[j], itn0, done0[j]));
                                assert(done[j] == done0[j]);
                            }
                        }
                        assert(spec_leaves(s, pos0) == seq![item] + spec_leaves(s, pos1));
                        assert(done0 + (seq![item] + spec_leaves(s, pos1)) =~= done + spec_leaves(
                            s,
                            pos1,
                        ));
                        assert(spec_error_regions(s, pos0) == spec_error_regions(s, pos1));
                    }
                },
                Some(Err(_)) => {
                    proof {
                        lemma_failure_end(s, pos0);
                    }
                    let ghost pos1 = self.lexer.pos_spec();
                    let ghost region = s.subrange(pos0, pos1);
                    let sl = self.lexer.slice();
                    let mut msg = String::from_str("Error parsing token: '");
                    msg.append(sl);
                    msg.append("'");
                    let ghost errs0 = self.errors.deep_view();
                    self.errors.push(msg);
                    proof {
                        assert(self.errors.deep_view() =~= errs0.push(msg@));
                        assert(msg@ == error_message(region));
                        let de0 = done_errs;
                        done_errs = done_errs.push(region);
                        assert forall|j: int| 0 <= j < self.errors.deep_view().len() implies self
                            .errors.deep_view()[j] == error_message(
                            #[trigger] done_errs[j],
                        ) by {
                            if j < de0.len() {
                                assert(errs0[j] == error_message(de0[j]));
                            }
                        }
                        assert(spec_error_regions(s, pos0) == seq![region] + spec_error_regions(
                            s,
                            pos1,
                        ));
                        assert(de0 + (seq![region] + spec_error_regions(s, pos1)) =~= done_errs
                            + spec_error_regions(s, pos1));
                        assert(spec_leaves(s, pos0) == spec_leaves(s, pos1));
                    }
                },
            }
        }
        self.builder.finish_node();
        proof {
            assert(spec_leaves(s, s.len() as int) =~= Seq::<(SyntaxKind, Seq<char>)>::empty());
            assert(done + spec_leaves(s, s.len() as int) =~= done);
            assert(spec_error_regions(s, s.len() as int) =~= Seq::<Seq<char>>::empty());
            assert(done_errs + spec_error_regions(s, s.len() as int) =~= done_errs);
        }
        Ok(())
    }

    /// Hand out the finished tree, the interner and the diagnostics; valid
    /// only after the one [`Parser::parse`] call, and consumes the parser.
    pub fn finish(self) -> (r: ParseOutcome)
        requires
            self.completed_root() is Some,
        ensures
            r.root == self.completed_root().unwrap(),
            r.interner@ == self.interner_view(),
            self.interner_wf() ==> r.interner.wf(),
            r.errors.deep_view() == self.errors_view(),
    {
        let Parser { lexer: _, builder, errors } = self;
        let (root, interner) = builder.finish();
        ParseOutcome { root, interner, errors }
    }
}

} // verus!
