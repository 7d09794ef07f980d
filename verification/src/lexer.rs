//! The tokenizer: classifies the remaining input at the current offset into
//! trivia (comments, newlines, spacing) and statement spans, or reports a
//! lexical failure and resynchronizes.
//!
//! The pattern classes are disjoint by their first character, so at any
//! offset at most one class matches, and each class takes its longest match:
//! * a statement span begins with an identifier-class character and extends,
//!   across any characters including line breaks, up to and including the
//!   first `;`; with no `;` before end of input the rule never matches;
//! * a newline token is a maximal run of `\n`;
//! * a comment is either `/* ... */` (non-nesting, the first `*/` closes it)
//!   or `--` up to, but not including, the next line break;
//! * a whitespace token is a maximal run of space, tab or form feed.
//!
//! A region matching none of the classes is reported as one failure: an
//! identifier-class start with no `;` ahead is an unterminated statement and
//! covers the rest of the input (its would-be span), any other bad region
//! extends to the next offset where a token or an unterminated statement
//! begins. Scanning never halts on a bad region.

use vstd::prelude::*;

verus! {

/// Classification of one span of input text, as the tokenizer hands it out.
#[derive(Debug, Clone, Copy, PartialEq, Eq, Structural)]
pub enum Token {
    /// A statement span: identifier-class start, up to and including `;`.
    Expr,
    /// A maximal run of line breaks.
    Newline,
    /// A block comment `/* ... */` or a line comment `-- ...`.
    Comment,
    /// A maximal run of inter-token spacing (space, tab, form feed).
    Whitespace,
}

/// Identifier-class characters, the ones a statement span may begin with.
pub open spec fn is_ident_char(c: char) -> bool {
    ('a' <= c && c <= 'z') || ('A' <= c && c <= 'Z') || ('0' <= c && c <= '9') || c == '_'
}

/// Inter-token spacing characters: space, tab, form feed.
pub open spec fn is_space_char(c: char) -> bool {
    c == ' ' || c == '\t' || c == '\x0C'
}

/// End (exclusive) of the run of spacing characters that starts at `i`.
pub open spec fn space_run_end(s: Seq<char>, i: int) -> int
    decreases s.len() - i,
{
    if i < 0 || i >= s.len() || !is_space_char(s[i]) {
        i
    } else {
        space_run_end(s, i + 1)
    }
}

/// End (exclusive) of the run of line breaks that starts at `i`.
pub open spec fn newline_run_end(s: Seq<char>, i: int) -> int
    decreases s.len() - i,
{
    if i < 0 || i >= s.len() || s[i] != '\n' {
        i
    } else {
        newline_run_end(s, i + 1)
    }
}

/// Position of the next line break at or after `i`, or the input's end:
/// where a line comment whose text continues at `i` stops.
pub open spec fn line_comment_end(s: Seq<char>, i: int) -> int
    decreases s.len() - i,
{
    if i < 0 || i >= s.len() {
        s.len() as int
    } else if s[i] == '\n' {
        i
    } else {
        line_comment_end(s, i + 1)
    }
}

/// Position of the first `;` at or after `i`, or the input's length when
/// there is none.
pub open spec fn semi_search(s: Seq<char>, i: int) -> int
    decreases s.len() - i,
{
    if i < 0 || i >= s.len() {
        s.len() as int
    } else if s[i] == ';' {
        i
    } else {
        semi_search(s, i + 1)
    }
}

/// End (exclusive) of the block comment whose body search starts at `i`:
/// the position just after the first `*/` at or after `i`, or `None` when
/// the comment is never closed.
pub open spec fn block_close_end(s: Seq<char>, i: int) -> Option<int>
    decreases s.len() - i,
{
    if i < 0 || i + 1 >= s.len() {
        None
    } else if s[i] == '*' && s[i + 1] == '/' {
        Some(i + 2)
    } else {
        block_close_end(s, i + 1)
    }
}

/// The token starting at offset `i` of `s`, with its end (exclusive), or
/// `None` when no pattern class matches there. The classes are disjoint by
/// their first character, so this is the whole rule table.
pub open spec fn token_at(s: Seq<char>, i: int) -> Option<(Token, int)> {
    if i < 0 || i >= s.len() {
        None
    } else if is_space_char(s[i]) {
        Some((Token::Whitespace, space_run_end(s, i)))
    } else if s[i] == '\n' {
        Some((Token::Newline, newline_run_end(s, i)))
    } else if s[i] == '-' && i + 1 < s.len() && s[i + 1] == '-' {
        Some((Token::Comment, line_comment_end(s, i + 2)))
    } else if s[i] == '/' && i + 1 < s.len() && s[i + 1] == '*' {
        match block_close_end(s, i + 2) {
            Some(e) => Some((Token::Comment, e)),
            None => None,
        }
    } else if is_ident_char(s[i]) && semi_search(s, i + 1) < s.len() {
        Some((Token::Expr, semi_search(s, i + 1) + 1))
    } else {
        None
    }
}

/// First offset at or after `j` where either a token or an unterminated
/// statement begins, or the input's end: where a failure region stops.
pub open spec fn resync_pos(s: Seq<char>, j: int) -> int
    decreases s.len() - j,
{
    if j < 0 || j >= s.len() {
        s.len() as int
    } else if token_at(s, j) is Some || is_ident_char(s[j]) {
        j
    } else {
        resync_pos(s, j + 1)
    }
}

/// End (exclusive) of the failure region starting at `i`, for an `i` where
/// no token matches. An identifier-class start (an unterminated statement)
/// covers its would-be span, the rest of the input; any other bad region
/// extends to the next recognizable boundary.
pub open spec fn failure_end(s: Seq<char>, i: int) -> int {
    if 0 <= i < s.len() && is_ident_char(s[i]) {
        s.len() as int
    } else {
        resync_pos(s, i + 1)
    }
}

proof fn lemma_space_run_end(s: Seq<char>, i: int)
    requires
        0 <= i <= s.len(),
    ensures
        i <= space_run_end(s, i) <= s.len(),
    decreases s.len() - i,
{
    if i < s.len() && is_space_char(s[i]) {
        lemma_space_run_end(s, i + 1);
    }
}

proof fn lemma_newline_run_end(s: Seq<char>, i: int)
    requires
        0 <= i <= s.len(),
    ensures
        i <= newline_run_end(s, i) <= s.len(),
    decreases s.len() - i,
{
    if i < s.len() && s[i] == '\n' {
        lemma_newline_run_end(s, i + 1);
    }
}

proof fn lemma_line_comment_end(s: Seq<char>, i: int)
    requires
        0 <= i <= s.len(),
    ensures
        i <= line_comment_end(s, i) <= s.len(),
    decreases s.len() - i,
{
    if i < s.len() && s[i] != '\n' {
        lemma_line_comment_end(s, i + 1);
    }
}

proof fn lemma_semi_search(s: Seq<char>, i: int)
    requires
        0 <= i <= s.len(),
    ensures
        i <= semi_search(s, i) <= s.len(),
    decreases s.len() - i,
{
    if i < s.len() && s[i] != ';' {
        lemma_semi_search(s, i + 1);
    }
}

proof fn lemma_block_close_end(s: Seq<char>, i: int)
    requires
        0 <= i,
    ensures
        match block_close_end(s, i) {
            Some(e) => i + 2 <= e <= s.len(),
            None => true,
        },
    decreases s.len() - i,
{
    if i + 1 < s.len() && !(s[i] == '*' && s[i + 1] == '/') {
        lemma_block_close_end(s, i + 1);
    }
}

/// A token never has an empty span and never runs past the input's end.
pub proof fn lemma_token_at(s: Seq<char>, i: int)
    ensures
        match token_at(s, i) {
            Some((t, e)) => 0 <= i < e <= s.len(),
            None => true,
        },
{
    if 0 <= i < s.len() {
        if is_space_char(s[i]) {
            lemma_space_run_end(s, i + 1);
        } else if s[i] == '\n' {
            lemma_newline_run_end(s, i + 1);
        } else if s[i] == '-' && i + 1 < s.len() && s[i + 1] == '-' {
            lemma_line_comment_end(s, i + 2);
        } else if s[i] == '/' && i + 1 < s.len() && s[i + 1] == '*' {
            lemma_block_close_end(s, i + 2);
        } else if is_ident_char(s[i]) {
            lemma_semi_search(s, i + 1);
        }
    }
}

proof fn lemma_resync_pos(s: Seq<char>, j: int)
    requires
        0 <= j <= s.len(),
    ensures
        j <= resync_pos(s, j) <= s.len(),
    decreases s.len() - j,
{
    if j < s.len() && !(token_at(s, j) is Some || is_ident_char(s[j])) {
        lemma_resync_pos(s, j + 1);
    }
}

/// A failure region never is empty and never runs past the input's end.
pub proof fn lemma_failure_end(s: Seq<char>, i: int)
    requires
        0 <= i < s.len(),
        token_at(s, i) is None,
    ensures
        i < failure_end(s, i) <= s.len(),
{
    lemma_resync_pos(s, i + 1);
}

fn is_ident_char_exec(c: char) -> (r: bool)
    ensures
        r == is_ident_char(c),
{
    ('a' <= c && c <= 'z') || ('A' <= c && c <= 'Z') || ('0' <= c && c <= '9') || c == '_'
}

fn is_space_char_exec(c: char) -> (r: bool)
    ensures
        r == is_space_char(c),
{
    c == ' ' || c == '\t' || c == '\x0C'
}

/// Longest-match classification of the input at offset `i`: the rule table
/// of [`token_at`], run on real text.
fn match_at(s: &str, i: usize) -> (r: Option<(Token, usize)>)
    requires
        i < s@.len(),
    ensures
        match r {
            Some((t, e)) => token_at(s@, i as int) == Some::<(Token, int)>((t, e as int)),
            None => token_at(s@, i as int) is None,
        },
{
    let len = s.unicode_len();
    let c = s.get_char(i);
    if is_space_char_exec(c) {
        let mut j = i;
        while j < len && is_space_char_exec(s.get_char(j))
            invariant
                i <= j <= len,
                len == s@.len(),
                space_run_end(s@, i as int) == space_run_end(s@, j as int),
            decreases len - j,
        {
            j = j + 1;
        }
        Some((Token::Whitespace, j))
    } else if c == '\n' {
        let mut j = i;
        while j < len && s.get_char(j) == '\n'
            invariant
                i <= j <= len,
                len == s@.len(),
                newline_run_end(s@, i as int) == newline_run_end(s@, j as int),
            decreases len - j,
        {
            j = j + 1;
        }
        Some((Token::Newline, j))
    } else if c == '-' {
        if i + 1 < len && s.get_char(i + 1) == '-' {
            let mut j = i + 2;
            while j < len && s.get_char(j) != '\n'
                invariant
                    i + 2 <= j <= len,
                    len == s@.len(),
                    line_comment_end(s@, i + 2) == line_comment_end(s@, j as int),
                decreases len - j,
            {
                j = j + 1;
            }
            Some((Token::Comment, j))
        } else {
            None
        }
    } else if c == '/' {
        if i + 1 < len && s.get_char(i + 1) == '*' {
            let mut j = i + 2;
            loop
                invariant
                    i + 2 <= j <= len,
                    len == s@.len(),
                    block_close_end(s@, i + 2) == block_close_end(s@, j as int),
                ensures
                    i + 2 <= j <= len,
                    match block_close_end(s@, i + 2) {
                        Some(e) => j + 2 == e && j + 1 < len && s@[j as int] == '*' && s@[j
                            + 1] == '/',
                        None => j + 1 >= len,
                    },
                decreases len - j,
            {
                if len - j < 2 {
                    break ;
                }
                if s.get_char(j) == '*' && s.get_char(j + 1) == '/' {
                    break ;
                }
                j = j + 1;
            }
            if len - j >= 2 {
                Some((Token::Comment, j + 2))
            } else {
                None
            }
        } else {
            None
        }
    } else if is_ident_char_exec(c) {
        let mut j = i + 1;
        while j < len && s.get_char(j) != ';'
            invariant
                i + 1 <= j <= len,
                len == s@.len(),
                semi_search(s@, i + 1) == semi_search(s@, j as int),
            decreases len - j,
        {
            j = j + 1;
        }
        if j < len {
            Some((Token::Expr, j + 1))
        } else {
            None
        }
    } else {
        None
    }
}

/// The tokenizer's mutable state: the text, the cursor, and the span of the
/// token or failure handed out last.
pub struct Lexer {
    input: String,
    pos: usize,
    tok_start: usize,
    tok_end: usize,
}

impl Lexer {
    /// The input text being scanned.
    pub closed spec fn input_view(self) -> Seq<char> {
        self.input@
    }

    /// The cursor: every offset before it has been consumed.
    pub closed spec fn pos_spec(self) -> int {
        self.pos as int
    }

    /// Start of the span handed out by the last call of [`Lexer::next`].
    pub closed spec fn tok_start_spec(self) -> int {
        self.tok_start as int
    }

    /// End (exclusive) of the span handed out by the last call of
    /// [`Lexer::next`].
    pub closed spec fn tok_end_spec(self) -> int {
        self.tok_end as int
    }

    /// Cursor and span lie within the input.
    pub closed spec fn wf(self) -> bool {
        &&& self.pos <= self.input@.len()
        &&& self.tok_start <= self.tok_end <= self.input@.len()
    }

    /// Classify the input at the cursor and advance past it: the next token
    /// (`Some(Ok(..))`), the next failure region (`Some(Err(..))`), or `None`
    /// at end of input. The span handed out is retrieved with
    /// [`Lexer::slice`].
    pub fn next(&mut self) -> (r: Option<Result<Token, ()>>)
        requires
            old(self).wf(),
        ensures
            final(self).wf(),
            final(self).input_view() == old(self).input_view(),
            match r {
                None => {
                    &&& old(self).pos_spec() == old(self).input_view().len()
                    &&& final(self).pos_spec() == old(self).pos_spec()
                    &&& final(self).tok_start_spec() == old(self).tok_start_spec()
                    &&& final(self).tok_end_spec() == old(self).tok_end_spec()
                },
                Some(Ok(t)) => {
                    &&& token_at(old(self).input_view(), old(self).pos_spec()) == Some::<
                        (Token, int),
                    >((t, final(self).pos_spec()))
                    &&& final(self).tok_start_spec() == old(self).pos_spec()
                    &&& final(self).tok_end_spec() == final(self).pos_spec()
                    &&& old(self).pos_spec() < final(self).pos_spec()
                },
                Some(Err(_)) => {
                    &&& token_at(old(self).input_view(), old(self).pos_spec()) is None
                    &&& old(self).pos_spec() < old(self).input_view().len()
                    &&& final(self).pos_spec() == failure_end(
                        old(self).input_view(),
                        old(self).pos_spec(),
                    )
                    &&& final(self).tok_start_spec() == old(self).pos_spec()
                    &&& final(self).tok_end_spec() == final(self).pos_spec()
                    &&& old(self).pos_spec() < final(self).pos_spec()
                },
            },
    {
        let len = self.input.as_str().unicode_len();
        if self.pos >= len {
            return None;
        }
        let ghost s = self.input@;
        let ghost pos0 = self.pos as int;
        match match_at(self.input.as_str(), self.pos) {
            Some((t, e)) => {
                proof {
                    lemma_token_at(s, pos0);
                }
                self.tok_start = self.pos;
                self.tok_end = e;
                self.pos = e;
                Some(Ok(t))
            },
            None => {
                let c = self.input.as_str().get_char(self.pos);
                let mut j: usize;
                if is_ident_char_exec(c) {
                    j = len;
                } else {
                    j = self.pos + 1;
                    loop
                        invariant
                            pos0 + 1 <= j <= len,
                            len == s.len(),
                            s == self.input@,
                            resync_pos(s, pos0 + 1) == resync_pos(s, j as int),
                        ensures
                            pos0 + 1 <= j <= len,
                            j as int == resync_pos(s, pos0 + 1),
                        decreases len - j,
                    {
                        if j >= len {
                            break ;
                        }
                        let cj = self.input.as_str().get_char(j);
                        if is_ident_char_exec(cj) {
                            break ;
                        }
                        if match_at(self.input.as_str(), j).is_some() {
                            break ;
                        }
                        j = j + 1;
                    }
                }
                self.tok_start = self.pos;
                self.tok_end = j;
                self.pos = j;
                Some(Err(()))
            },
        }
    }

    /// The text of the token or failure region handed out by the last call
    /// of [`Lexer::next`]; empty before the first call.
    pub fn slice(&self) -> (r: &str)
        requires
            self.wf(),
        ensures
            r@ == self.input_view().subrange(self.tok_start_spec(), self.tok_end_spec()),
    {
        self.input.as_str().substring_char(self.tok_start, self.tok_end)
    }
}

impl Token {
    /// A tokenizer over `input`, its cursor at the start.
    pub fn lexer(input: &str) -> (r: Lexer)
        ensures
            r.wf(),
            r.input_view() == input@,
            r.pos_spec() == 0,
            r.tok_start_spec() == 0,
            r.tok_end_spec() == 0,
    {
        Lexer { input: String::from_str(input), pos: 0, tok_start: 0, tok_end: 0 }
    }
}

} // verus!
