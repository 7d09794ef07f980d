use script_cst::green::GreenNode;
use script_cst::lexer::Token;
use script_cst::parser::{ParseOutcome, Parser};
use script_cst::syntax::SyntaxKind;

/// The (kind, text) pairs of the root's leaves, in document order.
fn leaves(outcome: &ParseOutcome) -> Vec<(SyntaxKind, String)> {
    match &outcome.root {
        GreenNode::Interior { kind, children } => {
            assert_eq!(*kind, SyntaxKind::Root);
            let mut out: Vec<(SyntaxKind, String)> = Vec::new();
            for child in children {
                match child {
                    GreenNode::Leaf { kind, text_id } => {
                        let text = outcome.interner.resolve(*text_id).unwrap().clone();
                        out.push((*kind, text));
                    }
                    GreenNode::Interior { .. } => panic!("expected a leaf under the root"),
                }
            }
            out
        }
        GreenNode::Leaf { .. } => panic!("expected the root to be an interior node"),
    }
}

fn parse(input: &str) -> ParseOutcome {
    let mut parser = Parser::new(input);
    parser.parse().unwrap();
    parser.finish()
}


#[test]
fn test_lexer() {
    let input = "select * from contact where id = '123';\n\n-- test comment\n\nselect wrong statement;\n\nselect id,username from contact\n\nselect id,name\nfrom contact -- test inline comment\nwhere id = '123';\n\n";

    let mut lex = Token::lexer(&input);

    assert_eq!(lex.next(), Some(Ok(Token::Expr)));
    assert_eq!(lex.slice(), "select * from contact where id = '123';");

    assert_eq!(lex.next(), Some(Ok(Token::Newline)));

    assert_eq!(lex.next(), Some(Ok(Token::Comment)));
    assert_eq!(lex.slice(), "-- test comment");

    assert_eq!(lex.next(), Some(Ok(Token::Newline)));

    assert_eq!(lex.next(), Some(Ok(Token::Expr)));
    assert_eq!(lex.slice(), "select wrong statement;");

    assert_eq!(lex.next(), Some(Ok(Token::Newline)));

    assert_eq!(lex.next(), Some(Ok(Token::Expr)));
    assert_eq!(lex.slice(), "select id,username from contact\n\nselect id,name\nfrom contact -- test inline comment\nwhere id = '123';");
}

#[test]
fn lexer_reports_unterminated_statement() {
    let mut lex = Token::lexer("select 1");
    assert_eq!(lex.next(), Some(Err(())));
    assert_eq!(lex.slice(), "select 1");
    assert_eq!(lex.next(), None);
}

#[test]
fn lexer_hands_out_whitespace_tokens() {
    let mut lex = Token::lexer("a; \t\x0C b;");
    assert_eq!(lex.next(), Some(Ok(Token::Expr)));
    assert_eq!(lex.slice(), "a;");
    assert_eq!(lex.next(), Some(Ok(Token::Whitespace)));
    assert_eq!(lex.slice(), " \t\x0C ");
    assert_eq!(lex.next(), Some(Ok(Token::Expr)));
    assert_eq!(lex.slice(), "b;");
    assert_eq!(lex.next(), None);
}

#[test]
fn statement_then_newline() {
    let outcome = parse("select * from t;\n");
    assert_eq!(
        leaves(&outcome),
        vec![
            (SyntaxKind::Statement, String::from("select * from t;")),
            (SyntaxKind::Newline, String::from("\n")),
        ]
    );
    assert_eq!(outcome.errors.len(), 0);
}

#[test]
fn block_comment_then_statement() {
    let outcome = parse("/* c */\nselect 1;");
    assert_eq!(
        leaves(&outcome),
        vec![
            (SyntaxKind::Comment, String::from("/* c */")),
            (SyntaxKind::Newline, String::from("\n")),
            (SyntaxKind::Statement, String::from("select 1;")),
        ]
    );
    assert_eq!(outcome.errors.len(), 0);
}

#[test]
fn line_comment_then_statement() {
    let outcome = parse("-- hi\nselect 1;");
    assert_eq!(
        leaves(&outcome),
        vec![
            (SyntaxKind::Comment, String::from("-- hi")),
            (SyntaxKind::Newline, String::from("\n")),
            (SyntaxKind::Statement, String::from("select 1;")),
        ]
    );
    assert_eq!(outcome.errors.len(), 0);
}

#[test]
fn unterminated_statement_reports_one_error() {
    let outcome = parse("select 1");
    assert_eq!(leaves(&outcome).len(), 0);
    assert_eq!(outcome.errors.len(), 1);
    assert_eq!(outcome.errors[0], "Error parsing token: 'select 1'");
}

#[test]
fn spacing_between_statements_reconstructs() {
    let input = "select 1;  select 2;";
    let outcome = parse(input);
    assert_eq!(
        leaves(&outcome),
        vec![
            (SyntaxKind::Statement, String::from("select 1;")),
            (SyntaxKind::Whitespace, String::from("  ")),
            (SyntaxKind::Statement, String::from("select 2;")),
        ]
    );
    assert_eq!(outcome.reconstruct(), input);
    assert_eq!(outcome.errors.len(), 0);
}

#[test]
fn empty_input_gives_bare_root() {
    let outcome = parse("");
    assert_eq!(leaves(&outcome).len(), 0);
    assert_eq!(outcome.errors.len(), 0);
}

#[test]
fn interner_shares_repeated_text() {
    let outcome = parse("a;\na;\na;");
    assert_eq!(
        leaves(&outcome),
        vec![
            (SyntaxKind::Statement, String::from("a;")),
            (SyntaxKind::Newline, String::from("\n")),
            (SyntaxKind::Statement, String::from("a;")),
            (SyntaxKind::Newline, String::from("\n")),
            (SyntaxKind::Statement, String::from("a;")),
        ]
    );
    assert_eq!(outcome.interner.len(), 2);
}

#[test]
fn bad_region_recovers_before_trivia() {
    let outcome = parse("?\nselect 1;");
    assert_eq!(
        leaves(&outcome),
        vec![
            (SyntaxKind::Newline, String::from("\n")),
            (SyntaxKind::Statement, String::from("select 1;")),
        ]
    );
    assert_eq!(outcome.errors, vec![String::from("Error parsing token: '?'")]);
}

#[test]
fn unclosed_block_comment_is_an_error() {
    let outcome = parse("/* abc");
    assert_eq!(leaves(&outcome), vec![(SyntaxKind::Whitespace, String::from(" "))]);
    assert_eq!(
        outcome.errors,
        vec![
            String::from("Error parsing token: '/*'"),
            String::from("Error parsing token: 'abc'"),
        ]
    );
}

#[test]
fn tight_block_comment_closes_at_first_close() {
    let outcome = parse("/**/x;/***/");
    assert_eq!(
        leaves(&outcome),
        vec![
            (SyntaxKind::Comment, String::from("/**/")),
            (SyntaxKind::Statement, String::from("x;")),
            (SyntaxKind::Comment, String::from("/***/")),
        ]
    );
    assert_eq!(outcome.errors.len(), 0);
}

#[test]
fn line_comment_at_end_of_input() {
    let outcome = parse("-- hi");
    assert_eq!(leaves(&outcome), vec![(SyntaxKind::Comment, String::from("-- hi"))]);
    assert_eq!(outcome.errors.len(), 0);
}

#[test]
fn lone_semicolon_is_an_error() {
    let outcome = parse(";");
    assert_eq!(leaves(&outcome).len(), 0);
    assert_eq!(outcome.errors, vec![String::from("Error parsing token: ';'")]);
}

#[test]
fn reconstruction_is_exact_without_errors() {
    let inputs = [
        "select * from t;\n",
        "/* c */\nselect 1;",
        "-- hi\nselect 1;",
        "a; \t\x0C b;\n\n-- done",
        "",
    ];
    for input in inputs {
        let outcome = parse(input);
        assert_eq!(outcome.errors.len(), 0);
        assert_eq!(outcome.reconstruct(), input);
    }
}

#[test]
fn reparsing_a_reconstruction_changes_nothing() {
    let input = "/* c */\nselect 1;  select 2;\n-- done\n";
    let first = parse(input);
    assert_eq!(first.errors.len(), 0);
    let rebuilt = first.reconstruct();
    assert_eq!(rebuilt, input);
    let second = parse(&rebuilt);
    assert_eq!(leaves(&first), leaves(&second));
    assert_eq!(second.errors.len(), 0);
}
