use sqldoc::annotation::StatementAnnotations;
use sqldoc::completion::WrappingNode;
use sqldoc::parser::{Parser, ParserEvent};
use sqldoc::statement_parser::{lex_at, merge_tokens, parse_statement, ScannedToken, StatementToken};
use sqldoc::syntax_kind::{SyntaxKind, Token};
use sqldoc::text_range::TextRange;

fn scanned(start: u32, end: u32, kind: u32) -> ScannedToken {
    ScannedToken { start, end, kind }
}

fn tok(kind: SyntaxKind, text: &str, start: u32) -> Token {
    Token { kind, text: text.to_string(), span: TextRange::new(start, start + text.chars().count() as u32) }
}

#[test]
fn fallback_lexer_reads_whitespace_and_comments() {
    let t: Vec<u8> = "  \n\n\t-- x\n/* a * b */;".as_bytes().to_vec();
    assert_eq!(lex_at(&t, 0), Some((StatementToken::Whitespace, 2)));
    assert_eq!(lex_at(&t, 2), Some((StatementToken::Newline, 2)));
    assert_eq!(lex_at(&t, 4), Some((StatementToken::Tab, 1)));
    assert_eq!(lex_at(&t, 5), Some((StatementToken::Comment, 4)));
    assert_eq!(lex_at(&t, 10), Some((StatementToken::Comment, 11)));
    assert_eq!(lex_at(&t, 21), None);
    let open: Vec<u8> = "/* open".as_bytes().to_vec();
    assert_eq!(lex_at(&open, 0), None);
    assert_eq!(StatementToken::Comment.syntax_kind(), SyntaxKind::Comment);
    assert_eq!(StatementToken::Tab.syntax_kind(), SyntaxKind::Tab);
}

#[test]
fn merges_structured_and_fallback_tokens() {
    let text = "select  1; -- x";
    let s = vec![scanned(0, 6, 1), scanned(8, 9, 2), scanned(9, 10, 3)];
    let tokens = merge_tokens(text, &s).unwrap();
    let got: Vec<(SyntaxKind, String, u32, u32)> = tokens.iter().map(|t| (t.kind, t.text.clone(), t.span.start, t.span.end)).collect();
    assert_eq!(
        got,
        vec![
            (SyntaxKind::Token(1), "select".to_string(), 0, 6),
            (SyntaxKind::Whitespace, "  ".to_string(), 6, 8),
            (SyntaxKind::Token(2), "1".to_string(), 8, 9),
            (SyntaxKind::Token(3), ";".to_string(), 9, 10),
            (SyntaxKind::Whitespace, " ".to_string(), 10, 11),
            (SyntaxKind::Comment, "-- x".to_string(), 11, 15),
        ]
    );
    let joined: String = tokens.iter().map(|t| t.text.as_str()).collect();
    assert_eq!(joined, text);
}

#[test]
fn merge_fails_on_a_gap_no_lexer_reads() {
    let s = vec![scanned(0, 6, 1)];
    assert_eq!(merge_tokens("select x", &s).err(), Some(6));
    let overlapping = vec![scanned(0, 6, 1), scanned(5, 7, 2)];
    assert!(merge_tokens("select 1", &overlapping).is_err());
}

#[test]
fn builds_a_lossless_tree() {
    let text = "select 1;\n";
    let s = vec![scanned(0, 6, 1), scanned(7, 8, 2), scanned(8, 9, 3)];
    let p = parse_statement(text, &s, Some(42));
    assert_eq!(p.depth, 0);
    let n = p.tokens.len();
    assert_eq!(n, 5);
    let mut expected = vec![ParserEvent::StartNode(SyntaxKind::Node(42))];
    expected.extend((0..n).map(ParserEvent::Token));
    expected.push(ParserEvent::FinishNode);
    assert_eq!(p.events, expected);
    let rebuilt: String = p.events.iter().filter_map(|e| match e {
        ParserEvent::Token(i) => Some(p.tokens[*i].text.clone()),
        _ => None,
    }).collect();
    assert_eq!(rebuilt, text);
    let failed = parse_statement("select select;", &vec![scanned(0, 6, 1), scanned(7, 13, 1), scanned(13, 14, 3)], None);
    assert_eq!(failed.events[0], ParserEvent::StartNode(SyntaxKind::Stmt));
}

#[test]
fn whitespace_joins_the_next_node() {
    let tokens = vec![
        tok(SyntaxKind::Token(1), "a", 0),
        tok(SyntaxKind::Whitespace, " ", 1),
        tok(SyntaxKind::Token(2), "b", 2),
    ];
    let mut p = Parser::new(tokens);
    assert_eq!(p.token_range(), 0..3);
    p.start_node(SyntaxKind::Node(1));
    p.advance();
    p.advance();
    assert_eq!(p.events.len(), 2);
    p.start_node(SyntaxKind::Node(2));
    p.advance();
    p.finish_node();
    p.finish_node();
    assert!(p.eof());
    assert_eq!(
        p.events,
        vec![
            ParserEvent::StartNode(SyntaxKind::Node(1)),
            ParserEvent::Token(0),
            ParserEvent::Token(1),
            ParserEvent::StartNode(SyntaxKind::Node(2)),
            ParserEvent::Token(2),
            ParserEvent::FinishNode,
            ParserEvent::FinishNode,
        ]
    );
    assert_eq!(p.nth(0, false).kind, SyntaxKind::Eof);
    assert_eq!(p.nth(0, false).span, TextRange::new(3, 3));
}

#[test]
fn lookahead_buffer_rewinds() {
    let tokens = vec![
        tok(SyntaxKind::Token(1), "a", 0),
        tok(SyntaxKind::Whitespace, " ", 1),
        tok(SyntaxKind::Comment, "--c", 2),
        tok(SyntaxKind::Newline, "\n", 5),
        tok(SyntaxKind::Token(2), "b", 6),
    ];
    let mut p = Parser::new(tokens);
    assert!(p.at(SyntaxKind::Token(1)));
    assert_eq!(p.nth(1, true).kind, SyntaxKind::Token(2));
    assert_eq!(p.nth(1, false).kind, SyntaxKind::Whitespace);
    assert_eq!(p.nth(2, true).kind, SyntaxKind::Eof);
    assert!(p.at_any(&[SyntaxKind::Token(3), SyntaxKind::Token(1)]));
    assert!(p.at_all(&[SyntaxKind::Token(1), SyntaxKind::Whitespace]));
    assert!(!p.at_all(&[SyntaxKind::Token(1), SyntaxKind::Comment]));
    let options: Vec<&[SyntaxKind]> = vec![&[SyntaxKind::Comment], &[SyntaxKind::Token(1), SyntaxKind::Whitespace]];
    assert!(p.at_any_all(&options));
    p.open_buffer();
    assert!(p.eat(SyntaxKind::Token(1)));
    p.eat_whitespace();
    assert!(!p.at_whitespace());
    let range = p.close_buffer();
    assert_eq!(range, 0..1);
    assert_eq!(p.pos, 0);
    assert!(p.events.is_empty());
    assert!(!p.eat(SyntaxKind::Token(2)));
    assert!(p.eat(SyntaxKind::Token(1)));
    assert_eq!(p.events, vec![ParserEvent::Token(0)]);
}

#[test]
fn annotates_semicolons() {
    let cases = [
        (vec![tok(SyntaxKind::Token(1), "SELECT", 0)], false),
        (vec![tok(SyntaxKind::Token(1), "x", 0), tok(SyntaxKind::Token(2), ";", 1)], true),
        (vec![tok(SyntaxKind::Token(2), ";", 0), tok(SyntaxKind::Whitespace, " ", 1), tok(SyntaxKind::Newline, "\n", 2)], true),
        (vec![tok(SyntaxKind::Token(2), ";", 0), tok(SyntaxKind::Comment, "--", 1)], false),
        (vec![], false),
    ];
    for (tokens, expected) in cases.iter() {
        assert_eq!(StatementAnnotations::from_tokens(tokens).ends_with_semicolon, *expected);
    }
}

#[test]
fn wrapping_nodes_by_kind() {
    assert_eq!(WrappingNode::from_kind("relation"), Ok(WrappingNode::Relation));
    assert_eq!(WrappingNode::from_kind("binary_expression"), Ok(WrappingNode::BinaryExpression));
    assert_eq!(WrappingNode::from_kind("assignment"), Ok(WrappingNode::Assignment));
    assert_eq!(WrappingNode::from_kind("list"), Ok(WrappingNode::List));
    assert_eq!(WrappingNode::from_kind("keyword"), Err("Unimplemented Relation: keyword".to_string()));
}

/// Stands in for the structured parser's scanner in the tests: `;` is a
/// token, and so is every run of other characters that are not spaces, tabs
/// or line breaks.
fn scan(text: &str) -> Vec<ScannedToken> {
    let chars: Vec<char> = text.bytes().map(|b| b as char).collect();
    let mut out = Vec::new();
    let mut i = 0;
    while i < chars.len() {
        if chars[i] == ' ' || chars[i] == '\n' || chars[i] == '\t' {
            i += 1;
            continue;
        }
        let start = i;
        if chars[i] == ';' {
            i += 1;
        } else {
            while i < chars.len() && !(chars[i] == ' ' || chars[i] == '\n' || chars[i] == '\t' || chars[i] == ';') {
                i += 1;
            }
        }
        let kind = if i - start == 1 && chars[start] == ';' { 59 } else { 1 };
        out.push(ScannedToken { start: start as u32, end: i as u32, kind });
    }
    out
}

fn tree_text(p: &Parser) -> String {
    p.events
        .iter()
        .filter_map(|e| match e {
            ParserEvent::Token(i) => Some(p.tokens[*i].text.clone()),
            _ => None,
        })
        .collect()
}

#[test]
fn test_invalid_statement() {
    let input = "select select;";
    let parsed = parse_statement(input, &scan(input), None);
    assert_eq!(tree_text(&parsed), input);
}

#[test]
fn test_create_sql_function() {
    let input = "CREATE FUNCTION dup(in int, out f1 int, out f2 text)
    AS $$ SELECT $1, CAST($1 AS text) || ' is text' $$
    LANGUAGE SQL;";
    let parsed = parse_statement(input, &scan(input), Some(7));
    assert_eq!(tree_text(&parsed), input);
}

#[test]
fn annotates_correctly() {
    let test_cases = [
        ("SELECT * FROM foo", false),
        ("SELECT * FROM foo;", true),
        ("SELECT * FROM foo ;", true),
        ("SELECT * FROM foo ; ", true),
        ("SELECT * FROM foo ;\n", true),
        ("SELECT * FROM foo\n", false),
    ];
    for (content, expected) in test_cases.iter() {
        let tokens = merge_tokens(content, &scan(content)).unwrap();
        let annotations = StatementAnnotations::from_tokens(&tokens);
        assert_eq!(annotations.ends_with_semicolon, *expected);
    }
}

#[test]
fn line_breaks_and_tabs_are_not_held_back() {
    let tokens = vec![
        tok(SyntaxKind::Token(1), "a", 0),
        tok(SyntaxKind::Whitespace, " ", 1),
        tok(SyntaxKind::Newline, "\n", 2),
        tok(SyntaxKind::Tab, "\t", 3),
        tok(SyntaxKind::Whitespace, " ", 4),
        tok(SyntaxKind::Token(2), "b", 5),
    ];
    let mut p = Parser::new(tokens);
    p.advance();
    p.advance();
    assert_eq!(p.whitespace_token_buffer, Some(1));
    assert!(!p.at_whitespace());
    p.advance();
    assert_eq!(p.whitespace_token_buffer, None);
    assert_eq!(p.events, vec![ParserEvent::Token(0), ParserEvent::Token(1), ParserEvent::Token(2)]);
    p.eat_whitespace();
    assert_eq!(p.pos, 5);
    assert_eq!(p.whitespace_token_buffer, Some(4));
    assert_eq!(p.events, vec![ParserEvent::Token(0), ParserEvent::Token(1), ParserEvent::Token(2), ParserEvent::Token(3)]);
    assert!(p.at_whitespace() == false);
    p.start_node(SyntaxKind::Node(1));
    assert_eq!(p.events[4], ParserEvent::Token(4));
    assert_eq!(p.events[5], ParserEvent::StartNode(SyntaxKind::Node(1)));
}

#[test]
fn token_spans_count_bytes() {
    let text = "select 'é'; -- ü";
    let s = vec![scanned(0, 6, 1), scanned(7, 11, 2), scanned(11, 12, 3)];
    let tokens = merge_tokens(text, &s).unwrap();
    let got: Vec<(String, u32, u32)> = tokens.iter().map(|t| (t.text.clone(), t.span.start, t.span.end)).collect();
    assert_eq!(
        got,
        vec![
            ("select".to_string(), 0, 6),
            (" ".to_string(), 6, 7),
            ("'é'".to_string(), 7, 11),
            (";".to_string(), 11, 12),
            (" ".to_string(), 12, 13),
            ("-- ü".to_string(), 13, 18),
        ]
    );
    assert!(merge_tokens(text, &vec![scanned(0, 6, 1), scanned(7, 9, 2), scanned(9, 12, 3)]).is_err());
}
