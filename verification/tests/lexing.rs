use flagq::lexer::{is_ident_char, Lexer, TokenKind};

fn kinds(src: &str) -> Vec<TokenKind> {
    Lexer::new(src).tokenize().unwrap().into_iter().map(|t| t.kind).collect()
}

#[test]
fn tokenizes_a_flag_header() {
    let toks = Lexer::new("flag new-checkout {\n    default: off\n}").tokenize().unwrap();
    let got: Vec<(TokenKind, usize, usize)> =
        toks.into_iter().map(|t| (t.kind, t.line, t.col)).collect();
    assert_eq!(
        got,
        vec![
            (TokenKind::Ident("flag".to_string()), 1, 1),
            (TokenKind::Ident("new-checkout".to_string()), 1, 6),
            (TokenKind::LBrace, 1, 19),
            (TokenKind::Ident("default".to_string()), 2, 5),
            (TokenKind::Colon, 2, 12),
            (TokenKind::Ident("off".to_string()), 2, 14),
            (TokenKind::RBrace, 3, 1),
            (TokenKind::Eof, 3, 2),
        ]
    );
}

#[test]
fn operators_and_strings() {
    assert_eq!(
        kinds("a = \"x\" b != c < d <= e > f >= g"),
        vec![
            TokenKind::Ident("a".to_string()),
            TokenKind::Equal,
            TokenKind::Str("x".to_string()),
            TokenKind::Ident("b".to_string()),
            TokenKind::NotEqual,
            TokenKind::Ident("c".to_string()),
            TokenKind::Lt,
            TokenKind::Ident("d".to_string()),
            TokenKind::Le,
            TokenKind::Ident("e".to_string()),
            TokenKind::Gt,
            TokenKind::Ident("f".to_string()),
            TokenKind::Ge,
            TokenKind::Ident("g".to_string()),
            TokenKind::Eof,
        ]
    );
}

#[test]
fn comments_and_whitespace_are_skipped() {
    assert_eq!(
        kinds("# a comment\n\t x # another\n"),
        vec![TokenKind::Ident("x".to_string()), TokenKind::Eof]
    );
    assert_eq!(kinds(""), vec![TokenKind::Eof]);
}

#[test]
fn escapes_in_strings() {
    assert_eq!(
        kinds(r#""a\"b\\c\nd""#),
        vec![TokenKind::Str("a\"b\\c\nd".to_string()), TokenKind::Eof]
    );
}

#[test]
fn eof_position_after_trailing_newline() {
    let toks = Lexer::new("x\n").tokenize().unwrap();
    assert_eq!(toks.len(), 2);
    assert_eq!((toks[1].line, toks[1].col), (2, 1));
}

#[test]
fn bang_without_equals_is_an_error() {
    let e = Lexer::new("a ! b").tokenize().unwrap_err();
    assert_eq!((e.line, e.col, e.message.as_str()), (1, 3, "expected `=` after `!`"));
}

#[test]
fn unterminated_string_points_at_quote() {
    let e = Lexer::new("x\n  \"abc").tokenize().unwrap_err();
    assert_eq!((e.line, e.col, e.message.as_str()), (2, 3, "unterminated string literal"));
    let e = Lexer::new("\"abc\\").tokenize().unwrap_err();
    assert_eq!((e.line, e.col, e.message.as_str()), (1, 1, "unterminated string literal"));
}

#[test]
fn unknown_escape_points_at_escape() {
    let e = Lexer::new("\"ab\\qc\"").tokenize().unwrap_err();
    assert_eq!((e.line, e.col, e.message.as_str()), (1, 5, "unknown escape sequence '\\q'"));
    let e = Lexer::new("x \"a\\\nb\"").tokenize().unwrap_err();
    assert_eq!((e.line, e.col, e.message.as_str()), (1, 6, "unknown escape sequence '\\\n'"));
    let e = Lexer::new("\"\\\n").tokenize().unwrap_err();
    assert_eq!((e.line, e.col), (1, 3));
}

#[test]
fn unexpected_character() {
    let e = Lexer::new("flag x {\n  @").tokenize().unwrap_err();
    assert_eq!((e.line, e.col, e.message.as_str()), (2, 3, "unexpected character '@'"));
    let e = Lexer::new("a $").tokenize().unwrap_err();
    assert_eq!(e.message, "unexpected character '$'");
}

#[test]
fn identifier_characters() {
    assert!(is_ident_char('a'));
    assert!(is_ident_char('Z'));
    assert!(is_ident_char('7'));
    assert!(is_ident_char('-'));
    assert!(is_ident_char('_'));
    assert!(is_ident_char('é'));
    assert!(!is_ident_char('.'));
    assert!(!is_ident_char(' '));
    assert!(!is_ident_char('"'));
}

#[test]
fn unicode_identifiers_and_whitespace() {
    assert_eq!(
        kinds("größe\u{00A0}ja"),
        vec![TokenKind::Ident("größe".to_string()), TokenKind::Ident("ja".to_string()), TokenKind::Eof]
    );
}

#[test]
fn describe_names_tokens() {
    assert_eq!(TokenKind::Ident("x".to_string()).describe(), "`x`");
    assert_eq!(TokenKind::Str("x".to_string()).describe(), "\"x\"");
    assert_eq!(TokenKind::LBrace.describe(), "`{`");
    assert_eq!(TokenKind::RBrace.describe(), "`}`");
    assert_eq!(TokenKind::Colon.describe(), "`:`");
    assert_eq!(TokenKind::Equal.describe(), "`=`");
    assert_eq!(TokenKind::NotEqual.describe(), "`!=`");
    assert_eq!(TokenKind::Lt.describe(), "`<`");
    assert_eq!(TokenKind::Le.describe(), "`<=`");
    assert_eq!(TokenKind::Gt.describe(), "`>`");
    assert_eq!(TokenKind::Ge.describe(), "`>=`");
    assert_eq!(TokenKind::Percent.describe(), "`%`");
    assert_eq!(TokenKind::Eof.describe(), "end of file");
}

#[test]
fn percent_sign_is_a_token() {
    assert_eq!(
        kinds("user_id rollout 25%"),
        vec![
            TokenKind::Ident("user_id".to_string()),
            TokenKind::Ident("rollout".to_string()),
            TokenKind::Ident("25".to_string()),
            TokenKind::Percent,
            TokenKind::Eof
        ]
    );
}

fn placed(src: &str) -> Result<Vec<(TokenKind, usize, usize)>, (usize, usize, String)> {
    Lexer::new(src)
        .tokenize()
        .map(|ts| ts.into_iter().map(|t| (t.kind, t.line, t.col)).collect())
        .map_err(|e| (e.line, e.col, e.message))
}

#[test]
fn comment_reads_as_line_break() {
    for (s1, c, s2) in [
        ("flag a {", " a comment { \"", "  default: on }"),
        ("x <", "", "= y"),
        ("abc", "def", "ghi"),
        ("rule # already a comment", " more", "on"),
        ("", "top", "flag b { default: off }"),
        ("a", "b", "\"open"),
    ] {
        let with_comment = format!("{}#{}\n{}", s1, c, s2);
        let bare = format!("{}\n{}", s1, s2);
        assert_eq!(placed(&with_comment), placed(&bare), "{:?}", (s1, c, s2));
    }
}
