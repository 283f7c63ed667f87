use vilex::lexer::Lexer;
use vilex::token::{LexError, Pos, Token, TokenKind};

fn scan(src: &str) -> Result<Vec<Token>, LexError> {
    let mut lex = Lexer::from_text(src.to_string());
    lex.analyze()
}

fn toks(src: &str) -> Vec<Token> {
    scan(src).expect("expected a successful scan")
}

fn tok(kind: TokenKind, lexeme: &str) -> Token {
    Token { kind, lexeme: lexeme.to_string() }
}

#[test]
fn whitespace_only_is_empty() {
    assert_eq!(toks(""), vec![]);
    assert_eq!(toks("   "), vec![]);
    assert_eq!(toks(" \t \r  "), vec![]);
    assert_eq!(toks("\n\n\n"), vec![]);
    assert_eq!(toks("  \n\t\n   \n"), vec![]);
}

#[test]
fn plain_identifier() {
    assert_eq!(toks("hello"), vec![tok(TokenKind::Identifier, "hello")]);
    assert_eq!(toks("_under_score1"), vec![tok(TokenKind::Identifier, "_under_score1")]);
    assert_eq!(toks("abc123"), vec![tok(TokenKind::Identifier, "abc123")]);
}

#[test]
fn identifier_keeps_exact_lexeme_case_sensitively() {
    assert_eq!(toks("From"), vec![tok(TokenKind::Identifier, "From")]);
    assert_eq!(toks("FUN"), vec![tok(TokenKind::Identifier, "FUN")]);
    assert_eq!(toks("fromage"), vec![tok(TokenKind::Identifier, "fromage")]);
    assert_eq!(toks("importx"), vec![tok(TokenKind::Identifier, "importx")]);
    assert_eq!(toks("mutt"), vec![tok(TokenKind::Identifier, "mutt")]);
}

#[test]
fn unicode_identifier() {
    assert_eq!(toks("caf\u{e9}"), vec![tok(TokenKind::Identifier, "caf\u{e9}")]);
}

#[test]
fn keywords_never_identifier() {
    assert_eq!(toks("from"), vec![tok(TokenKind::From, "from")]);
    assert_eq!(toks("import"), vec![tok(TokenKind::Import, "import")]);
    assert_eq!(toks("fun"), vec![tok(TokenKind::Fun, "fun")]);
    assert_eq!(toks("mut"), vec![tok(TokenKind::Mut, "mut")]);
    for t in toks("from import fun mut") {
        assert_ne!(t.kind, TokenKind::Identifier);
    }
}

#[test]
fn integer_token() {
    assert_eq!(toks("123"), vec![tok(TokenKind::Integer, "123")]);
    assert_eq!(toks("9"), vec![tok(TokenKind::Integer, "9")]);
    assert_eq!(toks("42 "), vec![tok(TokenKind::Integer, "42")]);
}

#[test]
fn double_token() {
    assert_eq!(toks("12.5"), vec![tok(TokenKind::Double, "12.5")]);
    assert_eq!(toks("0.25"), vec![tok(TokenKind::Double, "0.25")]);
}

#[test]
fn hex_integer_token() {
    assert_eq!(toks("0x1A"), vec![tok(TokenKind::HexInteger, "0x1A")]);
    assert_eq!(toks("0xdeadBEEF"), vec![tok(TokenKind::HexInteger, "0xdeadBEEF")]);
}

#[test]
fn missing_hex_digit() {
    assert_eq!(scan("0x"), Err(LexError::MissingHexDigit(Pos { line: 1, col: 0 })));
    assert_eq!(scan("0xg"), Err(LexError::MissingHexDigit(Pos { line: 0, col: 2 })));
}

#[test]
fn missing_fractional_digit() {
    assert_eq!(scan("12."), Err(LexError::MissingFractionalDigit(Pos { line: 1, col: 0 })));
    assert_eq!(scan("12.x"), Err(LexError::MissingFractionalDigit(Pos { line: 0, col: 3 })));
}

#[test]
fn string_literal_keeps_quotes() {
    assert_eq!(toks("\"hello\""), vec![tok(TokenKind::StringLiteral, "\"hello\"")]);
    assert_eq!(toks("\"\""), vec![tok(TokenKind::StringLiteral, "\"\"")]);
}

#[test]
fn string_with_escaped_quote_does_not_terminate_early() {
    assert_eq!(toks("\"a\\\"b\""), vec![tok(TokenKind::StringLiteral, "\"a\\\"b\"")]);
}

#[test]
fn unterminated_string() {
    assert_eq!(scan("\"unterminated"), Err(LexError::UnterminatedString(Pos { line: 1, col: 0 })));
}

#[test]
fn two_char_operators_are_single_tokens() {
    assert_eq!(toks("=="), vec![tok(TokenKind::EqualTo, "==")]);
    assert_eq!(toks(">="), vec![tok(TokenKind::GreaterEqual, ">=")]);
    assert_eq!(toks("<="), vec![tok(TokenKind::LessEqual, "<=")]);
    assert_eq!(toks("!="), vec![tok(TokenKind::NotEqual, "!=")]);
}

#[test]
fn lone_operators() {
    assert_eq!(toks("="), vec![tok(TokenKind::Equals, "=")]);
    assert_eq!(toks(">"), vec![tok(TokenKind::Greater, ">")]);
    assert_eq!(toks("<"), vec![tok(TokenKind::Less, "<")]);
    assert_eq!(toks("!"), vec![tok(TokenKind::Exclamation, "!")]);
    assert_eq!(toks("a ="), vec![tok(TokenKind::Identifier, "a"), tok(TokenKind::Equals, "=")]);
}

#[test]
fn punctuation_tokens() {
    assert_eq!(
        toks("{ } ; ( ) : . + - * /"),
        vec![
            tok(TokenKind::BraceOpen, "{"),
            tok(TokenKind::BraceClose, "}"),
            tok(TokenKind::Semicolon, ";"),
            tok(TokenKind::ParenOpen, "("),
            tok(TokenKind::ParenClose, ")"),
            tok(TokenKind::Colon, ":"),
            tok(TokenKind::Dot, "."),
            tok(TokenKind::Plus, "+"),
            tok(TokenKind::Minus, "-"),
            tok(TokenKind::Asterisk, "*"),
            tok(TokenKind::ForwardSlash, "/"),
        ]
    );
}

#[test]
fn unexpected_character() {
    assert_eq!(scan("@"), Err(LexError::UnexpectedCharacter('@', Pos { line: 0, col: 0 })));
    assert_eq!(scan("ab #"), Err(LexError::UnexpectedCharacter('#', Pos { line: 0, col: 3 })));
}

#[test]
fn error_positions_report_line_and_column() {
    assert_eq!(scan("ok\n@"), Err(LexError::UnexpectedCharacter('@', Pos { line: 1, col: 0 })));
    assert_eq!(scan("ab cd @"), Err(LexError::UnexpectedCharacter('@', Pos { line: 0, col: 6 })));
}

#[test]
fn comment_contributes_no_token() {
    assert_eq!(
        toks("a // comment\nb"),
        vec![tok(TokenKind::Identifier, "a"), tok(TokenKind::Identifier, "b")]
    );
    assert_eq!(toks("// only a comment"), vec![]);
    assert_eq!(toks("// one\n// two\n"), vec![]);
}

#[test]
fn division_is_not_a_comment() {
    assert_eq!(
        toks("a / b"),
        vec![
            tok(TokenKind::Identifier, "a"),
            tok(TokenKind::ForwardSlash, "/"),
            tok(TokenKind::Identifier, "b"),
        ]
    );
}

#[test]
fn scanning_twice_is_identical() {
    let src = "from x import y; fun f(a: 1.5) { a == 0x2B } // tail";
    let mut first = Lexer::from_text(src.to_string());
    let mut second = Lexer::from_text(src.to_string());
    assert_eq!(first.analyze(), second.analyze());
}

#[test]
fn lexemes_account_for_every_character_without_separators() {
    let src = "fun(name){mut:x.y+z*w;}";
    let mut joined = String::new();
    for t in toks(src) {
        joined.push_str(&t.lexeme);
    }
    assert_eq!(joined, src);
}

#[test]
fn mixed_statement() {
    assert_eq!(
        toks("from math import pi;\nmut x = 0x1F + 2.5;"),
        vec![
            tok(TokenKind::From, "from"),
            tok(TokenKind::Identifier, "math"),
            tok(TokenKind::Import, "import"),
            tok(TokenKind::Identifier, "pi"),
            tok(TokenKind::Semicolon, ";"),
            tok(TokenKind::Mut, "mut"),
            tok(TokenKind::Identifier, "x"),
            tok(TokenKind::Equals, "="),
            tok(TokenKind::HexInteger, "0x1F"),
            tok(TokenKind::Plus, "+"),
            tok(TokenKind::Double, "2.5"),
            tok(TokenKind::Semicolon, ";"),
        ]
    );
}

#[test]
fn new_from_lines() {
    let mut lex = Lexer::new(vec!["a b ".to_string(), "c".to_string()]);
    assert_eq!(
        lex.analyze().unwrap(),
        vec![
            tok(TokenKind::Identifier, "a"),
            tok(TokenKind::Identifier, "b"),
            tok(TokenKind::Identifier, "c"),
        ]
    );
}

#[test]
fn cursor_crosses_line_boundaries_transparently() {
    // The source is a sequence of lines without separator characters, and
    // the cursor crosses a line end transparently, so a run of identifier
    // characters continues over the boundary.
    let mut lex = Lexer::new(vec!["ab".to_string(), "cd".to_string()]);
    assert_eq!(lex.analyze().unwrap(), vec![tok(TokenKind::Identifier, "abcd")]);
}

#[test]
fn empty_lines_are_crossed() {
    assert_eq!(
        toks("a \n\n b"),
        vec![tok(TokenKind::Identifier, "a"), tok(TokenKind::Identifier, "b")]
    );
}
