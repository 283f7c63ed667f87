//! The token data model: kinds, lexemes, positions, lexical errors, and the
//! keyword table.

use vstd::prelude::*;

verus! {

/// The closed set of token kinds.
#[derive(Clone, Copy, Debug, PartialEq, Eq, Structural)]
pub enum TokenKind {
    Identifier,
    Integer,
    HexInteger,
    Double,
    StringLiteral,
    From,
    Import,
    Fun,
    Mut,
    BraceOpen,
    BraceClose,
    Semicolon,
    ParenOpen,
    ParenClose,
    Colon,
    Dot,
    Equals,
    EqualTo,
    Greater,
    GreaterEqual,
    Less,
    LessEqual,
    NotEqual,
    Exclamation,
    Plus,
    Minus,
    Asterisk,
    ForwardSlash,
}

/// A token: a kind together with the exact source substring that produced it.
/// Fixed tokens (punctuation, operators, keywords) carry their fixed spelling
/// as lexeme for uniformity.
#[derive(Clone, Debug, PartialEq, Eq)]
pub struct Token {
    pub kind: TokenKind,
    pub lexeme: String,
}

/// A (line, column) position in the source, used in error reports.
#[derive(Clone, Copy, Debug, PartialEq, Eq, Structural)]
pub struct Pos {
    pub line: usize,
    pub col: usize,
}

/// A failure detected while recognizing a single token.
#[derive(Clone, Copy, Debug, PartialEq, Eq, Structural)]
pub enum LexError {
    /// A character that starts no valid token.
    UnexpectedCharacter(char, Pos),
    /// A hexadecimal prefix not followed by at least one hexadecimal digit.
    MissingHexDigit(Pos),
    /// A fractional separator not followed by a decimal digit.
    MissingFractionalDigit(Pos),
    /// A string literal not closed before the input ends.
    UnterminatedString(Pos),
}

/// The mathematical value of a token: its kind and its lexeme as a
/// character sequence.
pub struct SpecToken {
    pub kind: TokenKind,
    pub lexeme: Seq<char>,
}

/// The model of an executable token.
pub open spec fn tok_model(t: Token) -> SpecToken {
    SpecToken { kind: t.kind, lexeme: t.lexeme@ }
}

/// The model of a token sequence.
pub open spec fn toks_model(ts: Seq<Token>) -> Seq<SpecToken> {
    ts.map(|i: int, t: Token| tok_model(t))
}

/// Relies on `String`'s `FromIterator` over characters: the collected
/// string holds exactly the given characters, in order.
#[verifier::external_body]
pub(crate) fn chars_to_string(cs: &Vec<char>) -> (r: String)
    ensures
        r@ == cs@,
{
    cs.iter().collect()
}

/// The spelling of the keyword `from`.
pub open spec fn kw_from() -> Seq<char> {
    seq!['f', 'r', 'o', 'm']
}

/// The spelling of the keyword `import`.
pub open spec fn kw_import() -> Seq<char> {
    seq!['i', 'm', 'p', 'o', 'r', 't']
}

/// The spelling of the keyword `fun`.
pub open spec fn kw_fun() -> Seq<char> {
    seq!['f', 'u', 'n']
}

/// The spelling of the keyword `mut`.
pub open spec fn kw_mut() -> Seq<char> {
    seq!['m', 'u', 't']
}

/// The keyword table: the reserved spellings and their kinds.  Lookup is
/// exact and case-sensitive; every other word is an identifier.
pub open spec fn spec_keyword(w: Seq<char>) -> Option<TokenKind> {
    if w == kw_from() {
        Some(TokenKind::From)
    } else if w == kw_import() {
        Some(TokenKind::Import)
    } else if w == kw_fun() {
        Some(TokenKind::Fun)
    } else if w == kw_mut() {
        Some(TokenKind::Mut)
    } else {
        None
    }
}

} // verus!
