//! The mathematical scanner: one spec function per recognizer, defined by
//! recursion over the remaining characters.  The executable lexer is proved
//! to return exactly what these functions denote.

use vstd::prelude::*;

use crate::chars::{is_dec_digit, is_hex_digit, is_ident_continue, is_ident_start, is_whitespace};
use crate::cursor::{
    adv, at_end, canon, char_at, current_at, lemma_adv, lemma_norm, lemma_rem_nonneg,
    lemma_tail_norm, lemma_tail_step, norm, peek_at, pos_of, rem, tail_from, valid_at,
};
use crate::token::{spec_keyword, LexError, SpecToken, TokenKind};

verus! {

/// The canonical position of the first character that is not whitespace, or
/// the exhausted position.
pub open spec fn skip_ws_pos(lines: Seq<Seq<char>>, line: int, col: int) -> (int, int)
    decreases rem(lines, line, col),
        when canon(lines, line, col)
        via skip_ws_pos_dec
{
    if at_end(lines, line) {
        (line, col)
    } else if is_whitespace(char_at(lines, line, col)) {
        let (l2, c2) = adv(lines, line, col);
        skip_ws_pos(lines, l2, c2)
    } else {
        (line, col)
    }
}

#[via_fn]
proof fn skip_ws_pos_dec(lines: Seq<Seq<char>>, line: int, col: int) {
    if !at_end(lines, line) && is_whitespace(char_at(lines, line, col)) {
        lemma_adv(lines, line, col);
    }
}

/// Accumulates the run of identifier characters starting at the given
/// position onto `acc`; returns the accumulated word and the position after
/// the run.
pub open spec fn ident_rest(lines: Seq<Seq<char>>, line: int, col: int, acc: Seq<char>) -> (
    Seq<char>,
    int,
    int,
)
    decreases rem(lines, line, col),
        when canon(lines, line, col)
        via ident_rest_dec
{
    if at_end(lines, line) {
        (acc, line, col)
    } else {
        let c = char_at(lines, line, col);
        if is_ident_continue(c) {
            let (l2, c2) = adv(lines, line, col);
            ident_rest(lines, l2, c2, acc.push(c))
        } else {
            (acc, line, col)
        }
    }
}

#[via_fn]
proof fn ident_rest_dec(lines: Seq<Seq<char>>, line: int, col: int, acc: Seq<char>) {
    if !at_end(lines, line) && is_ident_continue(char_at(lines, line, col)) {
        lemma_adv(lines, line, col);
    }
}

/// Accumulates the run of ASCII decimal digits starting at the given
/// position onto `acc`.
pub open spec fn dec_digits(lines: Seq<Seq<char>>, line: int, col: int, acc: Seq<char>) -> (
    Seq<char>,
    int,
    int,
)
    decreases rem(lines, line, col),
        when canon(lines, line, col)
        via dec_digits_dec
{
    if at_end(lines, line) {
        (acc, line, col)
    } else {
        let c = char_at(lines, line, col);
        if is_dec_digit(c) {
            let (l2, c2) = adv(lines, line, col);
            dec_digits(lines, l2, c2, acc.push(c))
        } else {
            (acc, line, col)
        }
    }
}

#[via_fn]
proof fn dec_digits_dec(lines: Seq<Seq<char>>, line: int, col: int, acc: Seq<char>) {
    if !at_end(lines, line) && is_dec_digit(char_at(lines, line, col)) {
        lemma_adv(lines, line, col);
    }
}

/// Accumulates the run of ASCII hexadecimal digits starting at the given
/// position onto `acc`.
pub open spec fn hex_digits(lines: Seq<Seq<char>>, line: int, col: int, acc: Seq<char>) -> (
    Seq<char>,
    int,
    int,
)
    decreases rem(lines, line, col),
        when canon(lines, line, col)
        via hex_digits_dec
{
    if at_end(lines, line) {
        (acc, line, col)
    } else {
        let c = char_at(lines, line, col);
        if is_hex_digit(c) {
            let (l2, c2) = adv(lines, line, col);
            hex_digits(lines, l2, c2, acc.push(c))
        } else {
            (acc, line, col)
        }
    }
}

#[via_fn]
proof fn hex_digits_dec(lines: Seq<Seq<char>>, line: int, col: int, acc: Seq<char>) {
    if !at_end(lines, line) && is_hex_digit(char_at(lines, line, col)) {
        lemma_adv(lines, line, col);
    }
}

/// The identifier-or-keyword token starting at a valid position: the whole
/// alphanumeric-or-underscore run is accumulated, then looked up in the
/// keyword table; a hit gives the keyword kind, a miss an identifier.  The
/// lexeme is the matched word either way.
pub open spec fn scan_ident(lines: Seq<Seq<char>>, line: int, col: int) -> (SpecToken, (int, int)) {
    let c = char_at(lines, line, col);
    let (l1, c1) = adv(lines, line, col);
    let r = ident_rest(lines, l1, c1, seq![c]);
    let kind = match spec_keyword(r.0) {
        Some(k) => k,
        None => TokenKind::Identifier,
    };
    (SpecToken { kind: kind, lexeme: r.0 }, (r.1, r.2))
}

/// The hexadecimal branch of number recognition, entered at the `x` with the
/// leading digit already in `acc`: at least one hexadecimal digit must follow
/// the `x`, then further hexadecimal digits are consumed greedily.  The
/// lexeme includes the leading digit and the `x`.
pub open spec fn hexdigit_scan(lines: Seq<Seq<char>>, line: int, col: int, acc: Seq<char>) -> Result<
    (SpecToken, (int, int)),
    LexError,
> {
    let x = char_at(lines, line, col);
    let (l1, c1) = adv(lines, line, col);
    if !valid_at(lines, l1, c1) || !is_hex_digit(char_at(lines, l1, c1)) {
        Err(LexError::MissingHexDigit(pos_of(l1, c1)))
    } else {
        let r = hex_digits(lines, l1, c1, acc.push(x));
        Ok((SpecToken { kind: TokenKind::HexInteger, lexeme: r.0 }, (r.1, r.2)))
    }
}

/// The decimal branch of number recognition, entered after the leading digit
/// (already in `acc`): further digits are consumed greedily; a `.` followed
/// by a digit starts the fractional part of a double, a `.` not followed by
/// a digit is an error, and otherwise the token is an integer.
pub open spec fn digit_scan(lines: Seq<Seq<char>>, line: int, col: int, acc: Seq<char>) -> Result<
    (SpecToken, (int, int)),
    LexError,
> {
    let r = dec_digits(lines, line, col, acc);
    if valid_at(lines, r.1, r.2) && char_at(lines, r.1, r.2) == '.' {
        let (l2, c2) = adv(lines, r.1, r.2);
        if !valid_at(lines, l2, c2) || !is_dec_digit(char_at(lines, l2, c2)) {
            Err(LexError::MissingFractionalDigit(pos_of(l2, c2)))
        } else {
            let r2 = dec_digits(lines, l2, c2, r.0.push('.'));
            Ok((SpecToken { kind: TokenKind::Double, lexeme: r2.0 }, (r2.1, r2.2)))
        }
    } else {
        Ok((SpecToken { kind: TokenKind::Integer, lexeme: r.0 }, (r.1, r.2)))
    }
}

/// The number token starting at a valid position holding a decimal digit:
/// an `x` as the second character selects the hexadecimal branch, anything
/// else the decimal branch.
pub open spec fn number_scan(lines: Seq<Seq<char>>, line: int, col: int) -> Result<
    (SpecToken, (int, int)),
    LexError,
> {
    let d = char_at(lines, line, col);
    let (l1, c1) = adv(lines, line, col);
    if valid_at(lines, l1, c1) && char_at(lines, l1, c1) == 'x' {
        hexdigit_scan(lines, l1, c1, seq![d])
    } else {
        digit_scan(lines, l1, c1, seq![d])
    }
}

/// Accumulates string-literal characters onto `acc` until an unescaped `"`.
/// A `\` toggles the escape flag, any other character clears it; a `"` seen
/// with the flag clear terminates the literal (and is part of the lexeme).
/// Reaching the end of input first is an error.
pub open spec fn string_rest(
    lines: Seq<Seq<char>>,
    line: int,
    col: int,
    acc: Seq<char>,
    escape: bool,
) -> Result<(Seq<char>, (int, int)), LexError>
    decreases rem(lines, line, col),
        when canon(lines, line, col)
        via string_rest_dec
{
    if at_end(lines, line) {
        Err(LexError::UnterminatedString(pos_of(line, col)))
    } else {
        let c = char_at(lines, line, col);
        let acc2 = acc.push(c);
        let (l2, c2) = adv(lines, line, col);
        if c == '"' && !escape {
            Ok((acc2, (l2, c2)))
        } else if c == '\\' {
            string_rest(lines, l2, c2, acc2, !escape)
        } else {
            string_rest(lines, l2, c2, acc2, false)
        }
    }
}

#[via_fn]
proof fn string_rest_dec(
    lines: Seq<Seq<char>>,
    line: int,
    col: int,
    acc: Seq<char>,
    escape: bool,
) {
    if !at_end(lines, line) {
        lemma_adv(lines, line, col);
    }
}

/// The string-literal token starting at a valid position holding the opening
/// quote; both delimiting quotes are part of the lexeme.
pub open spec fn string_scan(lines: Seq<Seq<char>>, line: int, col: int) -> Result<
    (SpecToken, (int, int)),
    LexError,
> {
    let c = char_at(lines, line, col);
    let (l1, c1) = adv(lines, line, col);
    match string_rest(lines, l1, c1, seq![c], false) {
        Ok(p) => Ok((SpecToken { kind: TokenKind::StringLiteral, lexeme: p.0 }, p.1)),
        Err(e) => Err(e),
    }
}

/// The kind of the one-character token `c`, or `None` if `c` starts no
/// fixed token.
pub open spec fn single_kind(c: char) -> Option<TokenKind> {
    if c == '{' {
        Some(TokenKind::BraceOpen)
    } else if c == '}' {
        Some(TokenKind::BraceClose)
    } else if c == ';' {
        Some(TokenKind::Semicolon)
    } else if c == '(' {
        Some(TokenKind::ParenOpen)
    } else if c == ')' {
        Some(TokenKind::ParenClose)
    } else if c == ':' {
        Some(TokenKind::Colon)
    } else if c == '.' {
        Some(TokenKind::Dot)
    } else if c == '+' {
        Some(TokenKind::Plus)
    } else if c == '-' {
        Some(TokenKind::Minus)
    } else if c == '*' {
        Some(TokenKind::Asterisk)
    } else if c == '/' {
        Some(TokenKind::ForwardSlash)
    } else {
        None
    }
}

/// The punctuation or operator token starting at a valid position, with
/// one character of lookahead for the two-character operators; a character
/// that starts no token is an error.
pub open spec fn punct_scan(lines: Seq<Seq<char>>, line: int, col: int) -> Result<
    (SpecToken, (int, int)),
    LexError,
> {
    let c = char_at(lines, line, col);
    let one = adv(lines, line, col);
    match single_kind(c) {
        Some(k) => Ok((SpecToken { kind: k, lexeme: seq![c] }, one)),
        None => {
            if c == '=' || c == '>' || c == '<' || c == '!' {
                if peek_at(lines, line, col) == Some('=') {
                    let two = adv(lines, one.0, one.1);
                    let kind = if c == '=' {
                        TokenKind::EqualTo
                    } else if c == '>' {
                        TokenKind::GreaterEqual
                    } else if c == '<' {
                        TokenKind::LessEqual
                    } else {
                        TokenKind::NotEqual
                    };
                    Ok((SpecToken { kind: kind, lexeme: seq![c, '='] }, two))
                } else {
                    let kind = if c == '=' {
                        TokenKind::Equals
                    } else if c == '>' {
                        TokenKind::Greater
                    } else if c == '<' {
                        TokenKind::Less
                    } else {
                        TokenKind::Exclamation
                    };
                    Ok((SpecToken { kind: kind, lexeme: seq![c] }, one))
                }
            } else {
                Err(LexError::UnexpectedCharacter(c, pos_of(line, col)))
            }
        },
    }
}

/// One step of scanning from a canonical position: skip whitespace, then
/// dispatch on the current character; a line comment (`//`) discards the
/// rest of its line and scanning continues after it.  `Ok(None)` is the end
/// of input.
pub open spec fn read_next_at(lines: Seq<Seq<char>>, line: int, col: int) -> Result<
    Option<(SpecToken, (int, int))>,
    LexError,
>
    decreases rem(lines, line, col),
        when canon(lines, line, col)
        via read_next_at_dec
{
    let (l1, c1) = skip_ws_pos(lines, line, col);
    if at_end(lines, l1) {
        Ok(None)
    } else {
        let c = char_at(lines, l1, c1);
        if is_ident_start(c) {
            Ok(Some(scan_ident(lines, l1, c1)))
        } else if is_dec_digit(c) {
            match number_scan(lines, l1, c1) {
                Ok(tp) => Ok(Some(tp)),
                Err(e) => Err(e),
            }
        } else if c == '"' {
            match string_scan(lines, l1, c1) {
                Ok(tp) => Ok(Some(tp)),
                Err(e) => Err(e),
            }
        } else if c == '/' && peek_at(lines, l1, c1) == Some('/') {
            let (l2, c2) = adv(lines, l1, c1);
            let (l3, c3) = norm(lines, l2 + 1, 0);
            read_next_at(lines, l3, c3)
        } else {
            match punct_scan(lines, l1, c1) {
                Ok(tp) => Ok(Some(tp)),
                Err(e) => Err(e),
            }
        }
    }
}

#[via_fn]
proof fn read_next_at_dec(lines: Seq<Seq<char>>, line: int, col: int) {
    lemma_skip_ws(lines, line, col);
    let (l1, c1) = skip_ws_pos(lines, line, col);
    if !at_end(lines, l1) {
        let c = char_at(lines, l1, c1);
        if !is_ident_start(c) && !is_dec_digit(c) && c != '"' && c == '/' && peek_at(
            lines,
            l1,
            c1,
        ) == Some('/') {
            lemma_adv(lines, l1, c1);
            let (l2, c2) = adv(lines, l1, c1);
            lemma_norm(lines, l2 + 1, 0);
        }
    }
}

/// The whole scan from a canonical position: tokens are appended to `acc`
/// until the end of input; the first lexical error stops the scan and is the
/// result.
pub open spec fn scan_all(
    lines: Seq<Seq<char>>,
    line: int,
    col: int,
    acc: Seq<SpecToken>,
) -> Result<Seq<SpecToken>, LexError>
    decreases rem(lines, line, col),
        when canon(lines, line, col)
        via scan_all_dec
{
    match read_next_at(lines, line, col) {
        Ok(Some(tp)) => scan_all(lines, tp.1.0, tp.1.1, acc.push(tp.0)),
        Ok(None) => Ok(acc),
        Err(e) => Err(e),
    }
}

#[via_fn]
proof fn scan_all_dec(lines: Seq<Seq<char>>, line: int, col: int, acc: Seq<SpecToken>) {
    lemma_read_next(lines, line, col);
    match read_next_at(lines, line, col) {
        Ok(Some(tp)) => {
            lemma_rem_nonneg(lines, tp.1.0, tp.1.1);
            assert(canon(lines, tp.1.0, tp.1.1));
            assert(rem(lines, tp.1.0, tp.1.1) < rem(lines, line, col));
            assert(rem(lines, tp.1.0, tp.1.1) >= 0);
        },
        Ok(None) => {
        },
        Err(e) => {
        },
    }
}

/// Skipping whitespace reaches a canonical position, consumes no more than
/// the remaining characters, and stops at the end of input or at a
/// non-whitespace character.
pub proof fn lemma_skip_ws(lines: Seq<Seq<char>>, line: int, col: int)
    requires
        canon(lines, line, col),
    ensures
        ({
            let (l1, c1) = skip_ws_pos(lines, line, col);
            &&& canon(lines, l1, c1)
            &&& rem(lines, l1, c1) <= rem(lines, line, col)
            &&& (at_end(lines, l1) || (valid_at(lines, l1, c1) && !is_whitespace(
                char_at(lines, l1, c1),
            )))
        }),
    decreases rem(lines, line, col),
{
    if !at_end(lines, line) && is_whitespace(char_at(lines, line, col)) {
        lemma_adv(lines, line, col);
        let (l2, c2) = adv(lines, line, col);
        lemma_skip_ws(lines, l2, c2);
    }
}

/// The identifier run ends at a canonical position without consuming more
/// than the remaining characters.
pub proof fn lemma_ident_rest(lines: Seq<Seq<char>>, line: int, col: int, acc: Seq<char>)
    requires
        canon(lines, line, col),
    ensures
        ({
            let r = ident_rest(lines, line, col, acc);
            &&& canon(lines, r.1, r.2)
            &&& rem(lines, r.1, r.2) <= rem(lines, line, col)
        }),
    decreases rem(lines, line, col),
{
    if !at_end(lines, line) && is_ident_continue(char_at(lines, line, col)) {
        lemma_adv(lines, line, col);
        let (l2, c2) = adv(lines, line, col);
        lemma_ident_rest(lines, l2, c2, acc.push(char_at(lines, line, col)));
    }
}

/// The decimal-digit run ends at a canonical position without consuming
/// more than the remaining characters.
pub proof fn lemma_dec_digits(lines: Seq<Seq<char>>, line: int, col: int, acc: Seq<char>)
    requires
        canon(lines, line, col),
    ensures
        ({
            let r = dec_digits(lines, line, col, acc);
            &&& canon(lines, r.1, r.2)
            &&& rem(lines, r.1, r.2) <= rem(lines, line, col)
        }),
    decreases rem(lines, line, col),
{
    if !at_end(lines, line) && is_dec_digit(char_at(lines, line, col)) {
        lemma_adv(lines, line, col);
        let (l2, c2) = adv(lines, line, col);
        lemma_dec_digits(lines, l2, c2, acc.push(char_at(lines, line, col)));
    }
}

/// The hexadecimal-digit run ends at a canonical position without consuming
/// more than the remaining characters.
pub proof fn lemma_hex_digits(lines: Seq<Seq<char>>, line: int, col: int, acc: Seq<char>)
    requires
        canon(lines, line, col),
    ensures
        ({
            let r = hex_digits(lines, line, col, acc);
            &&& canon(lines, r.1, r.2)
            &&& rem(lines, r.1, r.2) <= rem(lines, line, col)
        }),
    decreases rem(lines, line, col),
{
    if !at_end(lines, line) && is_hex_digit(char_at(lines, line, col)) {
        lemma_adv(lines, line, col);
        let (l2, c2) = adv(lines, line, col);
        lemma_hex_digits(lines, l2, c2, acc.push(char_at(lines, line, col)));
    }
}

/// A recognized string literal ends at a canonical position and consumes at
/// least its closing quote.
pub proof fn lemma_string_rest(
    lines: Seq<Seq<char>>,
    line: int,
    col: int,
    acc: Seq<char>,
    escape: bool,
)
    requires
        canon(lines, line, col),
    ensures
        ({
            match string_rest(lines, line, col, acc, escape) {
                Ok(p) => canon(lines, p.1.0, p.1.1) && rem(lines, p.1.0, p.1.1) < rem(
                    lines,
                    line,
                    col,
                ),
                Err(e) => true,
            }
        }),
    decreases rem(lines, line, col),
{
    if !at_end(lines, line) {
        let c = char_at(lines, line, col);
        lemma_adv(lines, line, col);
        let (l2, c2) = adv(lines, line, col);
        if !(c == '"' && !escape) {
            if c == '\\' {
                lemma_string_rest(lines, l2, c2, acc.push(c), !escape);
            } else {
                lemma_string_rest(lines, l2, c2, acc.push(c), false);
            }
        }
    }
}

/// A recognized number ends at a canonical position and consumes at least
/// one character.
pub proof fn lemma_number_scan(lines: Seq<Seq<char>>, line: int, col: int)
    requires
        valid_at(lines, line, col),
    ensures
        ({
            match number_scan(lines, line, col) {
                Ok(tp) => canon(lines, tp.1.0, tp.1.1) && rem(lines, tp.1.0, tp.1.1) < rem(
                    lines,
                    line,
                    col,
                ),
                Err(e) => true,
            }
        }),
{
    let d = char_at(lines, line, col);
    lemma_adv(lines, line, col);
    let (l1, c1) = adv(lines, line, col);
    if valid_at(lines, l1, c1) && char_at(lines, l1, c1) == 'x' {
        lemma_adv(lines, l1, c1);
        let (l2, c2) = adv(lines, l1, c1);
        if valid_at(lines, l2, c2) && is_hex_digit(char_at(lines, l2, c2)) {
            lemma_hex_digits(lines, l2, c2, seq![d].push('x'));
        }
    } else {
        lemma_dec_digits(lines, l1, c1, seq![d]);
        let r = dec_digits(lines, l1, c1, seq![d]);
        if valid_at(lines, r.1, r.2) && char_at(lines, r.1, r.2) == '.' {
            lemma_adv(lines, r.1, r.2);
            let (l2, c2) = adv(lines, r.1, r.2);
            if valid_at(lines, l2, c2) && is_dec_digit(char_at(lines, l2, c2)) {
                lemma_dec_digits(lines, l2, c2, r.0.push('.'));
            }
        }
    }
}

/// A recognized punctuation or operator token ends at a canonical position
/// and consumes one or two characters.
pub proof fn lemma_punct_scan(lines: Seq<Seq<char>>, line: int, col: int)
    requires
        valid_at(lines, line, col),
    ensures
        ({
            match punct_scan(lines, line, col) {
                Ok(tp) => canon(lines, tp.1.0, tp.1.1) && rem(lines, tp.1.0, tp.1.1) < rem(
                    lines,
                    line,
                    col,
                ),
                Err(e) => true,
            }
        }),
{
    let c = char_at(lines, line, col);
    lemma_adv(lines, line, col);
    let one = adv(lines, line, col);
    if single_kind(c) is None && (c == '=' || c == '>' || c == '<' || c == '!') && peek_at(
        lines,
        line,
        col,
    ) == Some('=') {
        lemma_adv(lines, one.0, one.1);
    }
}

/// The whitespace run skipped from a position is exactly the characters
/// between the position and where skipping stops.
pub proof fn lemma_skip_ws_window(lines: Seq<Seq<char>>, line: int, col: int)
    requires
        canon(lines, line, col),
    ensures
        ({
            let p = skip_ws_pos(lines, line, col);
            exists|g: Seq<char>|
                (forall|i: int| 0 <= i < g.len() ==> is_whitespace(#[trigger] g[i]))
                    && tail_from(lines, line, col) == g + tail_from(lines, p.0, p.1)
        }),
    decreases rem(lines, line, col),
{
    let p = skip_ws_pos(lines, line, col);
    if !at_end(lines, line) && is_whitespace(char_at(lines, line, col)) {
        let c = char_at(lines, line, col);
        lemma_adv(lines, line, col);
        lemma_tail_step(lines, line, col);
        let (l2, c2) = adv(lines, line, col);
        lemma_skip_ws_window(lines, l2, c2);
        let g2 = choose|g: Seq<char>|
            (forall|i: int| 0 <= i < g.len() ==> is_whitespace(#[trigger] g[i])) && tail_from(
                lines,
                l2,
                c2,
            ) == g + tail_from(lines, p.0, p.1);
        let g = seq![c] + g2;
        assert(forall|i: int| 0 <= i < g.len() ==> is_whitespace(#[trigger] g[i]));
        assert(tail_from(lines, line, col) == (seq![c] + g2) + tail_from(lines, p.0, p.1)) by {
            assert(seq![c] + (g2 + tail_from(lines, p.0, p.1)) =~= (seq![c] + g2) + tail_from(
                lines,
                p.0,
                p.1,
            ));
        }
    } else {
        let g = Seq::<char>::empty();
        assert(tail_from(lines, line, col) == g + tail_from(lines, p.0, p.1)) by {
            assert(g + tail_from(lines, p.0, p.1) =~= tail_from(lines, p.0, p.1));
        }
    }
}

/// The identifier run appends to `acc` exactly the characters between its
/// start and end positions.
pub proof fn lemma_ident_rest_window(lines: Seq<Seq<char>>, line: int, col: int, acc: Seq<char>)
    requires
        canon(lines, line, col),
    ensures
        ({
            let r = ident_rest(lines, line, col, acc);
            &&& r.0.len() >= acc.len()
            &&& r.0.take(acc.len() as int) == acc
            &&& tail_from(lines, line, col) == r.0.skip(acc.len() as int) + tail_from(
                lines,
                r.1,
                r.2,
            )
        }),
    decreases rem(lines, line, col),
{
    let r = ident_rest(lines, line, col, acc);
    if !at_end(lines, line) && is_ident_continue(char_at(lines, line, col)) {
        let c = char_at(lines, line, col);
        lemma_adv(lines, line, col);
        lemma_tail_step(lines, line, col);
        let (l2, c2) = adv(lines, line, col);
        lemma_ident_rest_window(lines, l2, c2, acc.push(c));
        assert(r.0.take(acc.len() as int + 1) == acc.push(c));
        assert(r.0.take(acc.len() as int + 1)[acc.len() as int] == r.0[acc.len() as int]);
        assert(acc.push(c)[acc.len() as int] == c);
        assert(r.0.take(acc.len() as int) =~= acc);
        assert(r.0[acc.len() as int] == c);
        assert(r.0.skip(acc.len() as int) =~= seq![c] + r.0.skip(acc.len() as int + 1));
        assert((seq![c] + r.0.skip(acc.len() as int + 1)) + tail_from(lines, r.1, r.2) =~= seq![c]
            + (r.0.skip(acc.len() as int + 1) + tail_from(lines, r.1, r.2)));
    } else {
        assert(r.0.take(acc.len() as int) =~= acc);
        assert(r.0.skip(acc.len() as int) =~= Seq::<char>::empty());
        assert(r.0.skip(acc.len() as int) + tail_from(lines, r.1, r.2) =~= tail_from(
            lines,
            r.1,
            r.2,
        ));
    }
}

/// The decimal-digit run appends to `acc` exactly the characters between
/// its start and end positions.
pub proof fn lemma_dec_digits_window(lines: Seq<Seq<char>>, line: int, col: int, acc: Seq<char>)
    requires
        canon(lines, line, col),
    ensures
        ({
            let r = dec_digits(lines, line, col, acc);
            &&& r.0.len() >= acc.len()
            &&& r.0.take(acc.len() as int) == acc
            &&& tail_from(lines, line, col) == r.0.skip(acc.len() as int) + tail_from(
                lines,
                r.1,
                r.2,
            )
        }),
    decreases rem(lines, line, col),
{
    let r = dec_digits(lines, line, col, acc);
    if !at_end(lines, line) && is_dec_digit(char_at(lines, line, col)) {
        let c = char_at(lines, line, col);
        lemma_adv(lines, line, col);
        lemma_tail_step(lines, line, col);
        let (l2, c2) = adv(lines, line, col);
        lemma_dec_digits_window(lines, l2, c2, acc.push(c));
        assert(r.0.take(acc.len() as int + 1) == acc.push(c));
        assert(r.0.take(acc.len() as int + 1)[acc.len() as int] == r.0[acc.len() as int]);
        assert(acc.push(c)[acc.len() as int] == c);
        assert(r.0.take(acc.len() as int) =~= acc);
        assert(r.0[acc.len() as int] == c);
        assert(r.0.skip(acc.len() as int) =~= seq![c] + r.0.skip(acc.len() as int + 1));
        assert((seq![c] + r.0.skip(acc.len() as int + 1)) + tail_from(lines, r.1, r.2) =~= seq![c]
            + (r.0.skip(acc.len() as int + 1) + tail_from(lines, r.1, r.2)));
    } else {
        assert(r.0.take(acc.len() as int) =~= acc);
        assert(r.0.skip(acc.len() as int) =~= Seq::<char>::empty());
        assert(r.0.skip(acc.len() as int) + tail_from(lines, r.1, r.2) =~= tail_from(
            lines,
            r.1,
            r.2,
        ));
    }
}

/// The hexadecimal-digit run appends to `acc` exactly the characters
/// between its start and end positions.
pub proof fn lemma_hex_digits_window(lines: Seq<Seq<char>>, line: int, col: int, acc: Seq<char>)
    requires
        canon(lines, line, col),
    ensures
        ({
            let r = hex_digits(lines, line, col, acc);
            &&& r.0.len() >= acc.len()
            &&& r.0.take(acc.len() as int) == acc
            &&& tail_from(lines, line, col) == r.0.skip(acc.len() as int) + tail_from(
                lines,
                r.1,
                r.2,
            )
        }),
    decreases rem(lines, line, col),
{
    let r = hex_digits(lines, line, col, acc);
    if !at_end(lines, line) && is_hex_digit(char_at(lines, line, col)) {
        let c = char_at(lines, line, col);
        lemma_adv(lines, line, col);
        lemma_tail_step(lines, line, col);
        let (l2, c2) = adv(lines, line, col);
        lemma_hex_digits_window(lines, l2, c2, acc.push(c));
        assert(r.0.take(acc.len() as int + 1) == acc.push(c));
        assert(r.0.take(acc.len() as int + 1)[acc.len() as int] == r.0[acc.len() as int]);
        assert(acc.push(c)[acc.len() as int] == c);
        assert(r.0.take(acc.len() as int) =~= acc);
        assert(r.0[acc.len() as int] == c);
        assert(r.0.skip(acc.len() as int) =~= seq![c] + r.0.skip(acc.len() as int + 1));
        assert((seq![c] + r.0.skip(acc.len() as int + 1)) + tail_from(lines, r.1, r.2) =~= seq![c]
            + (r.0.skip(acc.len() as int + 1) + tail_from(lines, r.1, r.2)));
    } else {
        assert(r.0.take(acc.len() as int) =~= acc);
        assert(r.0.skip(acc.len() as int) =~= Seq::<char>::empty());
        assert(r.0.skip(acc.len() as int) + tail_from(lines, r.1, r.2) =~= tail_from(
            lines,
            r.1,
            r.2,
        ));
    }
}

/// A recognized string-literal tail appends to `acc` exactly the characters
/// between its start and end positions.
pub proof fn lemma_string_rest_window(
    lines: Seq<Seq<char>>,
    line: int,
    col: int,
    acc: Seq<char>,
    escape: bool,
)
    requires
        canon(lines, line, col),
    ensures
        ({
            match string_rest(lines, line, col, acc, escape) {
                Ok(p) => p.0.len() >= acc.len() && p.0.take(acc.len() as int) == acc && tail_from(
                    lines,
                    line,
                    col,
                ) == p.0.skip(acc.len() as int) + tail_from(lines, p.1.0, p.1.1),
                Err(e) => true,
            }
        }),
    decreases rem(lines, line, col),
{
    if !at_end(lines, line) {
        let c = char_at(lines, line, col);
        lemma_adv(lines, line, col);
        lemma_tail_step(lines, line, col);
        let (l2, c2) = adv(lines, line, col);
        if c == '"' && !escape {
            let p = (acc.push(c), (l2, c2));
            assert(p.0.take(acc.len() as int) =~= acc);
            assert(p.0.skip(acc.len() as int) =~= seq![c]);
        } else {
            if c == '\\' {
                lemma_string_rest_window(lines, l2, c2, acc.push(c), !escape);
            } else {
                lemma_string_rest_window(lines, l2, c2, acc.push(c), false);
            }
            match string_rest(lines, line, col, acc, escape) {
                Ok(p) => {
                    assert(p.0.take(acc.len() as int + 1) == acc.push(c));
                    assert(p.0.take(acc.len() as int + 1)[acc.len() as int] == p.0[
                        acc.len() as int
                    ]);
                    assert(acc.push(c)[acc.len() as int] == c);
                    assert(p.0.take(acc.len() as int) =~= acc);
                    assert(p.0[acc.len() as int] == c);
                    assert(p.0.skip(acc.len() as int) =~= seq![c] + p.0.skip(
                        acc.len() as int + 1,
                    ));
                    assert((seq![c] + p.0.skip(acc.len() as int + 1)) + tail_from(
                        lines,
                        p.1.0,
                        p.1.1,
                    ) =~= seq![c] + (p.0.skip(acc.len() as int + 1) + tail_from(
                        lines,
                        p.1.0,
                        p.1.1,
                    )));
                },
                Err(e) => {
                },
            }
        }
    }
}

/// A recognized identifier's lexeme is exactly the characters between its
/// start and end positions.
pub proof fn lemma_scan_ident_window(lines: Seq<Seq<char>>, line: int, col: int)
    requires
        valid_at(lines, line, col),
    ensures
        ({
            let r = scan_ident(lines, line, col);
            tail_from(lines, line, col) == r.0.lexeme + tail_from(lines, r.1.0, r.1.1)
        }),
{
    let c = char_at(lines, line, col);
    lemma_adv(lines, line, col);
    lemma_tail_step(lines, line, col);
    let (l1, c1) = adv(lines, line, col);
    lemma_ident_rest_window(lines, l1, c1, seq![c]);
    let r = ident_rest(lines, l1, c1, seq![c]);
    assert(r.0.take(1) == seq![c]);
    assert(r.0.take(1)[0] == r.0[0]);
    assert(r.0[0] == c);
    assert(r.0 =~= seq![c] + r.0.skip(1));
    assert((seq![c] + r.0.skip(1)) + tail_from(lines, r.1, r.2) =~= seq![c] + (r.0.skip(1)
        + tail_from(lines, r.1, r.2)));
}

/// A recognized number's lexeme is exactly the characters between its start
/// and end positions.
pub proof fn lemma_number_window(lines: Seq<Seq<char>>, line: int, col: int)
    requires
        valid_at(lines, line, col),
    ensures
        ({
            match number_scan(lines, line, col) {
                Ok(tp) => tail_from(lines, line, col) == tp.0.lexeme + tail_from(
                    lines,
                    tp.1.0,
                    tp.1.1,
                ),
                Err(e) => true,
            }
        }),
{
    let d = char_at(lines, line, col);
    lemma_adv(lines, line, col);
    lemma_tail_step(lines, line, col);
    let (l1, c1) = adv(lines, line, col);
    if valid_at(lines, l1, c1) && char_at(lines, l1, c1) == 'x' {
        let x = char_at(lines, l1, c1);
        lemma_adv(lines, l1, c1);
        lemma_tail_step(lines, l1, c1);
        let (l2, c2) = adv(lines, l1, c1);
        if valid_at(lines, l2, c2) && is_hex_digit(char_at(lines, l2, c2)) {
            lemma_hex_digits_window(lines, l2, c2, seq![d].push(x));
            let r = hex_digits(lines, l2, c2, seq![d].push(x));
            assert(r.0.take(2) =~= seq![d].push(x));
            assert(r.0 =~= r.0.take(2) + r.0.skip(2));
            assert(tail_from(lines, line, col) =~= seq![d] + (seq![x] + (r.0.skip(2) + tail_from(
                lines,
                r.1,
                r.2,
            ))));
            assert((r.0.take(2) + r.0.skip(2)) + tail_from(lines, r.1, r.2) =~= seq![d] + (seq![x]
                + (r.0.skip(2) + tail_from(lines, r.1, r.2))));
        }
    } else {
        lemma_dec_digits_window(lines, l1, c1, seq![d]);
        let r = dec_digits(lines, l1, c1, seq![d]);
        assert(r.0.take(1) =~= seq![d]);
        assert(r.0 =~= r.0.take(1) + r.0.skip(1));
        if valid_at(lines, r.1, r.2) && char_at(lines, r.1, r.2) == '.' {
            lemma_adv(lines, r.1, r.2);
            lemma_tail_step(lines, r.1, r.2);
            let (l2, c2) = adv(lines, r.1, r.2);
            if valid_at(lines, l2, c2) && is_dec_digit(char_at(lines, l2, c2)) {
                lemma_dec_digits_window(lines, l2, c2, r.0.push('.'));
                let r2 = dec_digits(lines, l2, c2, r.0.push('.'));
                let k = r.0.len() as int + 1;
                assert(r2.0.take(k) =~= r.0.push('.'));
                assert(r2.0 =~= r2.0.take(k) + r2.0.skip(k));
                assert(tail_from(lines, line, col) == seq![d] + (r.0.skip(1) + (seq!['.'] + (
                r2.0.skip(k) + tail_from(lines, r2.1, r2.2)))));
                assert(r2.0 + tail_from(lines, r2.1, r2.2) =~= seq![d] + (r.0.skip(1) + (seq!['.']
                    + (r2.0.skip(k) + tail_from(lines, r2.1, r2.2)))));
            }
        } else {
            assert((r.0.take(1) + r.0.skip(1)) + tail_from(lines, r.1, r.2) =~= seq![d] + (
            r.0.skip(1) + tail_from(lines, r.1, r.2)));
        }
    }
}

/// A recognized string literal's lexeme is exactly the characters between
/// its start and end positions.
pub proof fn lemma_string_window(lines: Seq<Seq<char>>, line: int, col: int)
    requires
        valid_at(lines, line, col),
    ensures
        ({
            match string_scan(lines, line, col) {
                Ok(tp) => tail_from(lines, line, col) == tp.0.lexeme + tail_from(
                    lines,
                    tp.1.0,
                    tp.1.1,
                ),
                Err(e) => true,
            }
        }),
{
    let c = char_at(lines, line, col);
    lemma_adv(lines, line, col);
    lemma_tail_step(lines, line, col);
    let (l1, c1) = adv(lines, line, col);
    lemma_string_rest_window(lines, l1, c1, seq![c], false);
    match string_rest(lines, l1, c1, seq![c], false) {
        Ok(p) => {
            assert(p.0.take(1) == seq![c]);
            assert(p.0.take(1)[0] == p.0[0]);
            assert(p.0[0] == c);
            assert(p.0 =~= seq![c] + p.0.skip(1));
            assert((seq![c] + p.0.skip(1)) + tail_from(lines, p.1.0, p.1.1) =~= seq![c] + (
            p.0.skip(1) + tail_from(lines, p.1.0, p.1.1)));
        },
        Err(e) => {
        },
    }
}

/// A recognized punctuation or operator token's lexeme is exactly the
/// characters between its start and end positions.
pub proof fn lemma_punct_window(lines: Seq<Seq<char>>, line: int, col: int)
    requires
        valid_at(lines, line, col),
    ensures
        ({
            match punct_scan(lines, line, col) {
                Ok(tp) => tail_from(lines, line, col) == tp.0.lexeme + tail_from(
                    lines,
                    tp.1.0,
                    tp.1.1,
                ),
                Err(e) => true,
            }
        }),
{
    let c = char_at(lines, line, col);
    lemma_adv(lines, line, col);
    lemma_tail_step(lines, line, col);
    let one = adv(lines, line, col);
    if single_kind(c) is None && (c == '=' || c == '>' || c == '<' || c == '!') && peek_at(
        lines,
        line,
        col,
    ) == Some('=') {
        assert(valid_at(lines, one.0, one.1));
        assert(char_at(lines, one.0, one.1) == '=');
        lemma_adv(lines, one.0, one.1);
        lemma_tail_step(lines, one.0, one.1);
        let two = adv(lines, one.0, one.1);
        assert(seq![c] + (seq!['='] + tail_from(lines, two.0, two.1)) =~= seq![c, '='] + tail_from(
            lines,
            two.0,
            two.1,
        ));
    }
}

/// One scanning step from a canonical position: a produced token leaves the
/// cursor at a canonical position strictly closer to the end.
pub proof fn lemma_read_next(lines: Seq<Seq<char>>, line: int, col: int)
    requires
        canon(lines, line, col),
    ensures
        ({
            match read_next_at(lines, line, col) {
                Ok(Some(tp)) => canon(lines, tp.1.0, tp.1.1) && rem(lines, tp.1.0, tp.1.1) < rem(
                    lines,
                    line,
                    col,
                ),
                Ok(None) => true,
                Err(e) => true,
            }
        }),
    decreases rem(lines, line, col),
{
    lemma_skip_ws(lines, line, col);
    let (l1, c1) = skip_ws_pos(lines, line, col);
    if !at_end(lines, l1) {
        let c = char_at(lines, l1, c1);
        if is_ident_start(c) {
            lemma_adv(lines, l1, c1);
            let (la, ca) = adv(lines, l1, c1);
            lemma_ident_rest(lines, la, ca, seq![c]);
        } else if is_dec_digit(c) {
            lemma_number_scan(lines, l1, c1);
        } else if c == '"' {
            lemma_adv(lines, l1, c1);
            let (la, ca) = adv(lines, l1, c1);
            lemma_string_rest(lines, la, ca, seq![c], false);
        } else if c == '/' && peek_at(lines, l1, c1) == Some('/') {
            lemma_adv(lines, l1, c1);
            let (l2, c2) = adv(lines, l1, c1);
            lemma_norm(lines, l2 + 1, 0);
            let (l3, c3) = norm(lines, l2 + 1, 0);
            lemma_read_next(lines, l3, c3);
        } else {
            lemma_punct_scan(lines, l1, c1);
        }
    }
}

} // verus!
