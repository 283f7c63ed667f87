//! Laws of the scanner, stated and proved over the spec functions of `scan`.
//!
//! The Unicode character classes are uninterpreted here, so the laws about
//! identifiers carry as hypotheses the standard classification of the
//! characters involved (a letter is alphabetic and not whitespace, and so
//! on), which the `char` methods of std satisfy.

use vstd::prelude::*;

use crate::chars::{is_dec_digit, is_ident_continue, is_ident_start, is_whitespace};
use crate::cursor::{
    adv, at_end, canon, char_at, lemma_adv, lemma_norm, lemma_rem_nonneg, lemma_tail_norm,
    lemma_tail_step, norm, peek_at, rem, tail_from, valid_at,
};
use crate::lexer::Lexer;
use crate::scan::{
    ident_rest, lemma_number_window, lemma_punct_window, lemma_read_next, lemma_scan_ident_window,
    lemma_skip_ws, lemma_skip_ws_window, lemma_string_window, number_scan, punct_scan,
    read_next_at, scan_all, scan_ident, skip_ws_pos, string_scan,
};
use crate::token::{
    kw_from, kw_fun, kw_import, kw_mut, spec_keyword, LexError, SpecToken, TokenKind,
};

verus! {

/// One accounted-for stretch of the source: a skipped whitespace run, a
/// skipped line comment, or one token's lexeme.
pub enum Piece {
    Gap(Seq<char>),
    Comment(Seq<char>),
    Lexeme(Seq<char>),
}

/// The characters a piece covers.
pub open spec fn piece_chars(p: Piece) -> Seq<char> {
    match p {
        Piece::Gap(s) => s,
        Piece::Comment(s) => s,
        Piece::Lexeme(s) => s,
    }
}

/// The characters a sequence of pieces covers, in order.
pub open spec fn pieces_chars(ps: Seq<Piece>) -> Seq<char>
    decreases ps.len(),
{
    if ps.len() == 0 {
        Seq::empty()
    } else {
        piece_chars(ps[0]) + pieces_chars(ps.drop_first())
    }
}

/// A gap holds only whitespace; a comment begins with the two slashes.
pub open spec fn piece_ok(p: Piece) -> bool {
    match p {
        Piece::Gap(s) => forall|i: int| 0 <= i < s.len() ==> is_whitespace(#[trigger] s[i]),
        Piece::Comment(s) => s.len() >= 2 && s[0] == '/' && s[1] == '/',
        Piece::Lexeme(s) => true,
    }
}

pub open spec fn pieces_ok(ps: Seq<Piece>) -> bool {
    forall|i: int| 0 <= i < ps.len() ==> piece_ok(#[trigger] ps[i])
}

/// No piece of the sequence is a lexeme.
pub open spec fn no_lexeme_pieces(ps: Seq<Piece>) -> bool {
    forall|i: int| 0 <= i < ps.len() ==> !(#[trigger] ps[i] is Lexeme)
}

/// The lexeme pieces of the sequence, in order.
pub open spec fn pieces_lexemes(ps: Seq<Piece>) -> Seq<Seq<char>>
    decreases ps.len(),
{
    if ps.len() == 0 {
        Seq::empty()
    } else {
        match ps[0] {
            Piece::Lexeme(s) => seq![s] + pieces_lexemes(ps.drop_first()),
            _ => pieces_lexemes(ps.drop_first()),
        }
    }
}

/// The lexemes of a token sequence, in order.
pub open spec fn lexemes_of(ts: Seq<SpecToken>) -> Seq<Seq<char>> {
    ts.map(|i: int, t: SpecToken| t.lexeme)
}

proof fn lemma_piece_single(p: Piece)
    ensures
        pieces_chars(seq![p]) == piece_chars(p),
        piece_ok(p) ==> pieces_ok(seq![p]),
        !(p is Lexeme) ==> no_lexeme_pieces(seq![p]),
        p matches Piece::Lexeme(s) ==> pieces_lexemes(seq![p]) == seq![s],
{
    let ps = seq![p];
    assert(ps.drop_first() =~= Seq::<Piece>::empty());
    assert(pieces_chars(Seq::<Piece>::empty()) == Seq::<char>::empty());
    assert(pieces_lexemes(Seq::<Piece>::empty()) == Seq::<Seq<char>>::empty());
    assert(piece_chars(p) + Seq::<char>::empty() =~= piece_chars(p));
    match p {
        Piece::Lexeme(s) => {
            assert(seq![s] + Seq::<Seq<char>>::empty() =~= seq![s]);
        },
        _ => {
        },
    }
}

proof fn lemma_pieces_chars_concat(a: Seq<Piece>, b: Seq<Piece>)
    ensures
        pieces_chars(a + b) == pieces_chars(a) + pieces_chars(b),
    decreases a.len(),
{
    if a.len() == 0 {
        assert(a + b =~= b);
        assert(pieces_chars(a) + pieces_chars(b) =~= pieces_chars(b));
    } else {
        assert((a + b).drop_first() =~= a.drop_first() + b);
        assert((a + b)[0] == a[0]);
        lemma_pieces_chars_concat(a.drop_first(), b);
        assert(piece_chars(a[0]) + (pieces_chars(a.drop_first()) + pieces_chars(b)) =~= (
        piece_chars(a[0]) + pieces_chars(a.drop_first())) + pieces_chars(b));
    }
}

proof fn lemma_pieces_lexemes_concat(a: Seq<Piece>, b: Seq<Piece>)
    ensures
        pieces_lexemes(a + b) == pieces_lexemes(a) + pieces_lexemes(b),
    decreases a.len(),
{
    if a.len() == 0 {
        assert(a + b =~= b);
        assert(pieces_lexemes(a) + pieces_lexemes(b) =~= pieces_lexemes(b));
    } else {
        assert((a + b).drop_first() =~= a.drop_first() + b);
        assert((a + b)[0] == a[0]);
        lemma_pieces_lexemes_concat(a.drop_first(), b);
        match a[0] {
            Piece::Lexeme(s) => {
                assert(seq![s] + (pieces_lexemes(a.drop_first()) + pieces_lexemes(b)) =~= (seq![s]
                    + pieces_lexemes(a.drop_first())) + pieces_lexemes(b));
            },
            _ => {
            },
        }
    }
}

proof fn lemma_no_lexeme_pieces_empty(ps: Seq<Piece>)
    requires
        no_lexeme_pieces(ps),
    ensures
        pieces_lexemes(ps) == Seq::<Seq<char>>::empty(),
    decreases ps.len(),
{
    if ps.len() > 0 {
        assert(!(ps[0] is Lexeme));
        assert forall|i: int| 0 <= i < ps.drop_first().len() implies !(#[trigger] ps.drop_first()[
            i
        ] is Lexeme) by {
            assert(ps.drop_first()[i] == ps[i + 1]);
        }
        lemma_no_lexeme_pieces_empty(ps.drop_first());
    }
}

proof fn lemma_pieces_props_concat(a: Seq<Piece>, b: Seq<Piece>)
    ensures
        pieces_ok(a) && pieces_ok(b) ==> pieces_ok(a + b),
        no_lexeme_pieces(a) && no_lexeme_pieces(b) ==> no_lexeme_pieces(a + b),
{
    if pieces_ok(a) && pieces_ok(b) {
        assert forall|i: int| 0 <= i < (a + b).len() implies piece_ok(#[trigger] (a + b)[i]) by {
            if i < a.len() {
                assert((a + b)[i] == a[i]);
            } else {
                assert((a + b)[i] == b[i - a.len()]);
            }
        }
    }
    if no_lexeme_pieces(a) && no_lexeme_pieces(b) {
        assert forall|i: int| 0 <= i < (a + b).len() implies !(#[trigger] (a + b)[i] is Lexeme) by {
            if i < a.len() {
                assert((a + b)[i] == a[i]);
            } else {
                assert((a + b)[i] == b[i - a.len()]);
            }
        }
    }
}

/// Skipping whitespace over an all-whitespace source reaches the end of
/// input.
proof fn lemma_skip_ws_all_ws(lines: Seq<Seq<char>>, line: int, col: int)
    requires
        canon(lines, line, col),
        forall|i: int, j: int|
            0 <= i < lines.len() && 0 <= j < lines[i].len() ==> is_whitespace(
                #[trigger] lines[i][j],
            ),
    ensures
        at_end(lines, skip_ws_pos(lines, line, col).0),
    decreases crate::cursor::rem(lines, line, col),
{
    if !at_end(lines, line) {
        assert(is_whitespace(char_at(lines, line, col)));
        lemma_adv(lines, line, col);
        let (l2, c2) = adv(lines, line, col);
        lemma_skip_ws_all_ws(lines, l2, c2);
    }
}

/// Whitespace-only input of any length and shape scans to the empty token
/// sequence.
pub proof fn lemma_whitespace_only_scans_empty(lines: Seq<Seq<char>>)
    requires
        forall|i: int, j: int|
            0 <= i < lines.len() && 0 <= j < lines[i].len() ==> is_whitespace(
                #[trigger] lines[i][j],
            ),
    ensures
        ({
            let p = norm(lines, 0, 0);
            scan_all(lines, p.0, p.1, Seq::<SpecToken>::empty()) == Ok::<
                Seq<SpecToken>,
                LexError,
            >(Seq::<SpecToken>::empty())
        }),
{
    lemma_norm(lines, 0, 0);
    let p = norm(lines, 0, 0);
    lemma_skip_ws_all_ws(lines, p.0, p.1);
    assert(read_next_at(lines, p.0, p.1) == Ok::<Option<(SpecToken, (int, int))>, LexError>(
        None,
    ));
}

/// An identifier run over the single line `w`, started at column `i` with
/// `acc` accumulated, consumes the rest of the line.
proof fn lemma_ident_rest_to_end(w: Seq<char>, i: int, acc: Seq<char>)
    requires
        0 <= i <= w.len(),
        forall|k: int| i <= k < w.len() ==> is_ident_continue(#[trigger] w[k]),
    ensures
        ({
            let lines = seq![w];
            let p = norm(lines, 0, i);
            ident_rest(lines, p.0, p.1, acc) == (acc + w.skip(i), 1int, 0int)
        }),
    decreases w.len() - i,
{
    let lines = seq![w];
    lemma_norm(lines, 0, i);
    let p = norm(lines, 0, i);
    if i == w.len() {
        assert(w.skip(i) =~= Seq::<char>::empty());
        assert(acc + w.skip(i) =~= acc);
    } else {
        assert(p == (0int, i));
        assert(char_at(lines, 0, i) == w[i]);
        lemma_adv(lines, 0, i);
        lemma_ident_rest_to_end(w, i + 1, acc.push(w[i]));
        assert(acc.push(w[i]) + w.skip(i + 1) =~= acc + w.skip(i));
    }
}

/// A word shaped like an identifier, alone in the source, scans to exactly
/// one token: its keyword token if the word is reserved, an identifier
/// otherwise; the lexeme is the whole word either way.
pub proof fn lemma_word_scan(w: Seq<char>)
    requires
        w.len() >= 1,
        is_ident_start(w[0]),
        !is_whitespace(w[0]),
        forall|k: int| 1 <= k < w.len() ==> is_ident_continue(#[trigger] w[k]),
    ensures
        ({
            let kind = match spec_keyword(w) {
                Some(k) => k,
                None => TokenKind::Identifier,
            };
            scan_all(seq![w], 0, 0, Seq::<SpecToken>::empty()) == Ok::<Seq<SpecToken>, LexError>(
                seq![SpecToken { kind: kind, lexeme: w }],
            )
        }),
{
    let lines = seq![w];
    assert(valid_at(lines, 0, 0));
    assert(char_at(lines, 0, 0) == w[0]);
    assert(skip_ws_pos(lines, 0, 0) == (0int, 0int));
    lemma_adv(lines, 0, 0);
    lemma_ident_rest_to_end(w, 1, seq![w[0]]);
    assert(seq![w[0]] + w.skip(1) =~= w);
    let kind = match spec_keyword(w) {
        Some(k) => k,
        None => TokenKind::Identifier,
    };
    let tok = SpecToken { kind: kind, lexeme: w };
    assert(scan_ident(lines, 0, 0) == (tok, (1int, 0int)));
    assert(read_next_at(lines, 0, 0) == Ok::<Option<(SpecToken, (int, int))>, LexError>(
        Some((tok, (1int, 0int))),
    ));
    assert(at_end(lines, 1));
    assert(canon(lines, 1, 0));
    assert(skip_ws_pos(lines, 1, 0) == (1int, 0int));
    assert(read_next_at(lines, 1, 0) == Ok::<Option<(SpecToken, (int, int))>, LexError>(None));
    assert(scan_all(lines, 1, 0, Seq::<SpecToken>::empty().push(tok)) == Ok::<
        Seq<SpecToken>,
        LexError,
    >(Seq::<SpecToken>::empty().push(tok)));
    assert(scan_all(lines, 0, 0, Seq::<SpecToken>::empty()) == scan_all(
        lines,
        1,
        0,
        Seq::<SpecToken>::empty().push(tok),
    ));
    assert(Seq::<SpecToken>::empty().push(tok) =~= seq![tok]);
}

/// A word shaped like an identifier that is not a reserved spelling scans
/// to a single Identifier token whose lexeme is the input, exactly.
pub proof fn lemma_identifier_exact(w: Seq<char>)
    requires
        w.len() >= 1,
        is_ident_start(w[0]),
        !is_whitespace(w[0]),
        forall|k: int| 1 <= k < w.len() ==> is_ident_continue(#[trigger] w[k]),
        spec_keyword(w) is None,
    ensures
        scan_all(seq![w], 0, 0, Seq::<SpecToken>::empty()) == Ok::<Seq<SpecToken>, LexError>(
            seq![SpecToken { kind: TokenKind::Identifier, lexeme: w }],
        ),
{
    lemma_word_scan(w);
}

/// The keyword table holds exactly the four reserved spellings, and none of
/// them maps to the identifier kind.
pub proof fn lemma_keyword_table()
    ensures
        spec_keyword(kw_from()) == Some(TokenKind::From),
        spec_keyword(kw_import()) == Some(TokenKind::Import),
        spec_keyword(kw_fun()) == Some(TokenKind::Fun),
        spec_keyword(kw_mut()) == Some(TokenKind::Mut),
        forall|w: Seq<char>|
            #[trigger] spec_keyword(w) is Some ==> (w == kw_from() || w == kw_import() || w
                == kw_fun() || w == kw_mut()),
        forall|w: Seq<char>| #[trigger] spec_keyword(w) != Some(TokenKind::Identifier),
{
    assert(kw_from() != kw_import());
    assert(kw_from() != kw_fun());
    assert(kw_from() != kw_mut());
    assert(kw_import() != kw_fun());
    assert(kw_import() != kw_mut());
    assert(kw_fun() != kw_mut());
}

/// Each reserved spelling, alone in the source, scans to its dedicated
/// keyword token, never to an identifier.
pub proof fn lemma_keywords_never_identifier(w: Seq<char>)
    requires
        w == kw_from() || w == kw_import() || w == kw_fun() || w == kw_mut(),
        is_ident_start(w[0]),
        !is_whitespace(w[0]),
        forall|k: int| 1 <= k < w.len() ==> is_ident_continue(#[trigger] w[k]),
    ensures
        spec_keyword(w) is Some,
        spec_keyword(w) != Some(TokenKind::Identifier),
        scan_all(seq![w], 0, 0, Seq::<SpecToken>::empty()) == Ok::<Seq<SpecToken>, LexError>(
            seq![SpecToken { kind: spec_keyword(w)->Some_0, lexeme: w }],
        ),
{
    lemma_keyword_table();
    lemma_word_scan(w);
}

/// One scanning step accounts for the characters it moves over: whatever
/// precedes the produced token (or the end of input) is whitespace runs and
/// comments, and the token's lexeme covers the rest of the step.
#[verifier::rlimit(100)]
proof fn lemma_read_next_window(lines: Seq<Seq<char>>, line: int, col: int)
    requires
        canon(lines, line, col),
    ensures
        ({
            match read_next_at(lines, line, col) {
                Ok(Some(tp)) => exists|pre: Seq<Piece>|
                    pieces_ok(pre) && no_lexeme_pieces(pre) && tail_from(lines, line, col)
                        == pieces_chars(pre) + tp.0.lexeme + tail_from(lines, tp.1.0, tp.1.1),
                Ok(None) => exists|pre: Seq<Piece>|
                    pieces_ok(pre) && no_lexeme_pieces(pre) && tail_from(lines, line, col)
                        == pieces_chars(pre),
                Err(e) => true,
            }
        }),
    decreases rem(lines, line, col),
{
    lemma_skip_ws(lines, line, col);
    lemma_skip_ws_window(lines, line, col);
    let p1 = skip_ws_pos(lines, line, col);
    let g = choose|g: Seq<char>|
        (forall|i: int| 0 <= i < g.len() ==> is_whitespace(#[trigger] g[i])) && tail_from(
            lines,
            line,
            col,
        ) == g + tail_from(lines, p1.0, p1.1);
    let pre0 = seq![Piece::Gap(g)];
    lemma_piece_single(Piece::Gap(g));
    assert(pieces_chars(pre0) == g);
    assert(pieces_ok(pre0));
    assert(no_lexeme_pieces(pre0));
    if at_end(lines, p1.0) {
        assert(tail_from(lines, p1.0, p1.1) =~= Seq::<char>::empty());
        assert(g + tail_from(lines, p1.0, p1.1) =~= g);
        assert(tail_from(lines, line, col) == pieces_chars(pre0));
    } else {
        let c = char_at(lines, p1.0, p1.1);
        if is_ident_start(c) {
            lemma_scan_ident_window(lines, p1.0, p1.1);
            let tp = scan_ident(lines, p1.0, p1.1);
            assert(g + (tp.0.lexeme + tail_from(lines, tp.1.0, tp.1.1)) =~= (g + tp.0.lexeme)
                + tail_from(lines, tp.1.0, tp.1.1));
            assert(tail_from(lines, line, col) == pieces_chars(pre0) + tp.0.lexeme + tail_from(
                lines,
                tp.1.0,
                tp.1.1,
            ));
        } else if is_dec_digit(c) {
            lemma_number_window(lines, p1.0, p1.1);
            match number_scan(lines, p1.0, p1.1) {
                Ok(tp) => {
                    assert(g + (tp.0.lexeme + tail_from(lines, tp.1.0, tp.1.1)) =~= (g
                        + tp.0.lexeme) + tail_from(lines, tp.1.0, tp.1.1));
                    assert(tail_from(lines, line, col) == pieces_chars(pre0) + tp.0.lexeme
                        + tail_from(lines, tp.1.0, tp.1.1));
                },
                Err(e) => {
                },
            }
        } else if c == '"' {
            lemma_string_window(lines, p1.0, p1.1);
            match string_scan(lines, p1.0, p1.1) {
                Ok(tp) => {
                    assert(g + (tp.0.lexeme + tail_from(lines, tp.1.0, tp.1.1)) =~= (g
                        + tp.0.lexeme) + tail_from(lines, tp.1.0, tp.1.1));
                    assert(tail_from(lines, line, col) == pieces_chars(pre0) + tp.0.lexeme
                        + tail_from(lines, tp.1.0, tp.1.1));
                },
                Err(e) => {
                },
            }
        } else if c == '/' && peek_at(lines, p1.0, p1.1) == Some('/') {
            lemma_adv(lines, p1.0, p1.1);
            lemma_tail_step(lines, p1.0, p1.1);
            let (l2, c2) = adv(lines, p1.0, p1.1);
            assert(valid_at(lines, l2, c2));
            assert(char_at(lines, l2, c2) == '/');
            lemma_tail_norm(lines, l2 + 1, 0);
            lemma_norm(lines, l2 + 1, 0);
            let p3 = norm(lines, l2 + 1, 0);
            let cmt = seq![c] + lines[l2].skip(c2);
            assert(tail_from(lines, l2, c2) == lines[l2].skip(c2) + tail_from(lines, l2 + 1, 0));
            assert(tail_from(lines, p1.0, p1.1) == cmt + tail_from(lines, p3.0, p3.1)) by {
                assert(seq![c] + (lines[l2].skip(c2) + tail_from(lines, l2 + 1, 0)) =~= (seq![c]
                    + lines[l2].skip(c2)) + tail_from(lines, l2 + 1, 0));
            }
            assert(piece_ok(Piece::Comment(cmt))) by {
                assert(lines[l2].skip(c2)[0] == lines[l2][c2]);
                assert(cmt[1] == lines[l2][c2]);
                assert(lines[l2].skip(c2).len() >= 1);
            }
            assert(rem(lines, p3.0, p3.1) < rem(lines, line, col)) by {
                assert(rem(lines, l2, c2) == (lines[l2].len() - c2) + rem(lines, l2 + 1, 0));
            }
            lemma_read_next_window(lines, p3.0, p3.1);
            let mid = pre0 + seq![Piece::Comment(cmt)];
            lemma_pieces_chars_concat(pre0, seq![Piece::Comment(cmt)]);
            lemma_piece_single(Piece::Comment(cmt));
            lemma_pieces_props_concat(pre0, seq![Piece::Comment(cmt)]);
            assert(pieces_ok(mid));
            assert(no_lexeme_pieces(mid));
            assert(pieces_chars(mid) == g + cmt);
            assert(tail_from(lines, line, col) == pieces_chars(mid) + tail_from(
                lines,
                p3.0,
                p3.1,
            )) by {
                assert(g + (cmt + tail_from(lines, p3.0, p3.1)) =~= (g + cmt) + tail_from(
                    lines,
                    p3.0,
                    p3.1,
                ));
            }
            match read_next_at(lines, p3.0, p3.1) {
                Ok(Some(tp)) => {
                    let pre2 = choose|pre: Seq<Piece>|
                        pieces_ok(pre) && no_lexeme_pieces(pre) && tail_from(lines, p3.0, p3.1)
                            == pieces_chars(pre) + tp.0.lexeme + tail_from(
                            lines,
                            tp.1.0,
                            tp.1.1,
                        );
                    let pre = mid + pre2;
                    lemma_pieces_chars_concat(mid, pre2);
                    lemma_pieces_props_concat(mid, pre2);
                    assert(tail_from(lines, line, col) == pieces_chars(pre) + tp.0.lexeme
                        + tail_from(lines, tp.1.0, tp.1.1)) by {
                        assert(pieces_chars(mid) + (pieces_chars(pre2) + tp.0.lexeme + tail_from(
                            lines,
                            tp.1.0,
                            tp.1.1,
                        )) =~= (pieces_chars(mid) + pieces_chars(pre2)) + tp.0.lexeme + tail_from(
                            lines,
                            tp.1.0,
                            tp.1.1,
                        ));
                    }
                },
                Ok(None) => {
                    let pre2 = choose|pre: Seq<Piece>|
                        pieces_ok(pre) && no_lexeme_pieces(pre) && tail_from(lines, p3.0, p3.1)
                            == pieces_chars(pre);
                    let pre = mid + pre2;
                    lemma_pieces_chars_concat(mid, pre2);
                    lemma_pieces_props_concat(mid, pre2);
                    assert(tail_from(lines, line, col) == pieces_chars(pre)) by {
                        assert(pieces_chars(mid) + pieces_chars(pre2) == pieces_chars(pre));
                    }
                },
                Err(e) => {
                },
            }
        } else {
            lemma_punct_window(lines, p1.0, p1.1);
            match punct_scan(lines, p1.0, p1.1) {
                Ok(tp) => {
                    assert(g + (tp.0.lexeme + tail_from(lines, tp.1.0, tp.1.1)) =~= (g
                        + tp.0.lexeme) + tail_from(lines, tp.1.0, tp.1.1));
                    assert(tail_from(lines, line, col) == pieces_chars(pre0) + tp.0.lexeme
                        + tail_from(lines, tp.1.0, tp.1.1));
                },
                Err(e) => {
                },
            }
        }
    }
}

/// A successful whole scan accounts for every remaining character: the
/// pieces cover the source from the starting position exactly, and their
/// lexemes are the lexemes of the tokens produced after `acc`.
proof fn lemma_scan_all_window(
    lines: Seq<Seq<char>>,
    line: int,
    col: int,
    acc: Seq<SpecToken>,
    toks: Seq<SpecToken>,
)
    requires
        canon(lines, line, col),
        scan_all(lines, line, col, acc) == Ok::<Seq<SpecToken>, LexError>(toks),
    ensures
        exists|ps: Seq<Piece>|
            pieces_ok(ps) && pieces_chars(ps) == tail_from(lines, line, col) && lexemes_of(toks)
                == lexemes_of(acc) + pieces_lexemes(ps),
    decreases rem(lines, line, col),
{
    lemma_read_next(lines, line, col);
    lemma_read_next_window(lines, line, col);
    match read_next_at(lines, line, col) {
        Ok(Some(tp)) => {
            let pre = choose|pre: Seq<Piece>|
                pieces_ok(pre) && no_lexeme_pieces(pre) && tail_from(lines, line, col)
                    == pieces_chars(pre) + tp.0.lexeme + tail_from(lines, tp.1.0, tp.1.1);
            lemma_rem_nonneg(lines, tp.1.0, tp.1.1);
            lemma_scan_all_window(lines, tp.1.0, tp.1.1, acc.push(tp.0), toks);
            let ps2 = choose|ps: Seq<Piece>|
                pieces_ok(ps) && pieces_chars(ps) == tail_from(lines, tp.1.0, tp.1.1)
                    && lexemes_of(toks) == lexemes_of(acc.push(tp.0)) + pieces_lexemes(ps);
            let mid = pre + seq![Piece::Lexeme(tp.0.lexeme)];
            let ps = mid + ps2;
            lemma_piece_single(Piece::Lexeme(tp.0.lexeme));
            assert(pieces_chars(seq![Piece::Lexeme(tp.0.lexeme)]) == tp.0.lexeme);
            assert(pieces_lexemes(seq![Piece::Lexeme(tp.0.lexeme)]) == seq![tp.0.lexeme]);
            assert(pieces_ok(seq![Piece::Lexeme(tp.0.lexeme)]));
            lemma_pieces_chars_concat(pre, seq![Piece::Lexeme(tp.0.lexeme)]);
            lemma_pieces_props_concat(pre, seq![Piece::Lexeme(tp.0.lexeme)]);
            lemma_pieces_chars_concat(mid, ps2);
            lemma_pieces_props_concat(mid, ps2);
            assert(pieces_chars(ps) == tail_from(lines, line, col)) by {
                assert((pieces_chars(pre) + tp.0.lexeme) + tail_from(lines, tp.1.0, tp.1.1)
                    =~= pieces_chars(pre) + tp.0.lexeme + tail_from(lines, tp.1.0, tp.1.1));
            }
            lemma_pieces_lexemes_concat(pre, seq![Piece::Lexeme(tp.0.lexeme)]);
            lemma_pieces_lexemes_concat(mid, ps2);
            lemma_no_lexeme_pieces_empty(pre);
            assert(pieces_lexemes(mid) =~= seq![tp.0.lexeme]);
            assert(lexemes_of(acc.push(tp.0)) =~= lexemes_of(acc).push(tp.0.lexeme));
            assert(lexemes_of(toks) == lexemes_of(acc) + pieces_lexemes(ps)) by {
                assert(lexemes_of(acc).push(tp.0.lexeme) + pieces_lexemes(ps2) =~= lexemes_of(acc)
                    + (seq![tp.0.lexeme] + pieces_lexemes(ps2)));
            }
        },
        Ok(None) => {
            let pre = choose|pre: Seq<Piece>|
                pieces_ok(pre) && no_lexeme_pieces(pre) && tail_from(lines, line, col)
                    == pieces_chars(pre);
            lemma_no_lexeme_pieces_empty(pre);
            assert(toks == acc);
            assert(lexemes_of(toks) =~= lexemes_of(acc) + pieces_lexemes(pre));
        },
        Err(e) => {
            assert(false);
        },
    }
}

/// For every input that scans successfully, every character of the source
/// is accounted for by exactly one piece, in source order: a token's
/// lexeme, a skipped whitespace run, or a skipped comment.  The pieces
/// concatenate to the whole source — no character is dropped or duplicated
/// — and the lexeme pieces are exactly the tokens' lexemes, in order.
pub proof fn lemma_every_character_accounted(lines: Seq<Seq<char>>, toks: Seq<SpecToken>)
    requires
        ({
            let p = norm(lines, 0, 0);
            scan_all(lines, p.0, p.1, Seq::<SpecToken>::empty()) == Ok::<
                Seq<SpecToken>,
                LexError,
            >(toks)
        }),
    ensures
        exists|ps: Seq<Piece>|
            pieces_ok(ps) && pieces_chars(ps) == tail_from(lines, 0, 0) && pieces_lexemes(ps)
                == lexemes_of(toks),
{
    lemma_norm(lines, 0, 0);
    lemma_tail_norm(lines, 0, 0);
    let p = norm(lines, 0, 0);
    lemma_scan_all_window(lines, p.0, p.1, Seq::<SpecToken>::empty(), toks);
    let ps = choose|ps: Seq<Piece>|
        pieces_ok(ps) && pieces_chars(ps) == tail_from(lines, p.0, p.1) && lexemes_of(toks)
            == lexemes_of(Seq::<SpecToken>::empty()) + pieces_lexemes(ps);
    assert(lexemes_of(Seq::<SpecToken>::empty()) =~= Seq::<Seq<char>>::empty());
    assert(lexemes_of(Seq::<SpecToken>::empty()) + pieces_lexemes(ps) =~= pieces_lexemes(ps));
    assert(pieces_chars(ps) == tail_from(lines, 0, 0));
}

/// Scanning is a pure function of the source lines and the cursor: two
/// lexers over the same lines at the same position produce the same
/// outcome, so scanning the same input twice yields identical results.
pub proof fn lemma_scan_deterministic(a: Lexer, b: Lexer)
    requires
        a.lines() == b.lines(),
        a.pos() == b.pos(),
    ensures
        scan_all(a.lines(), a.pos().0, a.pos().1, Seq::<SpecToken>::empty()) == scan_all(
            b.lines(),
            b.pos().0,
            b.pos().1,
            Seq::<SpecToken>::empty(),
        ),
{
}

} // verus!
