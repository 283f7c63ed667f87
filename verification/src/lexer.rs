//! The executable lexer: owns the source lines and the cursor, and produces
//! exactly the token sequence that the spec scanner in `scan` denotes.

use vstd::prelude::*;

use crate::chars::{
    char_is_alphabetic, char_is_alphanumeric, char_is_dec_digit, char_is_hex_digit,
    char_is_whitespace,
};
use crate::cursor::{
    adv, at_end, canon, char_at, current_at, lemma_adv, lemma_norm, lemma_rem_nonneg, norm,
    peek_at, pos_of, rem, valid_at,
};
use crate::scan::{
    dec_digits, digit_scan, hex_digits, hexdigit_scan, ident_rest, lemma_read_next, lemma_skip_ws,
    number_scan, read_next_at, scan_all, scan_ident, single_kind, skip_ws_pos,
    string_rest, string_scan,
};
use crate::token::{
    chars_to_string, spec_keyword, tok_model, toks_model, LexError, Pos, SpecToken, Token,
    TokenKind,
};
use vstd::string::StrSliceExecFns;

verus! {

/// The views of a sequence of character vectors.
pub open spec fn views_of(vs: Seq<Vec<char>>) -> Seq<Seq<char>> {
    Seq::new(vs.len(), |i: int| vs[i]@)
}

/// The source text split at every line feed, as Rust's `split` does: the
/// separators are not part of any line, and a trailing separator yields a
/// final empty line.
pub open spec fn split_lines(t: Seq<char>) -> Seq<Seq<char>>
    decreases t.len(),
{
    if t.len() == 0 {
        seq![Seq::<char>::empty()]
    } else if t[0] == '\n' {
        seq![Seq::<char>::empty()] + split_lines(t.drop_first())
    } else {
        let rest = split_lines(t.drop_first());
        seq![seq![t[0]] + rest[0]] + rest.drop_first()
    }
}

/// `ss` with `p` prefixed onto its first element.
pub open spec fn prepend_first(p: Seq<char>, ss: Seq<Seq<char>>) -> Seq<Seq<char>> {
    seq![p + ss[0]] + ss.drop_first()
}

/// A one-character token with kind `kind` and lexeme `c`.
fn one_char_token(kind: TokenKind, c: char) -> (t: Token)
    ensures
        tok_model(t) == (SpecToken { kind: kind, lexeme: seq![c] }),
{
    let mut v: Vec<char> = Vec::new();
    v.push(c);
    proof {
        assert(v@ =~= seq![c]);
    }
    Token { kind: kind, lexeme: chars_to_string(&v) }
}

/// A two-character token with kind `kind` and lexeme `a` then `b`.
fn two_char_token(kind: TokenKind, a: char, b: char) -> (t: Token)
    ensures
        tok_model(t) == (SpecToken { kind: kind, lexeme: seq![a, b] }),
{
    let mut v: Vec<char> = Vec::new();
    v.push(a);
    v.push(b);
    proof {
        assert(v@ =~= seq![a, b]);
    }
    Token { kind: kind, lexeme: chars_to_string(&v) }
}

/// Decides `single_kind`.
fn single_token_kind(c: char) -> (r: Option<TokenKind>)
    ensures
        r == single_kind(c),
{
    if c == '{' {
        Some(TokenKind::BraceOpen)
    } else if c == '}' {
        Some(TokenKind::BraceClose)
    } else if c == ';' {
        Some(TokenKind::Semicolon)
    } else if c == '(' {
        Some(TokenKind::ParenOpen)
    } else if c == ')' {
        Some(TokenKind::ParenClose)
    } else if c == ':' {
        Some(TokenKind::Colon)
    } else if c == '.' {
        Some(TokenKind::Dot)
    } else if c == '+' {
        Some(TokenKind::Plus)
    } else if c == '-' {
        Some(TokenKind::Minus)
    } else if c == '*' {
        Some(TokenKind::Asterisk)
    } else if c == '/' {
        Some(TokenKind::ForwardSlash)
    } else {
        None
    }
}

/// The lexer: an ordered, immutable sequence of source lines and a cursor
/// position kept canonical (on a character, or exhausted).
pub struct Lexer {
    pub lineno: usize,
    pub lineidx: usize,
    data: Vec<Vec<char>>,
}

impl Lexer {
    /// The source as a sequence of lines of characters.
    pub closed spec fn lines(&self) -> Seq<Seq<char>> {
        views_of(self.data@)
    }

    /// The cursor position as a (line, column) pair.
    pub closed spec fn pos(&self) -> (int, int) {
        (self.lineno as int, self.lineidx as int)
    }

    /// The cursor denotes a character of the source or the exhausted
    /// position.
    pub closed spec fn wf(&self) -> bool {
        canon(self.lines(), self.pos().0, self.pos().1)
    }

    /// Moves the cursor to the canonical position at or after it.
    fn normalize(&mut self)
        requires
            old(self).lineno <= old(self).data.len(),
            old(self).pos().0 < old(self).lines().len() ==> old(self).pos().1 <= old(
                self,
            ).lines()[old(self).pos().0].len(),
            old(self).pos().0 == old(self).lines().len() ==> old(self).lineidx == 0,
        ensures
            final(self).wf(),
            final(self).lines() == old(self).lines(),
            final(self).pos() == norm(old(self).lines(), old(self).pos().0, old(self).pos().1),
    {
        while self.lineno < self.data.len() && self.lineidx >= self.data[self.lineno].len()
            invariant
                self.lineno <= self.data.len(),
                self.lines() == old(self).lines(),
                self.lineno == self.data.len() ==> self.lineidx == 0,
                norm(self.lines(), self.pos().0, self.pos().1) == norm(
                    old(self).lines(),
                    old(self).pos().0,
                    old(self).pos().1,
                ),
            decreases self.data.len() - self.lineno,
        {
            self.lineno = self.lineno + 1;
            self.lineidx = 0;
        }
    }

    /// A lexer over the given lines, with the cursor at the first character
    /// (or exhausted, if there is none).
    pub fn new(data: Vec<String>) -> (l: Lexer)
        ensures
            l.lines() == data.deep_view(),
            l.wf(),
            l.pos() == norm(l.lines(), 0, 0),
    {
        let mut lines_v: Vec<Vec<char>> = Vec::new();
        let mut i: usize = 0;
        while i < data.len()
            invariant
                i <= data.len(),
                lines_v@.len() == i,
                forall|k: int| 0 <= k < i ==> lines_v@[k]@ == #[trigger] data@[k]@,
            decreases data.len() - i,
        {
            let s: &String = &data[i];
            let n: usize = s.as_str().unicode_len();
            let mut line: Vec<char> = Vec::new();
            let mut j: usize = 0;
            while j < n
                invariant
                    j <= n,
                    n == s@.len(),
                    line@ == s@.take(j as int),
                decreases n - j,
            {
                let ch: char = s.as_str().get_char(j);
                line.push(ch);
                j = j + 1;
                proof {
                    assert(line@ =~= s@.take(j as int));
                }
            }
            proof {
                assert(line@ =~= s@);
            }
            lines_v.push(line);
            i = i + 1;
        }
        let mut l = Lexer { lineno: 0, lineidx: 0, data: lines_v };
        proof {
            assert(l.lines() =~= data.deep_view());
        }
        l.normalize();
        l
    }

    /// A lexer over the given text, split into lines at every line feed,
    /// with the cursor at the first character.
    pub fn from_text(text: String) -> (l: Lexer)
        ensures
            l.lines() == split_lines(text@),
            l.wf(),
            l.pos() == norm(l.lines(), 0, 0),
    {
        let n: usize = text.as_str().unicode_len();
        let mut done: Vec<Vec<char>> = Vec::new();
        let mut cur: Vec<char> = Vec::new();
        let mut i: usize = 0;
        proof {
            assert(text@.skip(0) =~= text@);
            assert(split_lines(text@).len() >= 1);
            assert(prepend_first(cur@, split_lines(text@.skip(0))) =~= split_lines(text@));
            assert(views_of(done@) + prepend_first(cur@, split_lines(text@.skip(0))) =~= split_lines(
                text@,
            ));
        }
        while i < n
            invariant
                i <= n,
                n == text@.len(),
                split_lines(text@) == views_of(done@) + prepend_first(
                    cur@,
                    split_lines(text@.skip(i as int)),
                ),
            decreases n - i,
        {
            let ch: char = text.as_str().get_char(i);
            let ghost u = text@.skip(i as int);
            proof {
                assert(u.len() > 0);
                assert(u[0] == ch);
                assert(u.drop_first() =~= text@.skip(i as int + 1));
                assert(split_lines(text@.skip(i as int + 1)).len() >= 1);
            }
            if ch == '\n' {
                let ghost old_done = done@;
                let ghost old_cur = cur@;
                done.push(cur);
                cur = Vec::new();
                proof {
                    let ss = split_lines(text@.skip(i as int + 1));
                    assert(split_lines(u) == seq![Seq::<char>::empty()] + ss);
                    assert(split_lines(u)[0] =~= Seq::<char>::empty());
                    assert(old_cur + split_lines(u)[0] =~= old_cur);
                    assert(split_lines(u).drop_first() =~= ss);
                    assert(prepend_first(old_cur, split_lines(u)) =~= seq![old_cur] + ss);
                    assert(views_of(done@) =~= views_of(old_done) + seq![old_cur]);
                    assert(cur@ + ss[0] =~= ss[0]);
                    assert(prepend_first(cur@, ss) =~= ss);
                    assert(views_of(old_done) + prepend_first(old_cur, split_lines(u))
                        =~= views_of(done@) + prepend_first(cur@, ss));
                }
            } else {
                let ghost old_cur = cur@;
                cur.push(ch);
                proof {
                    let ss = split_lines(text@.skip(i as int + 1));
                    assert(split_lines(u) == seq![seq![ch] + ss[0]] + ss.drop_first());
                    assert(split_lines(u)[0] == seq![ch] + ss[0]);
                    assert(old_cur + (seq![ch] + ss[0]) =~= cur@ + ss[0]);
                    assert(split_lines(u).drop_first() =~= ss.drop_first());
                    assert(prepend_first(old_cur, split_lines(u)) =~= prepend_first(cur@, ss));
                }
            }
            i = i + 1;
        }
        proof {
            assert(text@.skip(n as int) =~= Seq::<char>::empty());
            assert(split_lines(text@.skip(n as int)) == seq![Seq::<char>::empty()]);
        }
        let ghost old_done = done@;
        let ghost old_cur = cur@;
        done.push(cur);
        proof {
            assert(old_cur + Seq::<char>::empty() =~= old_cur);
            assert(prepend_first(old_cur, seq![Seq::<char>::empty()]) =~= seq![old_cur]);
            assert(views_of(done@) =~= views_of(old_done) + seq![old_cur]);
            assert(views_of(done@) =~= split_lines(text@));
        }
        let mut l = Lexer { lineno: 0, lineidx: 0, data: done };
        l.normalize();
        l
    }

    /// The character at the cursor, or `None` once the source is exhausted.
    fn current(&self) -> (r: Option<char>)
        requires
            self.wf(),
        ensures
            r == current_at(self.lines(), self.pos().0, self.pos().1),
    {
        if self.lineno < self.data.len() {
            Some(self.data[self.lineno][self.lineidx])
        } else {
            None
        }
    }

    /// Moves the cursor one character forward, crossing line boundaries;
    /// from the exhausted position it is a no-op.  The result says whether
    /// the cursor left its line.
    fn advance(&mut self) -> (r: Option<()>)
        requires
            old(self).wf(),
        ensures
            final(self).wf(),
            final(self).lines() == old(self).lines(),
            at_end(old(self).lines(), old(self).pos().0) ==> *final(self) == *old(self) && r is None,
            !at_end(old(self).lines(), old(self).pos().0) ==> final(self).pos() == adv(
                old(self).lines(),
                old(self).pos().0,
                old(self).pos().1,
            ) && (r is Some <==> final(self).lineno != old(self).lineno),
    {
        if self.lineno >= self.data.len() {
            return None;
        }
        let entry: usize = self.lineno;
        let len: usize = self.data[self.lineno].len();
        proof {
            assert(self.lines()[self.lineno as int] == self.data@[self.lineno as int]@);
            assert(self.lineidx < len);
        }
        self.lineidx = self.lineidx + 1;
        self.normalize();
        if self.lineno != entry {
            Some(())
        } else {
            None
        }
    }

    /// The character one position ahead of the cursor, crossing line
    /// boundaries, without moving; `None` if that position is past the end.
    fn peek_next(&self) -> (r: Option<char>)
        requires
            self.wf(),
            !at_end(self.lines(), self.pos().0),
        ensures
            r == peek_at(self.lines(), self.pos().0, self.pos().1),
    {
        let mut l: usize = self.lineno;
        let len: usize = self.data[self.lineno].len();
        proof {
            assert(self.lines()[self.lineno as int] == self.data@[self.lineno as int]@);
            assert(self.lineidx < len);
        }
        let mut c: usize = self.lineidx + 1;
        while l < self.data.len() && c >= self.data[l].len()
            invariant
                l <= self.data.len(),
                l == self.data.len() ==> c == 0,
                norm(self.lines(), l as int, c as int) == adv(
                    self.lines(),
                    self.pos().0,
                    self.pos().1,
                ),
            decreases self.data.len() - l,
        {
            l = l + 1;
            c = 0;
        }
        if l < self.data.len() {
            Some(self.data[l][c])
        } else {
            None
        }
    }

    /// Moves the cursor past the run of whitespace at the cursor.
    fn skip_whitespace(&mut self)
        requires
            old(self).wf(),
        ensures
            final(self).wf(),
            final(self).lines() == old(self).lines(),
            final(self).pos() == skip_ws_pos(old(self).lines(), old(self).pos().0, old(self).pos().1),
    {
        loop
            invariant
                self.wf(),
                self.lines() == old(self).lines(),
                skip_ws_pos(self.lines(), self.pos().0, self.pos().1) == skip_ws_pos(
                    old(self).lines(),
                    old(self).pos().0,
                    old(self).pos().1,
                ),
            ensures
                self.wf(),
                self.lines() == old(self).lines(),
                self.pos() == skip_ws_pos(old(self).lines(), old(self).pos().0, old(self).pos().1),
            decreases rem(self.lines(), self.pos().0, self.pos().1),
        {
            match self.current() {
                None => {
                    break ;
                },
                Some(c) => {
                    if !char_is_whitespace(c) {
                        break ;
                    }
                    proof {
                        lemma_adv(self.lines(), self.pos().0, self.pos().1);
                    }
                    self.advance();
                },
            }
        }
    }

    /// The keyword kind of `word`, or `None` if `word` is no keyword.
    fn keyword(&self, word: &Vec<char>) -> (r: Option<TokenKind>)
        ensures
            r == spec_keyword(word@),
    {
        if word.len() == 4 && word[0] == 'f' && word[1] == 'r' && word[2] == 'o' && word[3] == 'm' {
            proof {
                assert(word@ =~= crate::token::kw_from());
            }
            return Some(TokenKind::From);
        }
        if word.len() == 6 && word[0] == 'i' && word[1] == 'm' && word[2] == 'p' && word[3] == 'o'
            && word[4] == 'r' && word[5] == 't' {
            proof {
                assert(word@ =~= crate::token::kw_import());
            }
            return Some(TokenKind::Import);
        }
        if word.len() == 3 && word[0] == 'f' && word[1] == 'u' && word[2] == 'n' {
            proof {
                assert(word@ =~= crate::token::kw_fun());
            }
            return Some(TokenKind::Fun);
        }
        if word.len() == 3 && word[0] == 'm' && word[1] == 'u' && word[2] == 't' {
            proof {
                assert(word@ =~= crate::token::kw_mut());
            }
            return Some(TokenKind::Mut);
        }
        None
    }

    /// Recognizes the identifier or keyword starting at the cursor.
    fn identifier(&mut self) -> (t: Token)
        requires
            old(self).wf(),
            valid_at(old(self).lines(), old(self).pos().0, old(self).pos().1),
        ensures
            final(self).wf(),
            final(self).lines() == old(self).lines(),
            ({
                let r = scan_ident(old(self).lines(), old(self).pos().0, old(self).pos().1);
                tok_model(t) == r.0 && final(self).pos() == r.1
            }),
    {
        let c0: char = self.current().unwrap();
        let mut word: Vec<char> = Vec::new();
        word.push(c0);
        proof {
            assert(word@ =~= seq![c0]);
            lemma_adv(self.lines(), self.pos().0, self.pos().1);
        }
        self.advance();
        let ghost start = self.pos();
        loop
            invariant
                self.wf(),
                self.lines() == old(self).lines(),
                ident_rest(self.lines(), self.pos().0, self.pos().1, word@) == ident_rest(
                    self.lines(),
                    start.0,
                    start.1,
                    seq![c0],
                ),
            ensures
                self.wf(),
                self.lines() == old(self).lines(),
                ident_rest(self.lines(), start.0, start.1, seq![c0]) == (
                    word@,
                    self.pos().0,
                    self.pos().1,
                ),
            decreases rem(self.lines(), self.pos().0, self.pos().1),
        {
            match self.current() {
                None => {
                    break ;
                },
                Some(ch) => {
                    if char_is_alphanumeric(ch) || ch == '_' {
                        word.push(ch);
                        proof {
                            lemma_adv(self.lines(), self.pos().0, self.pos().1);
                        }
                        self.advance();
                    } else {
                        break ;
                    }
                },
            }
        }
        let kind: TokenKind = match self.keyword(&word) {
            Some(k) => k,
            None => TokenKind::Identifier,
        };
        Token { kind: kind, lexeme: chars_to_string(&word) }
    }

    /// Recognizes the hexadecimal tail of a number, with the cursor on the
    /// `x` and the leading digit already in `num`.
    fn hexdigit(&mut self, num: Vec<char>) -> (r: Result<Token, LexError>)
        requires
            old(self).wf(),
            valid_at(old(self).lines(), old(self).pos().0, old(self).pos().1),
        ensures
            final(self).wf(),
            final(self).lines() == old(self).lines(),
            ({
                let s = hexdigit_scan(old(self).lines(), old(self).pos().0, old(self).pos().1, num@);
                match r {
                    Ok(t) => s == Ok::<(SpecToken, (int, int)), LexError>(
                        (tok_model(t), final(self).pos()),
                    ),
                    Err(e) => s == Err::<(SpecToken, (int, int)), LexError>(e),
                }
            }),
    {
        let mut num = num;
        let x: char = self.current().unwrap();
        num.push(x);
        proof {
            lemma_adv(self.lines(), self.pos().0, self.pos().1);
        }
        self.advance();
        let ok: bool = match self.current() {
            Some(c) => char_is_hex_digit(c),
            None => false,
        };
        if !ok {
            return Err(LexError::MissingHexDigit(Pos { line: self.lineno, col: self.lineidx }));
        }
        let ghost start = self.pos();
        let ghost acc0 = num@;
        loop
            invariant
                self.wf(),
                self.lines() == old(self).lines(),
                hex_digits(self.lines(), self.pos().0, self.pos().1, num@) == hex_digits(
                    self.lines(),
                    start.0,
                    start.1,
                    acc0,
                ),
            ensures
                self.wf(),
                self.lines() == old(self).lines(),
                hex_digits(self.lines(), start.0, start.1, acc0) == (
                    num@,
                    self.pos().0,
                    self.pos().1,
                ),
            decreases rem(self.lines(), self.pos().0, self.pos().1),
        {
            match self.current() {
                None => {
                    break ;
                },
                Some(ch) => {
                    if char_is_hex_digit(ch) {
                        num.push(ch);
                        proof {
                            lemma_adv(self.lines(), self.pos().0, self.pos().1);
                        }
                        self.advance();
                    } else {
                        break ;
                    }
                },
            }
        }
        Ok(Token { kind: TokenKind::HexInteger, lexeme: chars_to_string(&num) })
    }

    /// Recognizes the decimal tail of a number (further digits, and a
    /// possible fractional part), with the leading digit already in `num`.
    fn digit(&mut self, num: Vec<char>) -> (r: Result<Token, LexError>)
        requires
            old(self).wf(),
        ensures
            final(self).wf(),
            final(self).lines() == old(self).lines(),
            ({
                let s = digit_scan(old(self).lines(), old(self).pos().0, old(self).pos().1, num@);
                match r {
                    Ok(t) => s == Ok::<(SpecToken, (int, int)), LexError>(
                        (tok_model(t), final(self).pos()),
                    ),
                    Err(e) => s == Err::<(SpecToken, (int, int)), LexError>(e),
                }
            }),
    {
        let mut num = num;
        let ghost start = self.pos();
        let ghost acc0 = num@;
        loop
            invariant
                self.wf(),
                self.lines() == old(self).lines(),
                dec_digits(self.lines(), self.pos().0, self.pos().1, num@) == dec_digits(
                    self.lines(),
                    start.0,
                    start.1,
                    acc0,
                ),
            ensures
                self.wf(),
                self.lines() == old(self).lines(),
                dec_digits(self.lines(), start.0, start.1, acc0) == (
                    num@,
                    self.pos().0,
                    self.pos().1,
                ),
            decreases rem(self.lines(), self.pos().0, self.pos().1),
        {
            match self.current() {
                None => {
                    break ;
                },
                Some(ch) => {
                    if char_is_dec_digit(ch) {
                        num.push(ch);
                        proof {
                            lemma_adv(self.lines(), self.pos().0, self.pos().1);
                        }
                        self.advance();
                    } else {
                        break ;
                    }
                },
            }
        }
        let dot: bool = match self.current() {
            Some(c) => c == '.',
            None => false,
        };
        if !dot {
            return Ok(Token { kind: TokenKind::Integer, lexeme: chars_to_string(&num) });
        }
        proof {
            lemma_adv(self.lines(), self.pos().0, self.pos().1);
        }
        self.advance();
        num.push('.');
        let frac: bool = match self.current() {
            Some(c) => char_is_dec_digit(c),
            None => false,
        };
        if !frac {
            return Err(
                LexError::MissingFractionalDigit(Pos { line: self.lineno, col: self.lineidx }),
            );
        }
        let ghost start2 = self.pos();
        let ghost acc2 = num@;
        loop
            invariant
                self.wf(),
                self.lines() == old(self).lines(),
                dec_digits(self.lines(), self.pos().0, self.pos().1, num@) == dec_digits(
                    self.lines(),
                    start2.0,
                    start2.1,
                    acc2,
                ),
            ensures
                self.wf(),
                self.lines() == old(self).lines(),
                dec_digits(self.lines(), start2.0, start2.1, acc2) == (
                    num@,
                    self.pos().0,
                    self.pos().1,
                ),
            decreases rem(self.lines(), self.pos().0, self.pos().1),
        {
            match self.current() {
                None => {
                    break ;
                },
                Some(ch) => {
                    if char_is_dec_digit(ch) {
                        num.push(ch);
                        proof {
                            lemma_adv(self.lines(), self.pos().0, self.pos().1);
                        }
                        self.advance();
                    } else {
                        break ;
                    }
                },
            }
        }
        Ok(Token { kind: TokenKind::Double, lexeme: chars_to_string(&num) })
    }

    /// Recognizes the number starting at the cursor (a decimal digit).
    fn number(&mut self) -> (r: Result<Token, LexError>)
        requires
            old(self).wf(),
            valid_at(old(self).lines(), old(self).pos().0, old(self).pos().1),
        ensures
            final(self).wf(),
            final(self).lines() == old(self).lines(),
            ({
                let s = number_scan(old(self).lines(), old(self).pos().0, old(self).pos().1);
                match r {
                    Ok(t) => s == Ok::<(SpecToken, (int, int)), LexError>(
                        (tok_model(t), final(self).pos()),
                    ),
                    Err(e) => s == Err::<(SpecToken, (int, int)), LexError>(e),
                }
            }),
    {
        let d: char = self.current().unwrap();
        let mut num: Vec<char> = Vec::new();
        num.push(d);
        proof {
            assert(num@ =~= seq![d]);
            lemma_adv(self.lines(), self.pos().0, self.pos().1);
        }
        self.advance();
        let is_x: bool = match self.current() {
            Some(c) => c == 'x',
            None => false,
        };
        if is_x {
            self.hexdigit(num)
        } else {
            self.digit(num)
        }
    }

    /// Recognizes the string literal starting at the cursor (the opening
    /// quote).
    fn string(&mut self) -> (r: Result<Token, LexError>)
        requires
            old(self).wf(),
            valid_at(old(self).lines(), old(self).pos().0, old(self).pos().1),
        ensures
            final(self).wf(),
            final(self).lines() == old(self).lines(),
            ({
                let s = string_scan(old(self).lines(), old(self).pos().0, old(self).pos().1);
                match r {
                    Ok(t) => s == Ok::<(SpecToken, (int, int)), LexError>(
                        (tok_model(t), final(self).pos()),
                    ),
                    Err(e) => s == Err::<(SpecToken, (int, int)), LexError>(e),
                }
            }),
    {
        let q: char = self.current().unwrap();
        let mut s: Vec<char> = Vec::new();
        s.push(q);
        let mut escape: bool = false;
        proof {
            assert(s@ =~= seq![q]);
            lemma_adv(self.lines(), self.pos().0, self.pos().1);
        }
        self.advance();
        let ghost start = self.pos();
        loop
            invariant_except_break
                self.wf(),
                self.lines() == old(self).lines(),
                valid_at(old(self).lines(), old(self).pos().0, old(self).pos().1),
                q == char_at(old(self).lines(), old(self).pos().0, old(self).pos().1),
                start == adv(old(self).lines(), old(self).pos().0, old(self).pos().1),
                string_rest(self.lines(), self.pos().0, self.pos().1, s@, escape) == string_rest(
                    self.lines(),
                    start.0,
                    start.1,
                    seq![q],
                    false,
                ),
            ensures
                self.wf(),
                self.lines() == old(self).lines(),
                string_rest(self.lines(), start.0, start.1, seq![q], false) == Ok::<
                    (Seq<char>, (int, int)),
                    LexError,
                >((s@, (self.pos().0, self.pos().1))),
            decreases rem(self.lines(), self.pos().0, self.pos().1),
        {
            match self.current() {
                None => {
                    proof {
                        assert(at_end(self.lines(), self.pos().0));
                        assert(string_rest(self.lines(), self.pos().0, self.pos().1, s@, escape)
                            == Err::<(Seq<char>, (int, int)), LexError>(
                            LexError::UnterminatedString(pos_of(self.pos().0, self.pos().1)),
                        ));
                        assert(pos_of(self.pos().0, self.pos().1) == (Pos {
                            line: self.lineno,
                            col: self.lineidx,
                        }));
                    }
                    return Err(
                        LexError::UnterminatedString(
                            Pos { line: self.lineno, col: self.lineidx },
                        ),
                    );
                },
                Some(c) => {
                    s.push(c);
                    proof {
                        lemma_adv(self.lines(), self.pos().0, self.pos().1);
                    }
                    self.advance();
                    if c == '"' && !escape {
                        break ;
                    } else if c == '\\' {
                        escape = !escape;
                    } else {
                        escape = false;
                    }
                },
            }
        }
        Ok(Token { kind: TokenKind::StringLiteral, lexeme: chars_to_string(&s) })
    }

    /// Reads the next token: skips whitespace and comments, dispatches on
    /// the current character, and returns `Ok(None)` at the end of input.
    fn read_next(&mut self) -> (r: Result<Option<Token>, LexError>)
        requires
            old(self).wf(),
        ensures
            final(self).wf(),
            final(self).lines() == old(self).lines(),
            ({
                let s = read_next_at(old(self).lines(), old(self).pos().0, old(self).pos().1);
                match r {
                    Ok(Some(t)) => s == Ok::<Option<(SpecToken, (int, int))>, LexError>(
                        Some((tok_model(t), final(self).pos())),
                    ),
                    Ok(None) => s == Ok::<Option<(SpecToken, (int, int))>, LexError>(None),
                    Err(e) => s == Err::<Option<(SpecToken, (int, int))>, LexError>(e),
                }
            }),
    {
        loop
            invariant
                self.wf(),
                self.lines() == old(self).lines(),
                read_next_at(self.lines(), self.pos().0, self.pos().1) == read_next_at(
                    old(self).lines(),
                    old(self).pos().0,
                    old(self).pos().1,
                ),
            decreases rem(self.lines(), self.pos().0, self.pos().1),
        {
            let ghost (hl, hc) = self.pos();
            proof {
                lemma_skip_ws(self.lines(), hl, hc);
            }
            self.skip_whitespace();
            let c: char = match self.current() {
                None => {
                    return Ok(None);
                },
                Some(c) => c,
            };
            if char_is_alphabetic(c) || c == '_' {
                let t = self.identifier();
                return Ok(Some(t));
            }
            if char_is_dec_digit(c) {
                return match self.number() {
                    Ok(t) => Ok(Some(t)),
                    Err(e) => Err(e),
                };
            }
            if c == '"' {
                return match self.string() {
                    Ok(t) => Ok(Some(t)),
                    Err(e) => Err(e),
                };
            }
            if c == '/' {
                let comment: bool = match self.peek_next() {
                    Some(c2) => c2 == '/',
                    None => false,
                };
                if comment {
                    proof {
                        lemma_adv(self.lines(), self.pos().0, self.pos().1);
                    }
                    self.advance();
                    let entry: usize = self.lineno;
                    let ghost target = norm(self.lines(), entry as int + 1, 0);
                    proof {
                        lemma_norm(self.lines(), entry as int + 1, 0);
                        assert(rem(self.lines(), self.pos().0, self.pos().1) == (self.lines()[
                            entry as int
                        ].len() - self.pos().1) + rem(self.lines(), entry as int + 1, 0));
                    }
                    while self.lineno == entry
                        invariant
                            self.wf(),
                            self.lines() == old(self).lines(),
                            entry < self.lines().len(),
                            target == norm(self.lines(), entry as int + 1, 0),
                            self.lineno == entry ==> rem(
                                self.lines(),
                                target.0,
                                target.1,
                            ) <= rem(self.lines(), self.pos().0, self.pos().1) - 1,
                            self.lineno != entry ==> self.pos() == target,
                        decreases rem(self.lines(), self.pos().0, self.pos().1),
                    {
                        proof {
                            lemma_adv(self.lines(), self.pos().0, self.pos().1);
                        }
                        self.advance();
                        proof {
                            lemma_norm(self.lines(), entry as int + 1, 0);
                            if self.lineno == entry {
                                assert(rem(self.lines(), self.pos().0, self.pos().1) == (
                                self.lines()[entry as int].len() - self.pos().1) + rem(
                                    self.lines(),
                                    entry as int + 1,
                                    0,
                                ));
                            }
                        }
                    }
                    continue ;
                }
            }
            match single_token_kind(c) {
                Some(k) => {
                    proof {
                        lemma_adv(self.lines(), self.pos().0, self.pos().1);
                    }
                    self.advance();
                    return Ok(Some(one_char_token(k, c)));
                },
                None => {
                    if c == '=' || c == '>' || c == '<' || c == '!' {
                        let eq: bool = match self.peek_next() {
                            Some(c2) => c2 == '=',
                            None => false,
                        };
                        if eq {
                            proof {
                                lemma_adv(self.lines(), self.pos().0, self.pos().1);
                            }
                            self.advance();
                            proof {
                                lemma_adv(self.lines(), self.pos().0, self.pos().1);
                            }
                            self.advance();
                            let kind: TokenKind = if c == '=' {
                                TokenKind::EqualTo
                            } else if c == '>' {
                                TokenKind::GreaterEqual
                            } else if c == '<' {
                                TokenKind::LessEqual
                            } else {
                                TokenKind::NotEqual
                            };
                            return Ok(Some(two_char_token(kind, c, '=')));
                        } else {
                            proof {
                                lemma_adv(self.lines(), self.pos().0, self.pos().1);
                            }
                            self.advance();
                            let kind: TokenKind = if c == '=' {
                                TokenKind::Equals
                            } else if c == '>' {
                                TokenKind::Greater
                            } else if c == '<' {
                                TokenKind::Less
                            } else {
                                TokenKind::Exclamation
                            };
                            return Ok(Some(one_char_token(kind, c)));
                        }
                    }
                    return Err(
                        LexError::UnexpectedCharacter(
                            c,
                            Pos { line: self.lineno, col: self.lineidx },
                        ),
                    );
                },
            }
        }
    }

    /// Scans the whole source: tokens in order until the end of input, or
    /// the first lexical error.
    pub fn analyze(&mut self) -> (r: Result<Vec<Token>, LexError>)
        requires
            old(self).wf(),
        ensures
            final(self).wf(),
            final(self).lines() == old(self).lines(),
            ({
                let s = scan_all(
                    old(self).lines(),
                    old(self).pos().0,
                    old(self).pos().1,
                    Seq::<SpecToken>::empty(),
                );
                match r {
                    Ok(toks) => s == Ok::<Seq<SpecToken>, LexError>(toks_model(toks@)),
                    Err(e) => s == Err::<Seq<SpecToken>, LexError>(e),
                }
            }),
    {
        let mut tokens: Vec<Token> = Vec::new();
        proof {
            assert(toks_model(tokens@) =~= Seq::<SpecToken>::empty());
        }
        loop
            invariant
                self.wf(),
                self.lines() == old(self).lines(),
                scan_all(self.lines(), self.pos().0, self.pos().1, toks_model(tokens@))
                    == scan_all(
                    old(self).lines(),
                    old(self).pos().0,
                    old(self).pos().1,
                    Seq::<SpecToken>::empty(),
                ),
            decreases rem(self.lines(), self.pos().0, self.pos().1),
        {
            let ghost (hl, hc) = self.pos();
            let ghost before = toks_model(tokens@);
            proof {
                lemma_read_next(self.lines(), hl, hc);
            }
            match self.read_next() {
                Ok(Some(t)) => {
                    tokens.push(t);
                    proof {
                        assert(toks_model(tokens@) =~= before.push(tok_model(t)));
                        lemma_rem_nonneg(self.lines(), self.pos().0, self.pos().1);
                    }
                },
                Ok(None) => {
                    return Ok(tokens);
                },
                Err(e) => {
                    return Err(e);
                },
            }
        }
    }
}

} // verus!
