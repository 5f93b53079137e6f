use vstd::prelude::*;
use vstd::slice::slice_to_vec;
use vstd::utf8::encode_utf8;
use crate::token::{Token, TokenView};
use crate::grammar::{tok, well_ended};

verus! {

/// The byte at offset `i`, or the zero byte past the end of the buffer.
pub open spec fn byte_at(s: Seq<u8>, i: int) -> u8 {
    if 0 <= i < s.len() {
        s[i]
    } else {
        0
    }
}

/// ASCII whitespace: space, tab, line feed, form feed, carriage return.
pub open spec fn is_space(b: u8) -> bool {
    b == 0x20 || b == 0x09 || b == 0x0a || b == 0x0c || b == 0x0d
}

/// ASCII letters and underscore.
pub open spec fn is_word_byte(b: u8) -> bool {
    (0x41 <= b <= 0x5a) || (0x61 <= b <= 0x7a) || b == 0x5f
}

pub open spec fn is_digit(b: u8) -> bool {
    0x30 <= b <= 0x39
}

/// First offset at or after `pos` that does not hold whitespace.
pub open spec fn skip_space(s: Seq<u8>, pos: nat) -> nat
    decreases s.len() - pos,
{
    if pos < s.len() && is_space(s[pos as int]) {
        skip_space(s, pos + 1)
    } else {
        pos
    }
}

/// End of the run of letters and underscores that starts at `pos`.
pub open spec fn word_end(s: Seq<u8>, pos: nat) -> nat
    decreases s.len() - pos,
{
    if pos < s.len() && is_word_byte(s[pos as int]) {
        word_end(s, pos + 1)
    } else {
        pos
    }
}

/// End of the run of decimal digits that starts at `pos`.
pub open spec fn digits_end(s: Seq<u8>, pos: nat) -> nat
    decreases s.len() - pos,
{
    if pos < s.len() && is_digit(s[pos as int]) {
        digits_end(s, pos + 1)
    } else {
        pos
    }
}

/// ASCII bytes read as characters.
pub open spec fn ascii_text(b: Seq<u8>) -> Seq<char> {
    b.map_values(|x: u8| x as char)
}

/// A scanned word: one of the keywords, or else an identifier.
pub open spec fn word_token(w: Seq<u8>) -> TokenView {
    if w == seq![0x66u8, 0x6eu8] {
        TokenView::Function
    } else if w == seq![0x6cu8, 0x65u8, 0x74u8] {
        TokenView::Let
    } else if w == seq![0x72u8, 0x65u8, 0x74u8, 0x75u8, 0x72u8, 0x6eu8] {
        TokenView::Return
    } else {
        TokenView::Ident(ascii_text(w))
    }
}

/// The token for a byte that stands alone, if it is one.
pub open spec fn single_token(c: u8) -> Option<TokenView> {
    if c == 0x7b {
        Some(TokenView::LBrace)
    } else if c == 0x7d {
        Some(TokenView::RBrace)
    } else if c == 0x28 {
        Some(TokenView::LParen)
    } else if c == 0x29 {
        Some(TokenView::RParen)
    } else if c == 0x2c {
        Some(TokenView::Comma)
    } else if c == 0x3b {
        Some(TokenView::Semicolon)
    } else if c == 0x2b {
        Some(TokenView::Plus)
    } else if c == 0x2d {
        Some(TokenView::Minus)
    } else if c == 0x2a {
        Some(TokenView::Asterisk)
    } else if c == 0x2f {
        Some(TokenView::ForwardSlash)
    } else if c == 0x3c {
        Some(TokenView::LessThan)
    } else if c == 0x3e {
        Some(TokenView::GreaterThan)
    } else {
        None
    }
}

/// One pull from a lexer over `s` whose cursor is at `pos`: the token, and
/// where the cursor stands afterwards. At a zero byte (which the end of the
/// buffer reads as) the cursor stays, so the end-of-input token repeats.
pub open spec fn lex_step(s: Seq<u8>, pos: nat) -> (TokenView, nat) {
    let p = skip_space(s, pos);
    let c = byte_at(s, p as int);
    if single_token(c) is Some {
        (single_token(c)->0, p + 1)
    } else if c == 0x21 {
        if byte_at(s, p + 1 as int) == 0x3d {
            (TokenView::NotEqual, p + 2)
        } else {
            (TokenView::Bang, p + 1)
        }
    } else if c == 0x3d {
        if byte_at(s, p + 1 as int) == 0x3d {
            (TokenView::Equal, p + 2)
        } else {
            (TokenView::Assign, p + 1)
        }
    } else if is_word_byte(c) {
        let e = word_end(s, p);
        (word_token(s.subrange(p as int, e as int)), e)
    } else if is_digit(c) {
        let e = digits_end(s, p);
        (TokenView::Int(ascii_text(s.subrange(p as int, e as int))), e)
    } else if c == 0 {
        (TokenView::Eof, p)
    } else {
        (TokenView::Illegal(c, p as usize), p + 1)
    }
}

/// Every token pulled from a lexer over `s` at `pos`, up to and including the
/// first end-of-input token.
pub open spec fn tokens_from(s: Seq<u8>, pos: nat) -> Seq<TokenView>
    decreases s.len() - pos,
{
    let (t, next) = lex_step(s, pos);
    if t is Eof || !(pos < next <= s.len()) {
        seq![t]
    } else {
        seq![t] + tokens_from(s, next)
    }
}

/// The tokens of a whole buffer.
pub open spec fn tokens_of(s: Seq<u8>) -> Seq<TokenView> {
    tokens_from(s, 0)
}

proof fn lemma_skip_space_bounds(s: Seq<u8>, pos: nat)
    requires
        pos <= s.len(),
    ensures
        pos <= skip_space(s, pos) <= s.len(),
        forall|i: int| pos <= i < skip_space(s, pos) ==> is_space(#[trigger] s[i]),
        !is_space(byte_at(s, skip_space(s, pos) as int)),
    decreases s.len() - pos,
{
    if pos < s.len() && is_space(s[pos as int]) {
        lemma_skip_space_bounds(s, pos + 1);
    }
}

proof fn lemma_word_end_bounds(s: Seq<u8>, pos: nat)
    requires
        pos <= s.len(),
    ensures
        pos <= word_end(s, pos) <= s.len(),
        forall|i: int| pos <= i < word_end(s, pos) ==> is_word_byte(#[trigger] s[i]),
        !is_word_byte(byte_at(s, word_end(s, pos) as int)),
    decreases s.len() - pos,
{
    if pos < s.len() && is_word_byte(s[pos as int]) {
        lemma_word_end_bounds(s, pos + 1);
    }
}

proof fn lemma_digits_end_bounds(s: Seq<u8>, pos: nat)
    requires
        pos <= s.len(),
    ensures
        pos <= digits_end(s, pos) <= s.len(),
        forall|i: int| pos <= i < digits_end(s, pos) ==> is_digit(#[trigger] s[i]),
        !is_digit(byte_at(s, digits_end(s, pos) as int)),
    decreases s.len() - pos,
{
    if pos < s.len() && is_digit(s[pos as int]) {
        lemma_digits_end_bounds(s, pos + 1);
    }
}

/// A pull that does not reach the end of input moves the cursor forward,
/// and no pull moves it past the end of the buffer.
pub proof fn lemma_lex_step_progress(s: Seq<u8>, pos: nat)
    requires
        pos <= s.len(),
    ensures
        lex_step(s, pos).1 <= s.len(),
        lex_step(s, pos).0 is Eof ==> lex_step(s, pos).1 == skip_space(s, pos),
        !(lex_step(s, pos).0 is Eof) ==> pos < lex_step(s, pos).1,
{
    lemma_skip_space_bounds(s, pos);
    let p = skip_space(s, pos);
    lemma_word_end_bounds(s, p);
    lemma_digits_end_bounds(s, p);
}

/// Once a pull yields the end of input, every later pull yields it again and
/// leaves the cursor where it is.
pub proof fn lemma_end_of_input_repeats(s: Seq<u8>, pos: nat)
    requires
        pos <= s.len(),
        lex_step(s, pos).0 is Eof,
    ensures
        lex_step(s, lex_step(s, pos).1) == lex_step(s, pos),
{
    lemma_skip_space_bounds(s, pos);
    let p = skip_space(s, pos);
    lemma_skip_space_bounds(s, p);
}

/// Two lexers over the same bytes at the same cursor yield the same tokens,
/// pull for pull.
pub proof fn lemma_lexing_deterministic(a: Lexer, b: Lexer)
    requires
        a@ == b@,
    ensures
        a.remaining() == b.remaining(),
        lex_step(a@.0, a@.1) == lex_step(b@.0, b@.1),
{
}

/// The stream `ts` from index `n` on; past its end, the end of input alone.
pub open spec fn rest(ts: Seq<TokenView>, n: int) -> Seq<TokenView> {
    if 0 <= n < ts.len() {
        ts.skip(n)
    } else {
        seq![TokenView::Eof]
    }
}

/// The tokens of a buffer end at the first end of input, and nowhere before.
pub proof fn lemma_tokens_well_ended(s: Seq<u8>, pos: nat)
    requires
        pos <= s.len(),
    ensures
        well_ended(tokens_from(s, pos)),
    decreases s.len() - pos,
{
    lemma_lex_step_progress(s, pos);
    let (t, next) = lex_step(s, pos);
    if !(t is Eof) {
        lemma_tokens_well_ended(s, next);
        let tail = tokens_from(s, next);
        let all = tokens_from(s, pos);
        assert(all == seq![t] + tail);
        assert forall|i: int| 0 <= i < all.len() - 1 implies !(#[trigger] all[i] is Eof) by {
            if i > 0 {
                assert(all[i] == tail[i - 1]);
            }
        }
    }
}

/// A byte that starts no token and is not whitespace or the end of input.
pub open spec fn is_unrecognised(b: u8) -> bool {
    &&& b != 0
    &&& !is_space(b)
    &&& single_token(b) is None
    &&& b != 0x21 && b != 0x3d
    &&& !is_word_byte(b)
    &&& !is_digit(b)
}

/// An unrecognised byte that no zero byte precedes comes out of the lexer as
/// an illegal token carrying the byte and its offset.
pub proof fn lemma_unrecognised_byte_lexed(s: Seq<u8>, pos: nat, p: int)
    requires
        pos <= p < s.len(),
        is_unrecognised(s[p]),
        forall|q: int| pos <= q < p ==> #[trigger] s[q] != 0,
    ensures
        exists|i: int|
            0 <= i < tokens_from(s, pos).len() && #[trigger] tokens_from(s, pos)[i]
                == TokenView::Illegal(s[p], p as usize),
    decreases s.len() - pos,
{
    lemma_skip_space_bounds(s, pos);
    lemma_lex_step_progress(s, pos);
    let q = skip_space(s, pos);
    if q > p {
        assert(is_space(s[p]));
    }
    let (t, next) = lex_step(s, pos);
    if q == p {
        assert(tokens_from(s, pos)[0] == t);
    } else {
        assert(s[q as int] != 0);
        lemma_word_end_bounds(s, q);
        lemma_digits_end_bounds(s, q);
        if word_end(s, q) > p && is_word_byte(s[q as int]) {
            assert(is_word_byte(s[p]));
        }
        if digits_end(s, q) > p && is_digit(s[q as int]) {
            assert(is_digit(s[p]));
        }
        assert(next <= p);
        lemma_unrecognised_byte_lexed(s, next, p);
        let tail = tokens_from(s, next);
        let i = choose|i: int|
            0 <= i < tail.len() && #[trigger] tail[i] == TokenView::Illegal(s[p], p as usize);
        assert(tokens_from(s, pos) == seq![t] + tail);
        assert(tokens_from(s, pos)[i + 1] == tail[i]);
    }
}

/// A run of letters and underscores from `a` that ends at `b` is scanned to `b`.
pub proof fn lemma_word_run(s: Seq<u8>, a: nat, b: nat)
    requires
        a <= b <= s.len(),
        forall|i: int| a <= i < b ==> is_word_byte(#[trigger] s[i]),
        b < s.len() ==> !is_word_byte(s[b as int]),
    ensures
        word_end(s, a) == b,
    decreases b - a,
{
    if a < b {
        lemma_word_run(s, a + 1, b);
    }
}

/// A run of digits from `a` that ends at `b` is scanned to `b`.
pub proof fn lemma_digit_run(s: Seq<u8>, a: nat, b: nat)
    requires
        a <= b <= s.len(),
        forall|i: int| a <= i < b ==> is_digit(#[trigger] s[i]),
        b < s.len() ==> !is_digit(s[b as int]),
    ensures
        digits_end(s, a) == b,
    decreases b - a,
{
    if a < b {
        lemma_digit_run(s, a + 1, b);
    }
}

/// A pull-based scanner over an owned copy of the source bytes.
#[derive(Clone)]
pub struct Lexer {
    input: Vec<u8>,
    position: usize,
    ch: u8,
}

/// Relies on `String::from_utf8_lossy`: ASCII bytes are valid UTF-8 and come
/// back unchanged, one character per byte.
#[verifier::external_body]
fn ascii_string(bytes: &[u8]) -> (r: String)
    requires
        forall|i: int| 0 <= i < bytes@.len() ==> bytes@[i] < 0x80,
    ensures
        r@ == ascii_text(bytes@),
{
    String::from_utf8_lossy(bytes).into_owned()
}

impl View for Lexer {
    type V = (Seq<u8>, nat);

    /// The source bytes and the cursor.
    closed spec fn view(&self) -> (Seq<u8>, nat) {
        (self.input@, self.position as nat)
    }
}

impl Lexer {
    pub closed spec fn wf(&self) -> bool {
        &&& self.position <= self.input.len()
        &&& self.ch == byte_at(self.input@, self.position as int)
    }

    /// The tokens that the remaining pulls yield, up to the first end of input.
    pub open spec fn remaining(&self) -> Seq<TokenView> {
        tokens_from(self@.0, self@.1)
    }

    pub fn new(input: String) -> (r: Lexer)
        ensures
            r.wf(),
            r@ == (encode_utf8(input@), 0nat),
    {
        let bytes = slice_to_vec(input.as_str().as_bytes());
        let ch = if bytes.len() > 0 { bytes[0] } else { 0 };
        Lexer { input: bytes, position: 0, ch }
    }

    fn peek(&self) -> (r: u8)
        requires
            self.wf(),
        ensures
            r == byte_at(self.input@, self.position + 1),
    {
        if self.input.len() - self.position <= 1 {
            0
        } else {
            self.input[self.position + 1]
        }
    }

    /// Moves the cursor one byte on; it never passes the end of the buffer.
    fn read_char(&mut self)
        requires
            old(self).wf(),
        ensures
            final(self).wf(),
            final(self).input@ == old(self).input@,
            final(self).position == if old(self).position < old(self).input.len() {
                old(self).position + 1
            } else {
                old(self).position as int
            },
    {
        if self.position < self.input.len() {
            self.position = self.position + 1;
        }
        if self.position < self.input.len() {
            self.ch = self.input[self.position];
        } else {
            self.ch = 0;
        }
    }

    fn read_ident(&mut self) -> (r: String)
        requires
            old(self).wf(),
        ensures
            final(self).wf(),
            final(self).input@ == old(self).input@,
            final(self).position == word_end(old(self).input@, old(self).position as nat),
            r@ == ascii_text(
                old(self).input@.subrange(old(self).position as int, final(self).position as int),
            ),
    {
        let pos = self.position;
        while self.ch == 0x5f || (0x41 <= self.ch && self.ch <= 0x5a) || (0x61 <= self.ch
            && self.ch <= 0x7a)
            invariant
                self.wf(),
                self.input@ == old(self).input@,
                pos <= self.position,
                pos == old(self).position,
                word_end(self.input@, pos as nat) == word_end(self.input@, self.position as nat),
                forall|i: int| pos <= i < self.position ==> is_word_byte(#[trigger] self.input@[i]),
            decreases self.input.len() - self.position,
        {
            self.read_char();
        }
        ascii_string(&self.input.as_slice()[pos..self.position])
    }

    fn read_int(&mut self) -> (r: String)
        requires
            old(self).wf(),
        ensures
            final(self).wf(),
            final(self).input@ == old(self).input@,
            final(self).position == digits_end(old(self).input@, old(self).position as nat),
            r@ == ascii_text(
                old(self).input@.subrange(old(self).position as int, final(self).position as int),
            ),
    {
        let pos = self.position;
        while 0x30 <= self.ch && self.ch <= 0x39
            invariant
                self.wf(),
                self.input@ == old(self).input@,
                pos <= self.position,
                pos == old(self).position,
                digits_end(self.input@, pos as nat) == digits_end(
                    self.input@,
                    self.position as nat,
                ),
                forall|i: int| pos <= i < self.position ==> is_digit(#[trigger] self.input@[i]),
            decreases self.input.len() - self.position,
        {
            self.read_char();
        }
        ascii_string(&self.input.as_slice()[pos..self.position])
    }

    fn skip_whitespace(&mut self)
        requires
            old(self).wf(),
        ensures
            final(self).wf(),
            final(self).input@ == old(self).input@,
            final(self).position == skip_space(old(self).input@, old(self).position as nat),
    {
        while self.ch == 0x20 || self.ch == 0x09 || self.ch == 0x0a || self.ch == 0x0c || self.ch
            == 0x0d
            invariant
                self.wf(),
                self.input@ == old(self).input@,
                skip_space(self.input@, old(self).position as nat) == skip_space(
                    self.input@,
                    self.position as nat,
                ),
            decreases self.input.len() - self.position,
        {
            self.read_char();
        }
    }

    /// Produces the next token. Once the input is exhausted every pull yields
    /// `Token::Eof` again; an unrecognised byte yields `Token::Illegal` with the
    /// byte and its offset, and scanning goes on after it.
    pub fn next_token(&mut self) -> (t: Token)
        requires
            old(self).wf(),
        ensures
            final(self).wf(),
            t@ == lex_step(old(self)@.0, old(self)@.1).0,
            final(self)@ == (old(self)@.0, lex_step(old(self)@.0, old(self)@.1).1),
    {
        self.skip_whitespace();
        let ghost s = self.input@;
        let ghost p = self.position as nat;
        assert(self.ch == byte_at(s, p as int));
        let c = self.ch;
        let single = if c == 0x7b {
            Some(Token::LBrace)
        } else if c == 0x7d {
            Some(Token::RBrace)
        } else if c == 0x28 {
            Some(Token::LParen)
        } else if c == 0x29 {
            Some(Token::RParen)
        } else if c == 0x2c {
            Some(Token::Comma)
        } else if c == 0x3b {
            Some(Token::Semicolon)
        } else if c == 0x2b {
            Some(Token::Plus)
        } else if c == 0x2d {
            Some(Token::Minus)
        } else if c == 0x2a {
            Some(Token::Asterisk)
        } else if c == 0x2f {
            Some(Token::ForwardSlash)
        } else if c == 0x3c {
            Some(Token::LessThan)
        } else if c == 0x3e {
            Some(Token::GreaterThan)
        } else {
            None
        };
        let token = match single {
            Some(t) => t,
            None => {
                if c == 0x21 {
                    if self.peek() == 0x3d {
                        self.read_char();
                        Token::NotEqual
                    } else {
                        Token::Bang
                    }
                } else if c == 0x3d {
                    if self.peek() == 0x3d {
                        self.read_char();
                        Token::Equal
                    } else {
                        Token::Assign
                    }
                } else if c == 0x5f || (0x41 <= c && c <= 0x5a) || (0x61 <= c && c <= 0x7a) {
                    let start = self.position;
                    proof {
                        lemma_word_end_bounds(s, p);
                    }
                    let text = self.read_ident();
                    let end = self.position;
                    let ghost w = s.subrange(start as int, end as int);
                    let len = end - start;
                    return if len == 2 && self.input[start] == 0x66 && self.input[start + 1]
                        == 0x6e {
                        assert(w =~= seq![0x66u8, 0x6eu8]);
                        Token::Function
                    } else if len == 3 && self.input[start] == 0x6c && self.input[start + 1]
                        == 0x65 && self.input[start + 2] == 0x74 {
                        assert(w =~= seq![0x6cu8, 0x65u8, 0x74u8]);
                        Token::Let
                    } else if len == 6 && self.input[start] == 0x72 && self.input[start + 1]
                        == 0x65 && self.input[start + 2] == 0x74 && self.input[start + 3] == 0x75
                        && self.input[start + 4] == 0x72 && self.input[start + 5] == 0x6e {
                        assert(w =~= seq![0x72u8, 0x65u8, 0x74u8, 0x75u8, 0x72u8, 0x6eu8]);
                        Token::Return
                    } else {
                        Token::Ident(text)
                    };
                } else if 0x30 <= c && c <= 0x39 {
                    return Token::Int(self.read_int());
                } else if c == 0 {
                    return Token::Eof;
                } else {
                    Token::Illegal(c, self.position)
                }
            },
        };
        self.read_char();
        token
    }

    /// Pulls tokens until the end of input and returns them all, the final
    /// `Token::Eof` included.
    pub fn tokens(&mut self) -> (r: Vec<Token>)
        requires
            old(self).wf(),
        ensures
            final(self).wf(),
            r@.map_values(|t: Token| t@) == old(self).remaining(),
            final(self).remaining() == seq![TokenView::Eof],
    {
        let mut out: Vec<Token> = Vec::new();
        loop
            invariant
                self.wf(),
                self@.0 == old(self)@.0,
                out@.map_values(|t: Token| t@) + self.remaining() == old(self).remaining(),
            decreases self@.0.len() - self@.1,
        {
            let ghost before = self@;
            proof {
                lemma_lex_step_progress(before.0, before.1);
            }
            let t = self.next_token();
            let done = match &t {
                Token::Eof => true,
                _ => false,
            };
            let ghost prev = out@;
            out.push(t);
            assert(out@.map_values(|t: Token| t@) =~= prev.map_values(|t: Token| t@).push(t@));
            if done {
                proof {
                    lemma_end_of_input_repeats(before.0, before.1);
                }
                return out;
            }
            assert(seq![t@] + self.remaining() =~= tokens_from(before.0, before.1));
        }
    }
}

/// A pull from a lexer whose remaining tokens are those of `ts` from index
/// `n` yields the `n`-th token, and leaves the tokens from `n + 1`.
pub proof fn lemma_pull(l: Lexer, ts: Seq<TokenView>, n: int)
    requires
        l.wf(),
        0 <= n,
        l.remaining() == rest(ts, n),
    ensures
        lex_step(l@.0, l@.1).0 == tok(ts, n),
        tokens_from(l@.0, lex_step(l@.0, l@.1).1) == rest(ts, n + 1),
{
    let (s, p) = l@;
    lemma_lex_step_progress(s, p);
    let (t, next) = lex_step(s, p);
    if t is Eof {
        lemma_end_of_input_repeats(s, p);
        lemma_skip_space_bounds(s, p);
        assert(tokens_from(s, next) == seq![TokenView::Eof]);
        if n < ts.len() {
            assert(ts.skip(n).len() == 1);
            assert(ts[n] == ts.skip(n)[0]);
        }
    } else {
        let tail = tokens_from(s, next);
        assert(l.remaining() == seq![t] + tail);
        assert(n < ts.len());
        assert(ts[n] == ts.skip(n)[0]);
        assert(ts.skip(n + 1) =~= ts.skip(n).skip(1));
        assert((seq![t] + tail).skip(1) =~= tail);
    }
}

/// What a lexer has still to yield ends at the first end of input.
pub proof fn lemma_remaining_well_ended(l: Lexer)
    requires
        l.wf(),
    ensures
        well_ended(l.remaining()),
{
    lemma_tokens_well_ended(l@.0, l@.1);
}

} // verus!
