use vstd::prelude::*;
use crate::ast::{ExprView, StmtView};
use crate::grammar::{
    lemma_illegal_tokens_reported, parse_expr, parse_from, parse_infix, parse_let, parse_return,
    parse_stmt, reported_token, tok, ErrorView, Precedence,
};
use crate::lexer::{
    ascii_text, is_digit, is_unrecognised, is_word_byte, lemma_digit_run,
    lemma_tokens_well_ended, lemma_unrecognised_byte_lexed, lemma_word_run, lex_step, skip_space,
    tokens_from, tokens_of, word_token,
};
use crate::token::TokenView;

verus! {

/// An unrecognised byte in the source does not stop the pipeline: when no
/// zero byte (the end of input) comes before it, the program parse records a
/// diagnostic that reports it with its offset.
pub proof fn lemma_unrecognised_byte_reported(s: Seq<u8>, p: int)
    requires
        0 <= p < s.len(),
        is_unrecognised(s[p]),
        forall|q: int| 0 <= q < p ==> #[trigger] s[q] != 0,
    ensures
        exists|j: int|
            0 <= j < parse_from(tokens_of(s), 0).1.len() && reported_token(
                #[trigger] parse_from(tokens_of(s), 0).1[j],
            ) == TokenView::Illegal(s[p], p as usize),
{
    lemma_unrecognised_byte_lexed(s, 0, p);
    lemma_tokens_well_ended(s, 0);
    let ts = tokens_of(s);
    let i = choose|i: int| 0 <= i < ts.len() && #[trigger] ts[i] == TokenView::Illegal(s[p], p as usize);
    lemma_illegal_tokens_reported(ts, i);
}

/// The bytes of `let <name> = <digits>;`.
pub open spec fn let_source(name: Seq<u8>, digits: Seq<u8>) -> Seq<u8> {
    seq![0x6cu8, 0x65u8, 0x74u8, 0x20u8] + name + seq![0x20u8, 0x3du8, 0x20u8] + digits + seq![
        0x3bu8,
    ]
}

/// The bytes of `return <digits>;`.
pub open spec fn return_source(digits: Seq<u8>) -> Seq<u8> {
    seq![0x72u8, 0x65u8, 0x74u8, 0x75u8, 0x72u8, 0x6eu8, 0x20u8] + digits + seq![0x3bu8]
}

/// A name that the lexer reads as an identifier: letters and underscores,
/// and no keyword.
pub open spec fn is_identifier(name: Seq<u8>) -> bool {
    &&& name.len() > 0
    &&& forall|i: int| 0 <= i < name.len() ==> is_word_byte(#[trigger] name[i])
    &&& word_token(name) is Ident
}

pub open spec fn is_numeral(digits: Seq<u8>) -> bool {
    &&& digits.len() > 0
    &&& forall|i: int| 0 <= i < digits.len() ==> is_digit(#[trigger] digits[i])
}

proof fn lemma_let_tokens(name: Seq<u8>, digits: Seq<u8>)
    requires
        is_identifier(name),
        is_numeral(digits),
    ensures
        tokens_of(let_source(name, digits)) == seq![
            TokenView::Let,
            TokenView::Ident(ascii_text(name)),
            TokenView::Assign,
            TokenView::Int(ascii_text(digits)),
            TokenView::Semicolon,
            TokenView::Eof,
        ],
{
    let s = let_source(name, digits);
    let n = name.len() as int;
    let m = digits.len() as int;
    assert(s.len() == 8 + n + m);
    assert forall|i: int| 0 <= i < n implies #[trigger] s[4 + i] == name[i] by {}
    assert forall|i: int| 0 <= i < m implies #[trigger] s[7 + n + i] == digits[i] by {}
    assert(s[0] == 0x6c && s[1] == 0x65 && s[2] == 0x74 && s[3] == 0x20);
    assert(s[4 + n] == 0x20 && s[5 + n] == 0x3d && s[6 + n] == 0x20);
    assert(s[7 + n + m] == 0x3b);
    assert(s[4int] == name[0]);
    assert(s[7 + n + 0] == digits[0]);

    lemma_word_run(s, 0, 3);
    assert(s.subrange(0, 3) =~= seq![0x6cu8, 0x65u8, 0x74u8]);
    assert(lex_step(s, 0) == (TokenView::Let, 3nat));

    assert(skip_space(s, 4) == 4);
    assert(skip_space(s, 3) == 4);
    assert forall|i: int| 4 <= i < 4 + n implies is_word_byte(#[trigger] s[i]) by {
        assert(s[4 + (i - 4)] == name[i - 4]);
    }
    lemma_word_run(s, 4, (4 + n) as nat);
    assert(s.subrange(4, 4 + n) =~= name);
    assert(lex_step(s, 3) == (TokenView::Ident(ascii_text(name)), (4 + n) as nat));

    assert(skip_space(s, (5 + n) as nat) == 5 + n);
    assert(skip_space(s, (4 + n) as nat) == 5 + n);
    assert(lex_step(s, (4 + n) as nat) == (TokenView::Assign, (6 + n) as nat));

    assert(skip_space(s, (7 + n) as nat) == 7 + n);
    assert(skip_space(s, (6 + n) as nat) == 7 + n);
    assert forall|i: int| 7 + n <= i < 7 + n + m implies is_digit(#[trigger] s[i]) by {
        assert(s[7 + n + (i - 7 - n)] == digits[i - 7 - n]);
    }
    lemma_digit_run(s, (7 + n) as nat, (7 + n + m) as nat);
    assert(s.subrange(7 + n, 7 + n + m) =~= digits);
    assert(lex_step(s, (6 + n) as nat) == (TokenView::Int(ascii_text(digits)), (7 + n + m) as nat));

    assert(skip_space(s, (7 + n + m) as nat) == 7 + n + m);
    assert(lex_step(s, (7 + n + m) as nat) == (TokenView::Semicolon, (8 + n + m) as nat));

    assert(skip_space(s, (8 + n + m) as nat) == 8 + n + m);
    assert(lex_step(s, (8 + n + m) as nat).0 is Eof);

    assert(tokens_from(s, (8 + n + m) as nat) == seq![TokenView::Eof]);
    assert(tokens_from(s, (7 + n + m) as nat) =~= seq![TokenView::Semicolon, TokenView::Eof]);
    assert(tokens_from(s, (6 + n) as nat) =~= seq![
        TokenView::Int(ascii_text(digits)),
        TokenView::Semicolon,
        TokenView::Eof,
    ]);
    assert(tokens_from(s, (4 + n) as nat) =~= seq![
        TokenView::Assign,
        TokenView::Int(ascii_text(digits)),
        TokenView::Semicolon,
        TokenView::Eof,
    ]);
    assert(tokens_from(s, 3) =~= seq![
        TokenView::Ident(ascii_text(name)),
        TokenView::Assign,
        TokenView::Int(ascii_text(digits)),
        TokenView::Semicolon,
        TokenView::Eof,
    ]);
    assert(tokens_from(s, 0) =~= seq![
        TokenView::Let,
        TokenView::Ident(ascii_text(name)),
        TokenView::Assign,
        TokenView::Int(ascii_text(digits)),
        TokenView::Semicolon,
        TokenView::Eof,
    ]);
}

/// `let <name> = <digits>;` parses to exactly one `let` statement that binds
/// the name, as written, to the literal, as written, with no diagnostic.
pub proof fn lemma_let_statement_parses(name: Seq<u8>, digits: Seq<u8>)
    requires
        is_identifier(name),
        is_numeral(digits),
    ensures
        parse_from(tokens_of(let_source(name, digits)), 0) == (
            seq![StmtView::Let(ascii_text(name), ExprView::Literal(ascii_text(digits)))],
            Seq::<ErrorView>::empty(),
        ),
{
    lemma_let_tokens(name, digits);
    let ts = tokens_of(let_source(name, digits));
    let lit = ExprView::Literal(ascii_text(digits));
    assert(tok(ts, 4) is Semicolon);
    assert(parse_infix(ts, 3, Precedence::Lowest, lit) == (Some(lit), 3int, Seq::<ErrorView>::empty()));
    assert(parse_expr(ts, 3, Precedence::Lowest) == (Some(lit), 3int, Seq::<ErrorView>::empty()));
    assert(parse_let(ts, 0) == (
        Some(StmtView::Let(ascii_text(name), lit)),
        3int,
        Seq::<ErrorView>::empty(),
    ));
    assert(parse_from(ts, 5) == (Seq::<StmtView>::empty(), Seq::<ErrorView>::empty()));
    assert(parse_stmt(ts, 4) == (None::<StmtView>, 4int, Seq::<ErrorView>::empty()));
    assert(parse_from(ts, 4) =~= (Seq::<StmtView>::empty(), Seq::<ErrorView>::empty()));
    assert(parse_from(ts, 0) =~= (
        seq![StmtView::Let(ascii_text(name), lit)],
        Seq::<ErrorView>::empty(),
    ));
}

proof fn lemma_return_tokens(digits: Seq<u8>)
    requires
        is_numeral(digits),
    ensures
        tokens_of(return_source(digits)) == seq![
            TokenView::Return,
            TokenView::Int(ascii_text(digits)),
            TokenView::Semicolon,
            TokenView::Eof,
        ],
{
    let s = return_source(digits);
    let m = digits.len() as int;
    assert(s.len() == 8 + m);
    assert forall|i: int| 0 <= i < m implies #[trigger] s[7 + i] == digits[i] by {}
    assert(s[0] == 0x72 && s[1] == 0x65 && s[2] == 0x74 && s[3] == 0x75 && s[4] == 0x72 && s[5]
        == 0x6e && s[6] == 0x20);
    assert(s[7 + m] == 0x3b);
    assert(s[7int] == digits[0]);

    lemma_word_run(s, 0, 6);
    assert(s.subrange(0, 6) =~= seq![0x72u8, 0x65u8, 0x74u8, 0x75u8, 0x72u8, 0x6eu8]);
    assert(lex_step(s, 0) == (TokenView::Return, 6nat));

    assert(skip_space(s, 7) == 7);
    assert(skip_space(s, 6) == 7);
    assert forall|i: int| 7 <= i < 7 + m implies is_digit(#[trigger] s[i]) by {
        assert(s[7 + (i - 7)] == digits[i - 7]);
    }
    lemma_digit_run(s, 7, (7 + m) as nat);
    assert(s.subrange(7, 7 + m) =~= digits);
    assert(lex_step(s, 6) == (TokenView::Int(ascii_text(digits)), (7 + m) as nat));

    assert(skip_space(s, (7 + m) as nat) == 7 + m);
    assert(lex_step(s, (7 + m) as nat) == (TokenView::Semicolon, (8 + m) as nat));

    assert(skip_space(s, (8 + m) as nat) == 8 + m);
    assert(lex_step(s, (8 + m) as nat).0 is Eof);

    assert(tokens_from(s, (8 + m) as nat) == seq![TokenView::Eof]);
    assert(tokens_from(s, (7 + m) as nat) =~= seq![TokenView::Semicolon, TokenView::Eof]);
    assert(tokens_from(s, 6) =~= seq![
        TokenView::Int(ascii_text(digits)),
        TokenView::Semicolon,
        TokenView::Eof,
    ]);
    assert(tokens_from(s, 0) =~= seq![
        TokenView::Return,
        TokenView::Int(ascii_text(digits)),
        TokenView::Semicolon,
        TokenView::Eof,
    ]);
}

/// `return <digits>;` parses to exactly one `return` statement of the literal,
/// as written, with no diagnostic.
pub proof fn lemma_return_statement_parses(digits: Seq<u8>)
    requires
        is_numeral(digits),
    ensures
        parse_from(tokens_of(return_source(digits)), 0) == (
            seq![StmtView::Return(ExprView::Literal(ascii_text(digits)))],
            Seq::<ErrorView>::empty(),
        ),
{
    lemma_return_tokens(digits);
    let ts = tokens_of(return_source(digits));
    let lit = ExprView::Literal(ascii_text(digits));
    assert(tok(ts, 2) is Semicolon);
    assert(parse_infix(ts, 1, Precedence::Lowest, lit) == (Some(lit), 1int, Seq::<ErrorView>::empty()));
    assert(parse_expr(ts, 1, Precedence::Lowest) == (Some(lit), 1int, Seq::<ErrorView>::empty()));
    assert(parse_return(ts, 0) == (Some(StmtView::Return(lit)), 1int, Seq::<ErrorView>::empty()));
    assert(parse_from(ts, 3) == (Seq::<StmtView>::empty(), Seq::<ErrorView>::empty()));
    assert(parse_stmt(ts, 2) == (None::<StmtView>, 2int, Seq::<ErrorView>::empty()));
    assert(parse_from(ts, 2) =~= (Seq::<StmtView>::empty(), Seq::<ErrorView>::empty()));
    assert(parse_from(ts, 0) =~= (seq![StmtView::Return(lit)], Seq::<ErrorView>::empty()));
}

} // verus!
