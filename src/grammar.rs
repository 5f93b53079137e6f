use vstd::prelude::*;
use crate::token::{decimal_text, render_spec, TokenView};
use crate::ast::{ExprView, StmtView};

verus! {

/// Binding strength of operators, weakest first.
#[derive(Debug, Clone, Copy, PartialEq, Eq, Structural)]
pub enum Precedence {
    Lowest,
    Equals,
    LessGreater,
    Sum,
    Product,
    Prefix,
    Call,
}

pub open spec fn level(p: Precedence) -> int {
    match p {
        Precedence::Lowest => 0,
        Precedence::Equals => 1,
        Precedence::LessGreater => 2,
        Precedence::Sum => 3,
        Precedence::Product => 4,
        Precedence::Prefix => 5,
        Precedence::Call => 6,
    }
}

/// A diagnostic, as a value: what was expected, and the token found instead.
pub enum ErrorView {
    ExpectedIdent(TokenView),
    ExpectedAssign(TokenView),
    ExpectedExpression(TokenView),
    IllegalByte(u8, usize),
}

/// The token that a diagnostic reports.
pub open spec fn reported_token(e: ErrorView) -> TokenView {
    match e {
        ErrorView::ExpectedIdent(t) => t,
        ErrorView::ExpectedAssign(t) => t,
        ErrorView::ExpectedExpression(t) => t,
        ErrorView::IllegalByte(b, p) => TokenView::Illegal(b, p),
    }
}

/// The human-readable text of a diagnostic.
pub open spec fn message_text(e: ErrorView) -> Seq<char> {
    match e {
        ErrorView::ExpectedIdent(t) => "expected next token to be IDENT, got "@ + render_spec(t),
        ErrorView::ExpectedAssign(t) => "expected next token to be '=', got "@ + render_spec(t),
        ErrorView::ExpectedExpression(t) => "expected next token to be an expression, got "@
            + render_spec(t),
        ErrorView::IllegalByte(b, p) => "illegal byte "@ + decimal_text(b as nat) + " at offset "@
            + decimal_text(p as nat),
    }
}

/// The `i`-th token of a stream; past its end the stream reads as end of input.
pub open spec fn tok(ts: Seq<TokenView>, i: int) -> TokenView {
    if 0 <= i < ts.len() {
        ts[i]
    } else {
        TokenView::Eof
    }
}

/// The precedence table: the binding strength of each infix operator.
pub open spec fn infix_precedence(t: TokenView) -> Option<Precedence> {
    match t {
        TokenView::Equal => Some(Precedence::Equals),
        TokenView::NotEqual => Some(Precedence::Equals),
        TokenView::LessThan => Some(Precedence::LessGreater),
        TokenView::GreaterThan => Some(Precedence::LessGreater),
        TokenView::Plus => Some(Precedence::Sum),
        TokenView::Minus => Some(Precedence::Sum),
        TokenView::Asterisk => Some(Precedence::Product),
        TokenView::ForwardSlash => Some(Precedence::Product),
        _ => None,
    }
}

/// The node that an infix operator builds from its operands.
pub open spec fn infix_node(op: TokenView, l: ExprView, r: ExprView) -> ExprView {
    let (l, r) = (Box::new(l), Box::new(r));
    match op {
        TokenView::Equal => ExprView::Equal(l, r),
        TokenView::NotEqual => ExprView::NotEqual(l, r),
        TokenView::LessThan => ExprView::LessThan(l, r),
        TokenView::GreaterThan => ExprView::GreaterThan(l, r),
        TokenView::Plus => ExprView::Sum(l, r),
        TokenView::Minus => ExprView::Difference(l, r),
        TokenView::Asterisk => ExprView::Product(l, r),
        _ => ExprView::Quotient(l, r),
    }
}

/// What a parse step yields: the node if it succeeded, the index of the
/// token the parser stands on afterwards, and the diagnostics it recorded.
pub type Parsed<T> = (Option<T>, int, Seq<ErrorView>);

/// Precedence climbing from index `k`: parses an expression whose infix
/// operators all bind tighter than `prec`.
pub open spec fn parse_expr(ts: Seq<TokenView>, k: int, prec: Precedence) -> Parsed<ExprView>
    decreases ts.len() - k, 1int,
{
    let t = tok(ts, k);
    match t {
        TokenView::Ident(x) => parse_infix(ts, k, prec, ExprView::Identifier(x)),
        TokenView::Int(x) => parse_infix(ts, k, prec, ExprView::Literal(x)),
        TokenView::Minus | TokenView::Bang => {
            if k < ts.len() {
                let (o, k1, e) = parse_expr(ts, k + 1, Precedence::Prefix);
                match o {
                    Some(x) => if k <= k1 <= ts.len() {
                        let node = if t is Minus {
                            ExprView::UnaryMinus(Box::new(x))
                        } else {
                            ExprView::Not(Box::new(x))
                        };
                        parse_infix(ts, k1, prec, node)
                    } else {
                        (None, k1, e)
                    },
                    None => (None, k1, e),
                }
            } else {
                (None, k, seq![ErrorView::ExpectedExpression(t)])
            }
        },
        _ => (None, k, seq![ErrorView::ExpectedExpression(t)]),
    }
}

/// The infix loop: `left` ends at index `k`; while the next token is an
/// operator that binds tighter than `prec`, it takes the operator and its
/// right operand and folds them into `left`.
pub open spec fn parse_infix(ts: Seq<TokenView>, k: int, prec: Precedence, left: ExprView) -> Parsed<
    ExprView,
>
    decreases ts.len() - k, 0int,
{
    let op = tok(ts, k + 1);
    match infix_precedence(op) {
        Some(p) => if level(p) > level(prec) && k + 1 < ts.len() {
            let (o, k2, e) = parse_expr(ts, k + 2, p);
            match o {
                Some(r) => if k < k2 <= ts.len() {
                    parse_infix(ts, k2, prec, infix_node(op, left, r))
                } else {
                    (None, k2, e)
                },
                None => (None, k2, e),
            }
        } else {
            (Some(left), k, seq![])
        },
        None => (Some(left), k, seq![]),
    }
}

/// `let <ident> = <expression>`, with the `let` keyword at index `k`.
pub open spec fn parse_let(ts: Seq<TokenView>, k: int) -> Parsed<StmtView> {
    match tok(ts, k + 1) {
        TokenView::Ident(name) => if tok(ts, k + 2) is Assign {
            let (o, k3, e) = parse_expr(ts, k + 3, Precedence::Lowest);
            match o {
                Some(v) => (Some(StmtView::Let(name, v)), k3, e),
                None => (None, k3, e),
            }
        } else {
            (None, k + 2, seq![ErrorView::ExpectedAssign(tok(ts, k + 2))])
        },
        _ => (None, k + 1, seq![ErrorView::ExpectedIdent(tok(ts, k + 1))]),
    }
}

/// `return <expression>`, with the `return` keyword at index `k`.
pub open spec fn parse_return(ts: Seq<TokenView>, k: int) -> Parsed<StmtView> {
    let (o, k1, e) = parse_expr(ts, k + 1, Precedence::Lowest);
    match o {
        Some(v) => (Some(StmtView::Return(v)), k1, e),
        None => (None, k1, e),
    }
}

/// A token that can begin an expression.
pub open spec fn starts_expression(t: TokenView) -> bool {
    t is Ident || t is Int || t is Minus || t is Bang
}

/// One statement starting at index `k`. A token that starts no statement
/// yields nothing and no diagnostic, except an illegal byte, which is reported.
pub open spec fn parse_stmt(ts: Seq<TokenView>, k: int) -> Parsed<StmtView> {
    let t = tok(ts, k);
    if t is Let {
        parse_let(ts, k)
    } else if t is Return {
        parse_return(ts, k)
    } else if starts_expression(t) {
        let (o, k1, e) = parse_expr(ts, k, Precedence::Lowest);
        match o {
            Some(v) => (Some(StmtView::Expression(v)), k1, e),
            None => (None, k1, e),
        }
    } else if t is Illegal {
        (None, k, seq![ErrorView::IllegalByte(t->Illegal_0, t->Illegal_1)])
    } else {
        (None, k, seq![])
    }
}

/// The statements parsed from index `k` until the end of input, and the
/// diagnostics recorded on the way. After each statement the parser steps
/// over one token.
pub open spec fn parse_from(ts: Seq<TokenView>, k: int) -> (Seq<StmtView>, Seq<ErrorView>)
    decreases ts.len() - k,
{
    if k >= ts.len() || tok(ts, k) is Eof {
        (seq![], seq![])
    } else {
        let (o, k1, e) = parse_stmt(ts, k);
        let here = match o {
            Some(s) => seq![s],
            None => seq![],
        };
        if k <= k1 < ts.len() {
            let (rest, rest_errors) = parse_from(ts, k1 + 1);
            (here + rest, e + rest_errors)
        } else {
            (here, e)
        }
    }
}

/// A stream as a lexer yields it: not empty, and ending at the first end of input.
pub open spec fn well_ended(ts: Seq<TokenView>) -> bool {
    &&& ts.len() > 0
    &&& ts.last() is Eof
    &&& forall|i: int| 0 <= i < ts.len() - 1 ==> !(#[trigger] ts[i] is Eof)
}

pub proof fn lemma_parse_expr_bounds(ts: Seq<TokenView>, k: int, prec: Precedence)
    requires
        well_ended(ts),
        0 <= k < ts.len(),
    ensures
        k <= parse_expr(ts, k, prec).1 < ts.len(),
        parse_expr(ts, k, prec).0 is Some ==> parse_expr(ts, k, prec).2 == Seq::<ErrorView>::empty(),
    decreases ts.len() - k, 1int,
{
    let t = tok(ts, k);
    match t {
        TokenView::Ident(x) => lemma_parse_infix_bounds(ts, k, prec, ExprView::Identifier(x)),
        TokenView::Int(x) => lemma_parse_infix_bounds(ts, k, prec, ExprView::Literal(x)),
        TokenView::Minus | TokenView::Bang => {
            lemma_parse_expr_bounds(ts, k + 1, Precedence::Prefix);
            let (o, k1, e) = parse_expr(ts, k + 1, Precedence::Prefix);
            if o is Some {
                let x = o->0;
                let node = if t is Minus {
                    ExprView::UnaryMinus(Box::new(x))
                } else {
                    ExprView::Not(Box::new(x))
                };
                lemma_parse_infix_bounds(ts, k1, prec, node);
            }
        },
        _ => {},
    }
}

pub proof fn lemma_parse_infix_bounds(
    ts: Seq<TokenView>,
    k: int,
    prec: Precedence,
    left: ExprView,
)
    requires
        well_ended(ts),
        0 <= k < ts.len(),
    ensures
        k <= parse_infix(ts, k, prec, left).1 < ts.len(),
        parse_infix(ts, k, prec, left).0 is Some ==> parse_infix(ts, k, prec, left).2
            == Seq::<ErrorView>::empty(),
    decreases ts.len() - k, 0int,
{
    let op = tok(ts, k + 1);
    if infix_precedence(op) is Some {
        let p = infix_precedence(op)->0;
        if level(p) > level(prec) && k + 1 < ts.len() {
            lemma_parse_expr_bounds(ts, k + 2, p);
            let (o, k2, e) = parse_expr(ts, k + 2, p);
            if o is Some {
                lemma_parse_infix_bounds(ts, k2, prec, infix_node(op, left, o->0));
            }
        }
    }
}

pub proof fn lemma_parse_stmt_bounds(ts: Seq<TokenView>, k: int)
    requires
        well_ended(ts),
        0 <= k < ts.len(),
    ensures
        k <= parse_stmt(ts, k).1 < ts.len(),
{
    let t = tok(ts, k);
    if t is Let {
        if tok(ts, k + 1) is Ident && tok(ts, k + 2) is Assign {
            lemma_parse_expr_bounds(ts, k + 3, Precedence::Lowest);
        }
    } else if t is Return {
        lemma_parse_expr_bounds(ts, k + 1, Precedence::Lowest);
    } else if starts_expression(t) {
        lemma_parse_expr_bounds(ts, k, Precedence::Lowest);
    }
}

/// No illegal token stands at an index in `[a, b)`.
pub open spec fn clean(ts: Seq<TokenView>, a: int, b: int) -> bool {
    forall|i: int| a <= i < b ==> !(#[trigger] tok(ts, i) is Illegal)
}

/// An expression parse steps only over tokens that are not illegal; where it
/// fails, its one diagnostic reports the token it stopped on.
proof fn lemma_parse_expr_reports(ts: Seq<TokenView>, k: int, prec: Precedence)
    requires
        well_ended(ts),
        0 <= k < ts.len(),
    ensures
        ({
            let (o, k1, e) = parse_expr(ts, k, prec);
            &&& clean(ts, k, k1)
            &&& o is Some ==> !(tok(ts, k1) is Illegal)
            &&& o is None ==> e == seq![ErrorView::ExpectedExpression(tok(ts, k1))]
        }),
    decreases ts.len() - k, 1int,
{
    lemma_parse_expr_bounds(ts, k, prec);
    let t = tok(ts, k);
    match t {
        TokenView::Ident(x) => lemma_parse_infix_reports(ts, k, prec, ExprView::Identifier(x)),
        TokenView::Int(x) => lemma_parse_infix_reports(ts, k, prec, ExprView::Literal(x)),
        TokenView::Minus | TokenView::Bang => {
            lemma_parse_expr_bounds(ts, k + 1, Precedence::Prefix);
            lemma_parse_expr_reports(ts, k + 1, Precedence::Prefix);
            let (o, k1, e) = parse_expr(ts, k + 1, Precedence::Prefix);
            if o is Some {
                let x = o->0;
                let node = if t is Minus {
                    ExprView::UnaryMinus(Box::new(x))
                } else {
                    ExprView::Not(Box::new(x))
                };
                lemma_parse_infix_reports(ts, k1, prec, node);
                let k2 = parse_infix(ts, k1, prec, node).1;
                assert forall|i: int| k <= i < k2 implies !(#[trigger] tok(ts, i) is Illegal) by {
                    if i > k && i < k1 {
                        assert(clean(ts, k + 1, k1));
                    }
                }
            } else {
                assert forall|i: int| k <= i < k1 implies !(#[trigger] tok(ts, i) is Illegal) by {
                    if i > k {
                        assert(clean(ts, k + 1, k1));
                    }
                }
            }
        },
        _ => {},
    }
}

proof fn lemma_parse_infix_reports(ts: Seq<TokenView>, k: int, prec: Precedence, left: ExprView)
    requires
        well_ended(ts),
        0 <= k < ts.len(),
        !(tok(ts, k) is Illegal),
    ensures
        ({
            let (o, k1, e) = parse_infix(ts, k, prec, left);
            &&& clean(ts, k, k1)
            &&& o is Some ==> !(tok(ts, k1) is Illegal)
            &&& o is None ==> e == seq![ErrorView::ExpectedExpression(tok(ts, k1))]
        }),
    decreases ts.len() - k, 0int,
{
    lemma_parse_infix_bounds(ts, k, prec, left);
    let op = tok(ts, k + 1);
    if infix_precedence(op) is Some {
        let p = infix_precedence(op)->0;
        if level(p) > level(prec) && k + 1 < ts.len() {
            lemma_parse_expr_bounds(ts, k + 2, p);
            lemma_parse_expr_reports(ts, k + 2, p);
            let (o, k2, e) = parse_expr(ts, k + 2, p);
            if o is Some {
                let node = infix_node(op, left, o->0);
                lemma_parse_infix_reports(ts, k2, prec, node);
                let k3 = parse_infix(ts, k2, prec, node).1;
                assert forall|i: int| k <= i < k3 implies !(#[trigger] tok(ts, i) is Illegal) by {
                    if k + 2 <= i < k2 {
                        assert(clean(ts, k + 2, k2));
                    } else if i >= k2 {
                        assert(clean(ts, k2, k3));
                    }
                }
            } else {
                assert forall|i: int| k <= i < k2 implies !(#[trigger] tok(ts, i) is Illegal) by {
                    if k + 2 <= i {
                        assert(clean(ts, k + 2, k2));
                    }
                }
            }
        }
    }
}

/// A statement parse steps only over tokens that are not illegal; if it stops
/// on an illegal token, its one diagnostic reports that token.
proof fn lemma_parse_stmt_reports(ts: Seq<TokenView>, k: int)
    requires
        well_ended(ts),
        0 <= k < ts.len(),
    ensures
        ({
            let (o, k1, e) = parse_stmt(ts, k);
            &&& clean(ts, k, k1)
            &&& tok(ts, k1) is Illegal ==> e.len() == 1 && reported_token(e[0]) == tok(ts, k1)
        }),
{
    let t = tok(ts, k);
    if t is Let {
        if tok(ts, k + 1) is Ident && tok(ts, k + 2) is Assign {
            lemma_parse_expr_bounds(ts, k + 3, Precedence::Lowest);
            lemma_parse_expr_reports(ts, k + 3, Precedence::Lowest);
            let k1 = parse_expr(ts, k + 3, Precedence::Lowest).1;
            assert forall|i: int| k <= i < k1 implies !(#[trigger] tok(ts, i) is Illegal) by {
                if i >= k + 3 {
                    assert(clean(ts, k + 3, k1));
                }
            }
        }
    } else if t is Return {
        lemma_parse_expr_bounds(ts, k + 1, Precedence::Lowest);
        lemma_parse_expr_reports(ts, k + 1, Precedence::Lowest);
        let k1 = parse_expr(ts, k + 1, Precedence::Lowest).1;
        assert forall|i: int| k <= i < k1 implies !(#[trigger] tok(ts, i) is Illegal) by {
            if i >= k + 1 {
                assert(clean(ts, k + 1, k1));
            }
        }
    } else if starts_expression(t) {
        lemma_parse_expr_reports(ts, k, Precedence::Lowest);
    }
}

/// Every illegal token from index `k` on is reported by some diagnostic of
/// the program parse that starts there.
proof fn lemma_parse_from_reports(ts: Seq<TokenView>, k: int, i: int)
    requires
        well_ended(ts),
        0 <= k <= i < ts.len(),
        ts[i] is Illegal,
    ensures
        exists|j: int|
            0 <= j < parse_from(ts, k).1.len() && reported_token(#[trigger] parse_from(ts, k).1[j])
                == ts[i],
    decreases ts.len() - k,
{
    assert(tok(ts, k) is Eof ==> k == ts.len() - 1);
    assert(i != ts.len() - 1);
    lemma_parse_stmt_bounds(ts, k);
    lemma_parse_stmt_reports(ts, k);
    let (o, k1, e) = parse_stmt(ts, k);
    let all = parse_from(ts, k).1;
    if i < k1 {
        assert(tok(ts, i) == ts[i]);
        assert(clean(ts, k, k1));
    } else if i == k1 {
        assert(tok(ts, i) == ts[i]);
        assert(all[0] == e[0]);
    } else {
        lemma_parse_from_reports(ts, k1 + 1, i);
        let later = parse_from(ts, k1 + 1).1;
        let j = choose|j: int| 0 <= j < later.len() && reported_token(#[trigger] later[j]) == ts[i];
        assert(all == e + later);
        assert(all[e.len() + j] == later[j]);
    }
}

/// Every illegal token of a stream is reported by a diagnostic of the
/// program parse.
pub proof fn lemma_illegal_tokens_reported(ts: Seq<TokenView>, i: int)
    requires
        well_ended(ts),
        0 <= i < ts.len(),
        ts[i] is Illegal,
    ensures
        exists|j: int|
            0 <= j < parse_from(ts, 0).1.len() && reported_token(#[trigger] parse_from(ts, 0).1[j])
                == ts[i],
{
    lemma_parse_from_reports(ts, 0, i);
}

} // verus!
