use vstd::prelude::*;
use crate::ast::{StmtView, Expression, Identifier, LetStatement, Literal, Program, ReturnStatement, Statement};
use crate::grammar::{
    infix_node, infix_precedence, level, lemma_parse_expr_bounds, lemma_parse_stmt_bounds, parse_expr,
    parse_from, parse_infix, parse_let, parse_return, parse_stmt, starts_expression, tok, well_ended,
    message_text, ErrorView, Precedence,
};
use crate::lexer::{lemma_pull, lemma_remaining_well_ended, rest, Lexer};
use crate::token::{decimal, join, Token, TokenView};

verus! {

/// A diagnostic recorded while parsing.
#[derive(Debug, Clone, PartialEq)]
pub enum ParseError {
    /// `let` was not followed by an identifier.
    ExpectedIdent(Token),
    /// The identifier of a `let` was not followed by `=`.
    ExpectedAssign(Token),
    /// A token that cannot begin an expression stood where one was needed.
    ExpectedExpression(Token),
    /// A byte that the lexer does not recognise, and its offset.
    IllegalByte(u8, usize),
}

impl View for ParseError {
    type V = ErrorView;

    open spec fn view(&self) -> ErrorView {
        match self {
            ParseError::ExpectedIdent(t) => ErrorView::ExpectedIdent(t@),
            ParseError::ExpectedAssign(t) => ErrorView::ExpectedAssign(t@),
            ParseError::ExpectedExpression(t) => ErrorView::ExpectedExpression(t@),
            ParseError::IllegalByte(b, p) => ErrorView::IllegalByte(*b, *p),
        }
    }
}

impl ParseError {
    /// The diagnostic as a sentence.
    pub fn message(&self) -> (r: String)
        ensures
            r@ == message_text(self@),
    {
        match self {
            ParseError::ExpectedIdent(t) => join(
                "expected next token to be IDENT, got ",
                t.render().as_str(),
            ),
            ParseError::ExpectedAssign(t) => join(
                "expected next token to be '=', got ",
                t.render().as_str(),
            ),
            ParseError::ExpectedExpression(t) => join(
                "expected next token to be an expression, got ",
                t.render().as_str(),
            ),
            ParseError::IllegalByte(b, p) => {
                let head = join("illegal byte ", decimal(*b as usize).as_str());
                let head = join(head.as_str(), " at offset ");
                join(head.as_str(), decimal(*p).as_str())
            },
        }
    }
}

impl Precedence {
    pub fn level(&self) -> (r: u8)
        ensures
            r == level(*self),
    {
        match self {
            Precedence::Lowest => 0,
            Precedence::Equals => 1,
            Precedence::LessGreater => 2,
            Precedence::Sum => 3,
            Precedence::Product => 4,
            Precedence::Prefix => 5,
            Precedence::Call => 6,
        }
    }
}

/// Looks an operator up in the precedence table.
pub fn precedence_of(t: &Token) -> (r: Option<Precedence>)
    ensures
        r == infix_precedence(t@),
{
    match t {
        Token::Equal | Token::NotEqual => Some(Precedence::Equals),
        Token::LessThan | Token::GreaterThan => Some(Precedence::LessGreater),
        Token::Plus | Token::Minus => Some(Precedence::Sum),
        Token::Asterisk | Token::ForwardSlash => Some(Precedence::Product),
        _ => None,
    }
}

/// Builds the node of an infix operator over its two operands.
pub fn infix_expression(op: &Token, left: Expression, right: Expression) -> (r: Expression)
    requires
        infix_precedence(op@) is Some,
    ensures
        r@ == infix_node(op@, left@, right@),
{
    let (l, r) = (Box::new(left), Box::new(right));
    match op {
        Token::Equal => Expression::Equal(l, r),
        Token::NotEqual => Expression::NotEqual(l, r),
        Token::LessThan => Expression::LessThan(l, r),
        Token::GreaterThan => Expression::GreaterThan(l, r),
        Token::Plus => Expression::Sum(l, r),
        Token::Minus => Expression::Difference(l, r),
        Token::Asterisk => Expression::Product(l, r),
        _ => Expression::Quotient(l, r),
    }
}

/// A recursive-descent parser with one token of lookahead over a lexer's
/// token stream. It collects diagnostics instead of stopping at the first.
pub struct Parser {
    lexer: Lexer,
    cur_token: Token,
    peek_token: Token,
    errors: Vec<ParseError>,
    stream: Ghost<Seq<TokenView>>,
    index: Ghost<int>,
}

impl Parser {
    /// Every token that the parser's lexer yields, from the first.
    pub closed spec fn tokens(&self) -> Seq<TokenView> {
        self.stream@
    }

    /// The index in `tokens()` of the current token.
    pub closed spec fn position(&self) -> int {
        self.index@
    }

    /// The diagnostics recorded so far, in order.
    pub closed spec fn errors_view(&self) -> Seq<ErrorView> {
        self.errors@.map_values(|e: ParseError| e@)
    }

    pub closed spec fn wf(&self) -> bool {
        &&& self.lexer.wf()
        &&& well_ended(self.stream@)
        &&& 0 <= self.index@ <= self.stream@.len()
        &&& self.lexer.remaining() == rest(self.stream@, self.index@ + 2)
        &&& self.cur_token@ == tok(self.stream@, self.index@)
        &&& self.peek_token@ == tok(self.stream@, self.index@ + 1)
    }

    pub open spec fn current(&self) -> TokenView {
        tok(self.tokens(), self.position())
    }

    /// A parser over the tokens that `lexer` has still to yield; it pulls the
    /// first two at once.
    pub fn new(lexer: Lexer) -> (r: Parser)
        requires
            lexer.wf(),
        ensures
            r.wf(),
            r.tokens() == lexer.remaining(),
            r.position() == 0,
            r.errors_view() == Seq::<ErrorView>::empty(),
    {
        let ghost ts = lexer.remaining();
        proof {
            lemma_remaining_well_ended(lexer);
            assert(ts.skip(0) =~= ts);
        }
        let mut parser = Parser {
            lexer,
            cur_token: Token::Eof,
            peek_token: Token::Eof,
            errors: Vec::new(),
            stream: Ghost(ts),
            index: Ghost(-2),
        };
        parser.advance();
        parser.advance();
        assert(parser.errors@.map_values(|e: ParseError| e@) =~= Seq::<ErrorView>::empty());
        parser
    }

    /// Shifts the lookahead into the current token and pulls a fresh one.
    fn advance(&mut self)
        requires
            old(self).lexer.wf(),
            well_ended(old(self).stream@),
            -2 <= old(self).index@ <= old(self).stream@.len(),
            old(self).lexer.remaining() == rest(old(self).stream@, old(self).index@ + 2),
            old(self).peek_token@ == tok(old(self).stream@, old(self).index@ + 1),
        ensures
            final(self).lexer.wf(),
            final(self).stream == old(self).stream,
            final(self).index@ == old(self).index@ + 1,
            final(self).errors == old(self).errors,
            final(self).lexer.remaining() == rest(final(self).stream@, final(self).index@ + 2),
            final(self).cur_token@ == tok(final(self).stream@, final(self).index@),
            final(self).peek_token@ == tok(final(self).stream@, final(self).index@ + 1),
    {
        proof {
            lemma_pull(self.lexer, self.stream@, self.index@ + 2);
        }
        let mut t = self.lexer.next_token();
        std::mem::swap(&mut self.peek_token, &mut t);
        self.cur_token = t;
        self.index = Ghost(self.index@ + 1);
        proof {
            let ts = self.stream@;
            if self.index@ + 2 > ts.len() {
                assert(tok(ts, self.index@ + 1) is Eof);
            }
        }
    }

    fn next_token(&mut self)
        requires
            old(self).wf(),
            old(self).position() < old(self).tokens().len(),
        ensures
            final(self).wf(),
            final(self).tokens() == old(self).tokens(),
            final(self).position() == old(self).position() + 1,
            final(self).errors_view() == old(self).errors_view(),
    {
        self.advance();
    }

    fn record(&mut self, e: ParseError)
        requires
            old(self).wf(),
        ensures
            final(self).wf(),
            final(self).tokens() == old(self).tokens(),
            final(self).position() == old(self).position(),
            final(self).errors_view() == old(self).errors_view() + seq![e@],
    {
        let ghost before = self.errors@;
        self.errors.push(e);
        assert(self.errors@.map_values(|e: ParseError| e@) =~= before.map_values(
            |e: ParseError| e@,
        ) + seq![e@]);
    }

    /// Precedence climbing: parses the expression that starts at the current
    /// token and whose infix operators bind tighter than `precedence`; the
    /// parser stops on the expression's last token.
    fn parse_expression(&mut self, precedence: Precedence) -> (r: Option<Expression>)
        requires
            old(self).wf(),
            old(self).position() < old(self).tokens().len(),
        ensures
            final(self).wf(),
            final(self).tokens() == old(self).tokens(),
            ({
                let (o, k, e) = parse_expr(old(self).tokens(), old(self).position(), precedence);
                &&& final(self).position() == k
                &&& final(self).errors_view() == old(self).errors_view() + e
                &&& match r {
                    Some(x) => o == Some(x@),
                    None => o is None,
                }
            }),
        decreases old(self).tokens().len() - old(self).position(),
    {
        let ghost ts = self.stream@;
        let ghost k0 = self.index@;
        let ghost errors0 = self.errors_view();
        proof {
            lemma_parse_expr_bounds(ts, k0, precedence);
        }
        let mut left = match &self.cur_token {
            Token::Ident(name) => Expression::Identifier(Identifier { name: name.clone() }),
            Token::Int(value) => Expression::Literal(Literal { value: value.clone() }),
            Token::Minus | Token::Bang => {
                let minus = matches!(self.cur_token, Token::Minus);
                proof {
                    assert(!(ts[k0] is Eof));
                    lemma_parse_expr_bounds(ts, k0 + 1, Precedence::Prefix);
                }
                self.next_token();
                match self.parse_expression(Precedence::Prefix) {
                    Some(operand) => {
                        if minus {
                            Expression::UnaryMinus(Box::new(operand))
                        } else {
                            Expression::Not(Box::new(operand))
                        }
                    },
                    None => {
                        return None;
                    },
                }
            },
            _ => {
                let found = self.cur_token.clone();
                self.record(ParseError::ExpectedExpression(found));
                return None;
            },
        };
        assert(self.errors_view() =~= errors0 + Seq::<ErrorView>::empty());
        loop
            invariant
                self.wf(),
                self.stream@ == ts,
                ts == old(self).stream@,
                k0 == old(self).index@,
                errors0 == old(self).errors_view(),
                k0 <= self.index@ < ts.len(),
                self.errors_view() == errors0,
                parse_infix(ts, self.index@, precedence, left@) == parse_expr(ts, k0, precedence),
            decreases ts.len() - self.index@,
        {
            let ghost k = self.index@;
            let ghost left0 = left@;
            let op_precedence = match precedence_of(&self.peek_token) {
                Some(p) => {
                    if p.level() > precedence.level() {
                        p
                    } else {
                        assert(self.errors_view() =~= errors0 + Seq::<ErrorView>::empty());
                        return Some(left);
                    }
                },
                None => {
                    assert(self.errors_view() =~= errors0 + Seq::<ErrorView>::empty());
                    return Some(left);
                },
            };
            self.next_token();
            let op = self.cur_token.clone();
            self.next_token();
            proof {
                lemma_parse_expr_bounds(ts, k + 2, op_precedence);
            }
            match self.parse_expression(op_precedence) {
                Some(right) => {
                    assert(self.errors_view() =~= errors0);
                    left = infix_expression(&op, left, right);
                },
                None => {
                    return None;
                },
            }
        }
    }

    /// `let <ident> = <expression>`; the current token is `let`.
    fn parse_let_statement(&mut self) -> (r: Option<Statement>)
        requires
            old(self).wf(),
            old(self).position() < old(self).tokens().len(),
            old(self).current() is Let,
        ensures
            final(self).wf(),
            final(self).tokens() == old(self).tokens(),
            ({
                let (o, k, e) = parse_let(old(self).tokens(), old(self).position());
                &&& final(self).position() == k
                &&& final(self).errors_view() == old(self).errors_view() + e
                &&& match r {
                    Some(x) => o == Some(x@),
                    None => o is None,
                }
            }),
    {
        let ghost ts = self.stream@;
        let ghost k = self.index@;
        proof {
            assert(!(ts[k] is Eof));
        }
        self.next_token();
        let ident = match &self.cur_token {
            Token::Ident(name) => Identifier { name: name.clone() },
            _ => {
                let found = self.cur_token.clone();
                self.record(ParseError::ExpectedIdent(found));
                return None;
            },
        };
        proof {
            assert(!(ts[k + 1] is Eof));
        }
        self.next_token();
        if !matches!(self.cur_token, Token::Assign) {
            let found = self.cur_token.clone();
            self.record(ParseError::ExpectedAssign(found));
            return None;
        }
        proof {
            assert(!(ts[k + 2] is Eof));
        }
        self.next_token();
        match self.parse_expression(Precedence::Lowest) {
            Some(value) => Some(Statement::Let(LetStatement { ident, value })),
            None => None,
        }
    }

    /// `return <expression>`; the current token is `return`.
    fn parse_return_statement(&mut self) -> (r: Option<Statement>)
        requires
            old(self).wf(),
            old(self).position() < old(self).tokens().len(),
            old(self).current() is Return,
        ensures
            final(self).wf(),
            final(self).tokens() == old(self).tokens(),
            ({
                let (o, k, e) = parse_return(old(self).tokens(), old(self).position());
                &&& final(self).position() == k
                &&& final(self).errors_view() == old(self).errors_view() + e
                &&& match r {
                    Some(x) => o == Some(x@),
                    None => o is None,
                }
            }),
    {
        proof {
            assert(!(self.stream@[self.index@] is Eof));
        }
        self.next_token();
        match self.parse_expression(Precedence::Lowest) {
            Some(value) => Some(Statement::Return(ReturnStatement { value })),
            None => None,
        }
    }

    /// An expression used as a statement; the current token begins it.
    fn parse_expression_statement(&mut self) -> (r: Option<Statement>)
        requires
            old(self).wf(),
            old(self).position() < old(self).tokens().len(),
        ensures
            final(self).wf(),
            final(self).tokens() == old(self).tokens(),
            ({
                let (o, k, e) = parse_expr(old(self).tokens(), old(self).position(), Precedence::Lowest);
                &&& final(self).position() == k
                &&& final(self).errors_view() == old(self).errors_view() + e
                &&& match r {
                    Some(x) => o is Some && x@ == StmtView::Expression(o->0),
                    None => o is None,
                }
            }),
    {
        match self.parse_expression(Precedence::Lowest) {
            Some(e) => Some(Statement::Expression(e)),
            None => None,
        }
    }

    /// Dispatches on the current token to the statement it begins.
    fn parse_statement(&mut self) -> (r: Option<Statement>)
        requires
            old(self).wf(),
            old(self).position() < old(self).tokens().len(),
        ensures
            final(self).wf(),
            final(self).tokens() == old(self).tokens(),
            ({
                let (o, k, e) = parse_stmt(old(self).tokens(), old(self).position());
                &&& final(self).position() == k
                &&& final(self).errors_view() == old(self).errors_view() + e
                &&& match r {
                    Some(x) => o == Some(x@),
                    None => o is None,
                }
            }),
    {
        match &self.cur_token {
            Token::Let => self.parse_let_statement(),
            Token::Return => self.parse_return_statement(),
            Token::Ident(_) | Token::Int(_) | Token::Minus | Token::Bang => {
                self.parse_expression_statement()
            },
            Token::Illegal(byte, offset) => {
                let e = ParseError::IllegalByte(*byte, *offset);
                self.record(e);
                None
            },
            _ => {
                assert(self.errors_view() =~= old(self).errors_view() + Seq::<ErrorView>::empty());
                None
            },
        }
    }

    /// Parses statements until the end of input. After each statement the
    /// parser steps over one token; a statement that fails is dropped and its
    /// diagnostic kept. The program is always returned.
    pub fn parse_program(&mut self) -> (r: Option<Program>)
        requires
            old(self).wf(),
        ensures
            final(self).wf(),
            final(self).tokens() == old(self).tokens(),
            final(self).current() is Eof,
            r is Some,
            r->0@ == parse_from(old(self).tokens(), old(self).position()).0,
            final(self).errors_view() == old(self).errors_view() + parse_from(
                old(self).tokens(),
                old(self).position(),
            ).1,
    {
        let ghost ts = self.stream@;
        let ghost k0 = self.index@;
        let mut program = Program { statements: Vec::new() };
        assert(program@ =~= Seq::<StmtView>::empty());
        assert(self.errors_view() + parse_from(ts, k0).1 =~= old(self).errors_view() + parse_from(
            ts,
            k0,
        ).1);
        while !matches!(self.cur_token, Token::Eof)
            invariant
                self.wf(),
                self.stream@ == ts,
                ts == old(self).stream@,
                k0 == old(self).index@,
                program@ + parse_from(ts, self.index@).0 == parse_from(ts, k0).0,
                self.errors_view() + parse_from(ts, self.index@).1 == old(self).errors_view()
                    + parse_from(ts, k0).1,
            decreases ts.len() - self.index@,
        {
            let ghost k = self.index@;
            let ghost errors_before = self.errors_view();
            let ghost program_before = program@;
            proof {
                assert(k < ts.len());
                lemma_parse_stmt_bounds(ts, k);
            }
            let ghost (o, k1, e) = parse_stmt(ts, k);
            let ghost (rest_stmts, rest_errors) = parse_from(ts, k1 + 1);
            if let Some(stmt) = self.parse_statement() {
                program.statements.push(stmt);
                assert(program@ =~= program_before.push(stmt@));
            }
            assert(program@ + rest_stmts =~= program_before + parse_from(ts, k).0);
            assert(self.errors_view() + rest_errors =~= errors_before + parse_from(ts, k).1);
            self.next_token();
        }
        assert(parse_from(ts, self.index@).0 =~= Seq::<StmtView>::empty());
        assert(program@ =~= program@ + parse_from(ts, self.index@).0);
        assert(self.errors_view() =~= self.errors_view() + parse_from(ts, self.index@).1);
        Some(program)
    }

    /// The diagnostics recorded so far, in order.
    pub fn errors(&self) -> (r: &Vec<ParseError>)
        ensures
            r@.map_values(|e: ParseError| e@) == self.errors_view(),
    {
        &self.errors
    }

    /// The diagnostics recorded so far as human-readable sentences, in order.
    pub fn messages(&self) -> (r: Vec<String>)
        ensures
            r@.len() == self.errors_view().len(),
            forall|i: int| 0 <= i < r@.len() ==> #[trigger] r@[i]@ == message_text(
                self.errors_view()[i],
            ),
    {
        let mut out: Vec<String> = Vec::new();
        let mut i: usize = 0;
        while i < self.errors.len()
            invariant
                i <= self.errors@.len(),
                out@.len() == i,
                forall|j: int| 0 <= j < i ==> #[trigger] out@[j]@ == message_text(
                    self.errors@[j]@,
                ),
            decreases self.errors@.len() - i,
        {
            out.push(self.errors[i].message());
            i = i + 1;
        }
        out
    }
}

} // verus!
