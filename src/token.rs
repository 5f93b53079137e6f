use vstd::prelude::*;
use vstd::string::StringExecFns;

verus! {

/// A lexical unit of the language. Identifiers and integer literals carry
/// their exact source text; an illegal token carries the offending byte and
/// its byte offset in the source.
#[derive(Debug, PartialEq)]
pub enum Token {
    Ident(String),
    Eof,
    Illegal(u8, usize),
    Str(String),
    Int(String),
    Assign,
    Bang,
    Plus,
    Minus,
    ForwardSlash,
    Asterisk,
    Equal,
    NotEqual,
    LessThan,
    GreaterThan,
    Comma,
    Semicolon,
    LParen,
    RParen,
    LBrace,
    RBrace,
    Function,
    Let,
    Return,
}

/// The mathematical model of a token: text payloads become character sequences.
pub enum TokenView {
    Ident(Seq<char>),
    Eof,
    Illegal(u8, usize),
    Str(Seq<char>),
    Int(Seq<char>),
    Assign,
    Bang,
    Plus,
    Minus,
    ForwardSlash,
    Asterisk,
    Equal,
    NotEqual,
    LessThan,
    GreaterThan,
    Comma,
    Semicolon,
    LParen,
    RParen,
    LBrace,
    RBrace,
    Function,
    Let,
    Return,
}

impl View for Token {
    type V = TokenView;

    open spec fn view(&self) -> TokenView {
        match self {
            Token::Ident(s) => TokenView::Ident(s@),
            Token::Eof => TokenView::Eof,
            Token::Illegal(b, p) => TokenView::Illegal(*b, *p),
            Token::Str(s) => TokenView::Str(s@),
            Token::Int(s) => TokenView::Int(s@),
            Token::Assign => TokenView::Assign,
            Token::Bang => TokenView::Bang,
            Token::Plus => TokenView::Plus,
            Token::Minus => TokenView::Minus,
            Token::ForwardSlash => TokenView::ForwardSlash,
            Token::Asterisk => TokenView::Asterisk,
            Token::Equal => TokenView::Equal,
            Token::NotEqual => TokenView::NotEqual,
            Token::LessThan => TokenView::LessThan,
            Token::GreaterThan => TokenView::GreaterThan,
            Token::Comma => TokenView::Comma,
            Token::Semicolon => TokenView::Semicolon,
            Token::LParen => TokenView::LParen,
            Token::RParen => TokenView::RParen,
            Token::LBrace => TokenView::LBrace,
            Token::RBrace => TokenView::RBrace,
            Token::Function => TokenView::Function,
            Token::Let => TokenView::Let,
            Token::Return => TokenView::Return,
        }
    }
}

/// The decimal digits of `n`, most significant first.
pub open spec fn decimal_text(n: nat) -> Seq<char>
    decreases n,
{
    let d = ((n % 10) as u8 + 48u8) as char;
    if n < 10 {
        seq![d]
    } else {
        decimal_text(n / 10).push(d)
    }
}

/// The text of a token as it appears in diagnostics.
pub open spec fn render_spec(t: TokenView) -> Seq<char> {
    match t {
        TokenView::Ident(x) => "Ident("@ + x + ")"@,
        TokenView::Eof => "EOF"@,
        TokenView::Illegal(b, p) => "ILLEGAL(byte "@ + decimal_text(b as nat) + " at "@
            + decimal_text(p as nat) + ")"@,
        TokenView::Str(x) => "String("@ + x + ")"@,
        TokenView::Int(x) => "Int("@ + x + ")"@,
        TokenView::Assign => "="@,
        TokenView::Bang => "!"@,
        TokenView::Plus => "+"@,
        TokenView::Minus => "-"@,
        TokenView::ForwardSlash => "/"@,
        TokenView::Asterisk => "*"@,
        TokenView::Equal => "=="@,
        TokenView::NotEqual => "!="@,
        TokenView::LessThan => "<"@,
        TokenView::GreaterThan => ">"@,
        TokenView::Comma => ","@,
        TokenView::Semicolon => "Semicolon"@,
        TokenView::LParen => "("@,
        TokenView::RParen => ")"@,
        TokenView::LBrace => "{"@,
        TokenView::RBrace => "}"@,
        TokenView::Function => "function"@,
        TokenView::Let => "let"@,
        TokenView::Return => "return"@,
    }
}

impl Clone for Token {
    fn clone(&self) -> (r: Token)
        ensures
            r == *self,
    {
        match self {
            Token::Ident(s) => Token::Ident(s.clone()),
            Token::Eof => Token::Eof,
            Token::Illegal(b, p) => Token::Illegal(*b, *p),
            Token::Str(s) => Token::Str(s.clone()),
            Token::Int(s) => Token::Int(s.clone()),
            Token::Assign => Token::Assign,
            Token::Bang => Token::Bang,
            Token::Plus => Token::Plus,
            Token::Minus => Token::Minus,
            Token::ForwardSlash => Token::ForwardSlash,
            Token::Asterisk => Token::Asterisk,
            Token::Equal => Token::Equal,
            Token::NotEqual => Token::NotEqual,
            Token::LessThan => Token::LessThan,
            Token::GreaterThan => Token::GreaterThan,
            Token::Comma => Token::Comma,
            Token::Semicolon => Token::Semicolon,
            Token::LParen => Token::LParen,
            Token::RParen => Token::RParen,
            Token::LBrace => Token::LBrace,
            Token::RBrace => Token::RBrace,
            Token::Function => Token::Function,
            Token::Let => Token::Let,
            Token::Return => Token::Return,
        }
    }
}

/// Relies on the standard `Display` of `usize`: its decimal digits, most
/// significant first, with no sign or padding.
#[verifier::external_body]
pub(crate) fn decimal(n: usize) -> (r: String)
    ensures
        r@ == decimal_text(n as nat),
{
    n.to_string()
}

pub(crate) fn join(a: &str, b: &str) -> (r: String)
    ensures
        r@ == a@ + b@,
{
    let mut r = String::from_str(a);
    r.append(b);
    r
}

fn wrap(a: &str, x: &str, b: &str) -> (r: String)
    ensures
        r@ == a@ + x@ + b@,
{
    let mut r = String::from_str(a);
    r.append(x);
    r.append(b);
    r
}

impl Token {
    /// The token's text as diagnostics show it.
    pub fn render(&self) -> (r: String)
        ensures
            r@ == render_spec(self@),
    {
        match self {
            Token::Ident(x) => wrap("Ident(", x.as_str(), ")"),
            Token::Eof => String::from_str("EOF"),
            Token::Illegal(b, p) => {
                let byte = decimal(*b as usize);
                let offset = decimal(*p);
                let r = join(wrap("ILLEGAL(byte ", byte.as_str(), " at ").as_str(), offset.as_str());
                join(r.as_str(), ")")
            },
            Token::Str(x) => wrap("String(", x.as_str(), ")"),
            Token::Int(x) => wrap("Int(", x.as_str(), ")"),
            Token::Assign => String::from_str("="),
            Token::Bang => String::from_str("!"),
            Token::Plus => String::from_str("+"),
            Token::Minus => String::from_str("-"),
            Token::ForwardSlash => String::from_str("/"),
            Token::Asterisk => String::from_str("*"),
            Token::Equal => String::from_str("=="),
            Token::NotEqual => String::from_str("!="),
            Token::LessThan => String::from_str("<"),
            Token::GreaterThan => String::from_str(">"),
            Token::Comma => String::from_str(","),
            Token::Semicolon => String::from_str("Semicolon"),
            Token::LParen => String::from_str("("),
            Token::RParen => String::from_str(")"),
            Token::LBrace => String::from_str("{"),
            Token::RBrace => String::from_str("}"),
            Token::Function => String::from_str("function"),
            Token::Let => String::from_str("let"),
            Token::Return => String::from_str("return"),
        }
    }
}

} // verus!
