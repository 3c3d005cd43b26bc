use vstd::prelude::*;

verus! {

/// The lexical alphabet of the language: one variant per kind of lexical
/// unit the scanner can produce.  `Ident`, `Int`, `Bool` and `String`
/// carry their payload; `EOF` marks the end of the input, `Illegal` an
/// unrecognized character, and `Nothing` the absence of a token.
#[derive(Debug, PartialEq, Eq, Hash)]
pub enum Token {
    Assign,

    Ident(String),
    Int(i64),
    Bool(bool),
    String(String),

    Comma,

    Plus,
    Minus,
    Star,
    Slash,
    EQ,
    NotEQ,
    GT,
    LT,

    LPAREN,
    RPAREN,
    LBRACE,
    RBRACE,
    LBRACKET,
    RBRACKET,

    If,
    Else,
    Func,
    Var,
    Return,

    NewLine,

    Illegal,
    EOF,

    Nothing,
}

/// Mathematical mirror of `Token`: payloads are sequences and unbounded
/// integers, so contracts can speak of token contents without naming
/// executable types.
pub enum TokenS {
    Assign,

    Ident(Seq<char>),
    Int(int),
    Bool(bool),
    StrLit(Seq<char>),

    Comma,

    Plus,
    Minus,
    Star,
    Slash,
    EQ,
    NotEQ,
    GT,
    LT,

    LPAREN,
    RPAREN,
    LBRACE,
    RBRACE,
    LBRACKET,
    RBRACKET,

    If,
    Else,
    Func,
    Var,
    Return,

    NewLine,

    Illegal,
    EOF,

    Nothing,
}

impl View for Token {
    type V = TokenS;

    open spec fn view(&self) -> TokenS {
        match self {
            Token::Assign => TokenS::Assign,
            Token::Ident(s) => TokenS::Ident(s@),
            Token::Int(i) => TokenS::Int(*i as int),
            Token::Bool(b) => TokenS::Bool(*b),
            Token::String(s) => TokenS::StrLit(s@),
            Token::Comma => TokenS::Comma,
            Token::Plus => TokenS::Plus,
            Token::Minus => TokenS::Minus,
            Token::Star => TokenS::Star,
            Token::Slash => TokenS::Slash,
            Token::EQ => TokenS::EQ,
            Token::NotEQ => TokenS::NotEQ,
            Token::GT => TokenS::GT,
            Token::LT => TokenS::LT,
            Token::LPAREN => TokenS::LPAREN,
            Token::RPAREN => TokenS::RPAREN,
            Token::LBRACE => TokenS::LBRACE,
            Token::RBRACE => TokenS::RBRACE,
            Token::LBRACKET => TokenS::LBRACKET,
            Token::RBRACKET => TokenS::RBRACKET,
            Token::If => TokenS::If,
            Token::Else => TokenS::Else,
            Token::Func => TokenS::Func,
            Token::Var => TokenS::Var,
            Token::Return => TokenS::Return,
            Token::NewLine => TokenS::NewLine,
            Token::Illegal => TokenS::Illegal,
            Token::EOF => TokenS::EOF,
            Token::Nothing => TokenS::Nothing,
        }
    }
}

impl Clone for Token {
    /// Cloning a token preserves its value exactly.
    fn clone(&self) -> (r: Self)
        ensures
            r == *self,
    {
        match self {
            Token::Assign => Token::Assign,
            Token::Ident(s) => Token::Ident(s.clone()),
            Token::Int(i) => Token::Int(*i),
            Token::Bool(b) => Token::Bool(*b),
            Token::String(s) => Token::String(s.clone()),
            Token::Comma => Token::Comma,
            Token::Plus => Token::Plus,
            Token::Minus => Token::Minus,
            Token::Star => Token::Star,
            Token::Slash => Token::Slash,
            Token::EQ => Token::EQ,
            Token::NotEQ => Token::NotEQ,
            Token::GT => Token::GT,
            Token::LT => Token::LT,
            Token::LPAREN => Token::LPAREN,
            Token::RPAREN => Token::RPAREN,
            Token::LBRACE => Token::LBRACE,
            Token::RBRACE => Token::RBRACE,
            Token::LBRACKET => Token::LBRACKET,
            Token::RBRACKET => Token::RBRACKET,
            Token::If => Token::If,
            Token::Else => Token::Else,
            Token::Func => Token::Func,
            Token::Var => Token::Var,
            Token::Return => Token::Return,
            Token::NewLine => Token::NewLine,
            Token::Illegal => Token::Illegal,
            Token::EOF => Token::EOF,
            Token::Nothing => Token::Nothing,
        }
    }
}

} // verus!
