use vstd::prelude::*;

verus! {

/// A lexical token.
#[derive(Debug, PartialEq, Eq, Clone)]
pub enum Token {
    Illegal,
    EOF,
    Ident(String),
    StringLiteral(String),
    IntLiteral(i64),
    BoolLiteral(bool),
    /// `==`
    Equal,
    /// `!=`
    NotEqual,
    /// `>=`
    GreaterThanEqual,
    /// `<=`
    LessThanEqual,
    /// `=`
    Assign,
    /// `+`
    Plus,
    /// `-`
    Minus,
    /// `/`
    Divide,
    /// `*`
    Multiply,
    /// `>`
    GreaterThan,
    /// `<`
    LessThan,
    /// `!`
    Not,
    /// `fn`
    Function,
    /// `let`
    Let,
    /// `return`
    Return,
    /// `if`
    If,
    /// `else`
    Else,
    /// `true` as a keyword; the lexer itself yields `BoolLiteral(true)`
    TRUE,
    /// `false` as a keyword; the lexer itself yields `BoolLiteral(false)`
    FALSE,
    /// `,`
    Comma,
    /// `:`
    Colon,
    /// `;`
    SemiColon,
    /// `(`
    LParen,
    /// `)`
    RParen,
    /// `{`
    LBrace,
    /// `}`
    RBrace,
    /// `[`
    LBracket,
    /// `]`
    RBracket,
}

/// The mathematical value of a token: the text of a payload as characters,
/// every other token as itself (it holds no text).
pub enum TokenView {
    Ident(Seq<char>),
    Str(Seq<char>),
    Plain(Token),
}

impl View for Token {
    type V = TokenView;

    open spec fn view(&self) -> TokenView {
        match self {
            Token::Ident(s) => TokenView::Ident(s@),
            Token::StringLiteral(s) => TokenView::Str(s@),
            _ => TokenView::Plain(*self),
        }
    }
}

/// The views of a sequence of tokens.
pub open spec fn view_tokens(s: Seq<Token>) -> Seq<TokenView> {
    s.map_values(|t: Token| t@)
}

/// A borrowed run of tokens that the parser reads by position.
#[derive(Debug, Clone, Copy)]
pub struct Tokens<'a> {
    pub tokens: &'a [Token],
}

impl<'a> Tokens<'a> {
    pub fn new(tokens: &'a [Token]) -> (r: Self)
        ensures
            r.tokens@ == tokens@,
    {
        Tokens { tokens }
    }
}

/// Copies a token; the copy has the same view.
pub fn clone_token(t: &Token) -> (r: Token)
    ensures
        r@ == t@,
{
    match t {
        Token::Ident(s) => Token::Ident(s.clone()),
        Token::StringLiteral(s) => Token::StringLiteral(s.clone()),
        Token::Illegal => Token::Illegal,
        Token::EOF => Token::EOF,
        Token::IntLiteral(i) => Token::IntLiteral(*i),
        Token::BoolLiteral(b) => Token::BoolLiteral(*b),
        Token::Equal => Token::Equal,
        Token::NotEqual => Token::NotEqual,
        Token::GreaterThanEqual => Token::GreaterThanEqual,
        Token::LessThanEqual => Token::LessThanEqual,
        Token::Assign => Token::Assign,
        Token::Plus => Token::Plus,
        Token::Minus => Token::Minus,
        Token::Divide => Token::Divide,
        Token::Multiply => Token::Multiply,
        Token::GreaterThan => Token::GreaterThan,
        Token::LessThan => Token::LessThan,
        Token::Not => Token::Not,
        Token::Function => Token::Function,
        Token::Let => Token::Let,
        Token::Return => Token::Return,
        Token::If => Token::If,
        Token::Else => Token::Else,
        Token::TRUE => Token::TRUE,
        Token::FALSE => Token::FALSE,
        Token::Comma => Token::Comma,
        Token::Colon => Token::Colon,
        Token::SemiColon => Token::SemiColon,
        Token::LParen => Token::LParen,
        Token::RParen => Token::RParen,
        Token::LBrace => Token::LBrace,
        Token::RBrace => Token::RBrace,
        Token::LBracket => Token::LBracket,
        Token::RBracket => Token::RBracket,
    }
}

} // verus!

verus! {

/// A token without text or number in it.
pub open spec fn is_bare(t: Token) -> bool {
    !(t is Ident || t is StringLiteral || t is IntLiteral || t is BoolLiteral)
}

/// The variant of a token as a number, payload left out.
pub open spec fn kind(t: Token) -> u8 {
    match t {
        Token::Illegal => 0,
        Token::EOF => 1,
        Token::Ident(_) => 2,
        Token::StringLiteral(_) => 3,
        Token::IntLiteral(_) => 4,
        Token::BoolLiteral(_) => 5,
        Token::Equal => 6,
        Token::NotEqual => 7,
        Token::GreaterThanEqual => 8,
        Token::LessThanEqual => 9,
        Token::Assign => 10,
        Token::Plus => 11,
        Token::Minus => 12,
        Token::Divide => 13,
        Token::Multiply => 14,
        Token::GreaterThan => 15,
        Token::LessThan => 16,
        Token::Not => 17,
        Token::Function => 18,
        Token::Let => 19,
        Token::Return => 20,
        Token::If => 21,
        Token::Else => 22,
        Token::TRUE => 23,
        Token::FALSE => 24,
        Token::Comma => 25,
        Token::Colon => 26,
        Token::SemiColon => 27,
        Token::LParen => 28,
        Token::RParen => 29,
        Token::LBrace => 30,
        Token::RBrace => 31,
        Token::LBracket => 32,
        Token::RBracket => 33,
    }
}

impl Token {
    /// The variant of this token as a number.
    pub fn kind_code(&self) -> (r: u8)
        ensures
            r == kind(*self),
    {
        match self {
            Token::Illegal => 0,
            Token::EOF => 1,
            Token::Ident(_) => 2,
            Token::StringLiteral(_) => 3,
            Token::IntLiteral(_) => 4,
            Token::BoolLiteral(_) => 5,
            Token::Equal => 6,
            Token::NotEqual => 7,
            Token::GreaterThanEqual => 8,
            Token::LessThanEqual => 9,
            Token::Assign => 10,
            Token::Plus => 11,
            Token::Minus => 12,
            Token::Divide => 13,
            Token::Multiply => 14,
            Token::GreaterThan => 15,
            Token::LessThan => 16,
            Token::Not => 17,
            Token::Function => 18,
            Token::Let => 19,
            Token::Return => 20,
            Token::If => 21,
            Token::Else => 22,
            Token::TRUE => 23,
            Token::FALSE => 24,
            Token::Comma => 25,
            Token::Colon => 26,
            Token::SemiColon => 27,
            Token::LParen => 28,
            Token::RParen => 29,
            Token::LBrace => 30,
            Token::RBrace => 31,
            Token::LBracket => 32,
            Token::RBracket => 33,
        }
    }

    /// Whether this token and the bare token `t` are the same.
    pub fn is(&self, t: &Token) -> (r: bool)
        requires
            is_bare(*t),
        ensures
            r == (self@ == TokenView::Plain(*t)),
    {
        self.kind_code() == t.kind_code()
    }
}

} // verus!
