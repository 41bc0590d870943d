//! Tokens of the SMV language.
use vstd::prelude::*;

verus! {

#[derive(PartialEq, Debug, Clone)]
pub enum Token {
    // identifier and literals
    Ident(String),
    IntLiteral(i64),
    BoolLiteral(bool),
    // operators
    Conditional,
    Becomes,
    And,
    Or,
    Not,
    Xor,
    Iff,
    Imply,
    LtlFinally,
    LtlGlobally,
    LtlOnce,
    LtlSince,
    LtlUntil,
    LtlRelease,
    LtlNext,
    // reserved words
    Case,
    Esac,
    Next,
    // reserved type word
    Boolean,
    // reserved section words
    Module,
    Define,
    InputVar,
    LatchVar,
    Constant,
    Init,
    Invariant,
    Trans,
    Fairness,
    LtlSpec,
    // punctuations
    Comma,
    Colon,
    SemiColon,
    LParen,
    RParen,
}

/// The value of a token: an identifier is its name; any other token is
/// itself (it holds no string).
pub enum Lexeme {
    Name(Seq<char>),
    Sym(Token),
}

pub open spec fn lexeme(t: Token) -> Lexeme {
    match t {
        Token::Ident(s) => Lexeme::Name(s@),
        _ => Lexeme::Sym(t),
    }
}

/// The values of a sequence of tokens.
pub open spec fn lexemes(s: Seq<Token>) -> Seq<Lexeme> {
    s.map_values(|t: Token| lexeme(t))
}

/// A view into a sequence of tokens.
#[derive(Clone, Copy, PartialEq, Debug)]
pub struct Tokens<'a> {
    pub tok: &'a [Token],
    pub start: usize,
    pub end: usize,
}

impl<'a> Tokens<'a> {
    pub fn new(vec: &'a [Token]) -> (r: Self)
        ensures
            r.tok@ == vec@,
            r.start == 0,
            r.end == vec@.len(),
    {
        Tokens { tok: vec, start: 0, end: vec.len() }
    }
}

} // verus!
