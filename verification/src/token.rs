//! Tokens: the kinds of lexical unit, with and without the values they carry.
use crate::reals::Real;
use crate::var_type::VarType;
use vstd::prelude::*;

verus! {

/// What a token is, with the value it carries.
#[allow(non_camel_case_types)]
#[derive(Debug, PartialEq)]
pub enum Kind {
    INTEGER_CONST(i32),
    REAL_CONST(Real),
    PLUS,
    MINUS,
    MUL,
    COMMA,
    COLON,
    LPAREN,
    RPAREN,
    ID(String),
    ASSIGN,
    BEGIN,
    PROGRAM,
    VAR,
    INTEGER_DIV,
    FLOAT_DIV,
    TYPE(VarType),
    END,
    SEMI,
    DOT,
    EOF,
    PROCEDURE,
}

/// The mathematical model of a [`Kind`]: an identifier is its characters.
#[allow(non_camel_case_types)]
pub enum KindView {
    INTEGER_CONST(i32),
    REAL_CONST(Real),
    PLUS,
    MINUS,
    MUL,
    COMMA,
    COLON,
    LPAREN,
    RPAREN,
    ID(Seq<char>),
    ASSIGN,
    BEGIN,
    PROGRAM,
    VAR,
    INTEGER_DIV,
    FLOAT_DIV,
    TYPE(VarType),
    END,
    SEMI,
    DOT,
    EOF,
    PROCEDURE,
}

/// What a token is, without the value it carries. The parser states its
/// expectations in tags.
#[allow(non_camel_case_types)]
#[derive(Debug, Clone, Copy, PartialEq, Eq, Structural)]
pub enum Tag {
    INTEGER_CONST,
    REAL_CONST,
    PLUS,
    MINUS,
    MUL,
    COMMA,
    COLON,
    LPAREN,
    RPAREN,
    ID,
    ASSIGN,
    BEGIN,
    PROGRAM,
    VAR,
    INTEGER_DIV,
    FLOAT_DIV,
    TYPE,
    END,
    SEMI,
    DOT,
    EOF,
    PROCEDURE,
}

impl KindView {
    /// The kind without its value.
    pub open spec fn tag(self) -> Tag {
        match self {
            KindView::INTEGER_CONST(_) => Tag::INTEGER_CONST,
            KindView::REAL_CONST(_) => Tag::REAL_CONST,
            KindView::PLUS => Tag::PLUS,
            KindView::MINUS => Tag::MINUS,
            KindView::MUL => Tag::MUL,
            KindView::COMMA => Tag::COMMA,
            KindView::COLON => Tag::COLON,
            KindView::LPAREN => Tag::LPAREN,
            KindView::RPAREN => Tag::RPAREN,
            KindView::ID(_) => Tag::ID,
            KindView::ASSIGN => Tag::ASSIGN,
            KindView::BEGIN => Tag::BEGIN,
            KindView::PROGRAM => Tag::PROGRAM,
            KindView::VAR => Tag::VAR,
            KindView::INTEGER_DIV => Tag::INTEGER_DIV,
            KindView::FLOAT_DIV => Tag::FLOAT_DIV,
            KindView::TYPE(_) => Tag::TYPE,
            KindView::END => Tag::END,
            KindView::SEMI => Tag::SEMI,
            KindView::DOT => Tag::DOT,
            KindView::EOF => Tag::EOF,
            KindView::PROCEDURE => Tag::PROCEDURE,
        }
    }
}

impl View for Kind {
    type V = KindView;

    open spec fn view(&self) -> KindView {
        match self {
            Kind::INTEGER_CONST(v) => KindView::INTEGER_CONST(*v),
            Kind::REAL_CONST(v) => KindView::REAL_CONST(*v),
            Kind::PLUS => KindView::PLUS,
            Kind::MINUS => KindView::MINUS,
            Kind::MUL => KindView::MUL,
            Kind::COMMA => KindView::COMMA,
            Kind::COLON => KindView::COLON,
            Kind::LPAREN => KindView::LPAREN,
            Kind::RPAREN => KindView::RPAREN,
            Kind::ID(s) => KindView::ID(s@),
            Kind::ASSIGN => KindView::ASSIGN,
            Kind::BEGIN => KindView::BEGIN,
            Kind::PROGRAM => KindView::PROGRAM,
            Kind::VAR => KindView::VAR,
            Kind::INTEGER_DIV => KindView::INTEGER_DIV,
            Kind::FLOAT_DIV => KindView::FLOAT_DIV,
            Kind::TYPE(t) => KindView::TYPE(*t),
            Kind::END => KindView::END,
            Kind::SEMI => KindView::SEMI,
            Kind::DOT => KindView::DOT,
            Kind::EOF => KindView::EOF,
            Kind::PROCEDURE => KindView::PROCEDURE,
        }
    }
}

impl Kind {
    /// The kind without its value.
    pub fn tag(&self) -> (t: Tag)
        ensures
            t == self@.tag(),
    {
        match self {
            Kind::INTEGER_CONST(_) => Tag::INTEGER_CONST,
            Kind::REAL_CONST(_) => Tag::REAL_CONST,
            Kind::PLUS => Tag::PLUS,
            Kind::MINUS => Tag::MINUS,
            Kind::MUL => Tag::MUL,
            Kind::COMMA => Tag::COMMA,
            Kind::COLON => Tag::COLON,
            Kind::LPAREN => Tag::LPAREN,
            Kind::RPAREN => Tag::RPAREN,
            Kind::ID(_) => Tag::ID,
            Kind::ASSIGN => Tag::ASSIGN,
            Kind::BEGIN => Tag::BEGIN,
            Kind::PROGRAM => Tag::PROGRAM,
            Kind::VAR => Tag::VAR,
            Kind::INTEGER_DIV => Tag::INTEGER_DIV,
            Kind::FLOAT_DIV => Tag::FLOAT_DIV,
            Kind::TYPE(_) => Tag::TYPE,
            Kind::END => Tag::END,
            Kind::SEMI => Tag::SEMI,
            Kind::DOT => Tag::DOT,
            Kind::EOF => Tag::EOF,
            Kind::PROCEDURE => Tag::PROCEDURE,
        }
    }
}

impl Clone for Kind {
    fn clone(&self) -> (r: Kind)
        ensures
            r == *self,
    {
        match self {
            Kind::INTEGER_CONST(v) => Kind::INTEGER_CONST(*v),
            Kind::REAL_CONST(v) => Kind::REAL_CONST(*v),
            Kind::PLUS => Kind::PLUS,
            Kind::MINUS => Kind::MINUS,
            Kind::MUL => Kind::MUL,
            Kind::COMMA => Kind::COMMA,
            Kind::COLON => Kind::COLON,
            Kind::LPAREN => Kind::LPAREN,
            Kind::RPAREN => Kind::RPAREN,
            Kind::ID(s) => Kind::ID(s.clone()),
            Kind::ASSIGN => Kind::ASSIGN,
            Kind::BEGIN => Kind::BEGIN,
            Kind::PROGRAM => Kind::PROGRAM,
            Kind::VAR => Kind::VAR,
            Kind::INTEGER_DIV => Kind::INTEGER_DIV,
            Kind::FLOAT_DIV => Kind::FLOAT_DIV,
            Kind::TYPE(t) => Kind::TYPE(*t),
            Kind::END => Kind::END,
            Kind::SEMI => Kind::SEMI,
            Kind::DOT => Kind::DOT,
            Kind::EOF => Kind::EOF,
            Kind::PROCEDURE => Kind::PROCEDURE,
        }
    }
}

/// A token: its kind, and the line and column of its first character, both
/// counted from 1.
#[derive(Debug, PartialEq)]
pub struct Token {
    pub kind: Kind,
    pub lineno: usize,
    pub column: usize,
}

/// The mathematical model of a [`Token`].
pub struct TokenView {
    pub kind: KindView,
    pub lineno: nat,
    pub column: nat,
}

impl View for Token {
    type V = TokenView;

    open spec fn view(&self) -> TokenView {
        TokenView { kind: self.kind@, lineno: self.lineno as nat, column: self.column as nat }
    }
}

impl Clone for Token {
    fn clone(&self) -> (r: Token)
        ensures
            r == *self,
    {
        Token { kind: self.kind.clone(), lineno: self.lineno, column: self.column }
    }
}

} // verus!
