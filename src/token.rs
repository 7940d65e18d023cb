use vstd::prelude::*;

verus! {

/// What a token is, without where it stands.
#[derive(Debug, PartialEq, Eq, Clone)]
pub enum TokenKind {
    /// The end of the input: exactly one, always the last token.
    Eof,
    LParen,
    RParen,
    Id(String),
    IntLit(i64),
}

/// A token and the codepoint index of its first character in the source.
#[derive(Debug, Clone)]
pub struct Token {
    pub loc: usize,
    pub kind: TokenKind,
}

/// Why lexing failed. No tokens come with it.
#[derive(Debug, Clone, Copy, PartialEq, Eq)]
pub enum LexError {
    /// A codepoint that starts no token, or a letter right after a run of digits.
    InvalidChar(char),
    /// A run of digits whose value does not fit in an `i64`.
    IntOutOfRange,
}

/// The mathematical value of a `TokenKind`.
pub ghost enum KindView {
    Eof,
    LParen,
    RParen,
    Id(Seq<char>),
    IntLit(int),
}

/// The mathematical value of a `Token`.
pub ghost struct TokenView {
    pub loc: nat,
    pub kind: KindView,
}

impl View for TokenKind {
    type V = KindView;

    open spec fn view(&self) -> KindView {
        match self {
            TokenKind::Eof => KindView::Eof,
            TokenKind::LParen => KindView::LParen,
            TokenKind::RParen => KindView::RParen,
            TokenKind::Id(s) => KindView::Id(s@),
            TokenKind::IntLit(v) => KindView::IntLit(*v as int),
        }
    }
}

impl View for Token {
    type V = TokenView;

    open spec fn view(&self) -> TokenView {
        TokenView { loc: self.loc as nat, kind: self.kind@ }
    }
}

impl Token {
    pub fn new(loc: usize, kind: TokenKind) -> (r: Self)
        ensures
            r.loc == loc,
            r.kind == kind,
    {
        Token { loc, kind }
    }
}

} // verus!
