use crate::object::{Object, ObjectMode, ObjectView};
use vstd::prelude::*;

verus! {

/// One lexical token of the source text.
#[derive(Debug)]
pub enum Token {
    /// A real literal, kept as its source text: reals are only ever
    /// stored and printed, never computed with.
    Real(String),
    Integer(i64),
    Bool(bool),
    /// `[`, `<<` or the word `mark`.
    Mark,
    /// `{`
    BeginProc,
    /// `}`
    EndProc,
    /// `//` and an identifier: resolved immediately when read.
    ImmName(String),
    /// `/` and an identifier.
    LitName(String),
    /// An identifier or one of the bare glyphs `=`, `==`, `]`, `>>`.
    ExeName(String),
}

/// The mathematical shape of a token.
pub enum TokenView {
    Real(Seq<char>),
    Integer(int),
    Bool(bool),
    Mark,
    BeginProc,
    EndProc,
    ImmName(Seq<char>),
    LitName(Seq<char>),
    ExeName(Seq<char>),
}

impl View for Token {
    type V = TokenView;

    open spec fn view(&self) -> TokenView {
        match self {
            Token::Real(t) => TokenView::Real(t@),
            Token::Integer(i) => TokenView::Integer(*i as int),
            Token::Bool(b) => TokenView::Bool(*b),
            Token::Mark => TokenView::Mark,
            Token::BeginProc => TokenView::BeginProc,
            Token::EndProc => TokenView::EndProc,
            Token::ImmName(n) => TokenView::ImmName(n@),
            Token::LitName(n) => TokenView::LitName(n@),
            Token::ExeName(n) => TokenView::ExeName(n@),
        }
    }
}

/// Whether a token stands for an object by itself.  The brace tokens
/// drive the procedure builder and an immediate name is resolved by the
/// driver, so none of those three converts.
pub open spec fn converts(t: TokenView) -> bool {
    !(t is BeginProc || t is EndProc || t is ImmName)
}

/// The object a token stands for.
pub open spec fn object_of(t: TokenView) -> ObjectView
    recommends
        converts(t),
{
    match t {
        TokenView::Real(s) => ObjectView::Real(s),
        TokenView::Integer(i) => ObjectView::Integer(i),
        TokenView::Bool(b) => ObjectView::Bool(b),
        TokenView::LitName(n) => ObjectView::Name(ObjectMode::Literal, n),
        TokenView::ExeName(n) => ObjectView::Name(ObjectMode::Executable, n),
        _ => ObjectView::Mark,
    }
}

impl Token {
    /// The object this token stands for: literals directly, `/name` as a
    /// literal name, a bare identifier as an executable name.
    pub fn to_object(&self) -> (r: Object)
        requires
            converts(self@),
        ensures
            r@ == object_of(self@),
    {
        match self {
            Token::Bool(b) => Object::Bool(*b),
            Token::Real(t) => Object::Real(t.clone()),
            Token::Integer(i) => Object::Integer(*i),
            Token::Mark => Object::Mark,
            Token::ExeName(n) => Object::Name(ObjectMode::Executable, n.clone()),
            Token::LitName(n) => Object::Name(ObjectMode::Literal, n.clone()),
            // the precondition rules the driver-level tokens out
            Token::BeginProc => Object::Mark,
            Token::EndProc => Object::Mark,
            Token::ImmName(_) => Object::Mark,
        }
    }
}

} // verus!
