//! Tokens: the lexical units a description is made of.

use vstd::prelude::*;

verus! {

/// The pair of brackets that encloses a group of tokens.
#[derive(Clone, Copy, Debug, PartialEq, Eq, Structural)]
pub enum Delimiter {
    /// `(` and `)`.
    Paren,
    /// `[` and `]`.
    Bracket,
    /// `{` and `}`.
    Brace,
}

/// One lexical unit. The translation looks inside string literals,
/// separators and bracket groups; everything else is carried through as it
/// came.
#[derive(Debug, PartialEq, Eq)]
pub enum Token {
    /// `:`, which parts the sections of a description.
    Colon,
    /// `,`, which parts the operands of a section.
    Comma,
    /// A string literal, held as the text it denotes.
    Literal(String),
    /// An identifier.
    Ident(String),
    /// A delimited group and the tokens inside it.
    Group(Delimiter, Vec<Token>),
    /// Any other token, held as its source text.
    Other(String),
}

/// What a [`Token`] is, as a mathematical value.
pub enum TokenView {
    Colon,
    Comma,
    Literal(Seq<char>),
    Ident(Seq<char>),
    Group(Delimiter, Seq<TokenView>),
    Other(Seq<char>),
}

impl DeepView for Token {
    type V = TokenView;

    open spec fn deep_view(&self) -> TokenView
        decreases self,
    {
        match self {
            Token::Colon => TokenView::Colon,
            Token::Comma => TokenView::Comma,
            Token::Literal(text) => TokenView::Literal(text@),
            Token::Ident(name) => TokenView::Ident(name@),
            Token::Group(delimiter, inner) => TokenView::Group(
                *delimiter,
                Seq::new(
                    inner@.len(),
                    |i: int|
                        if 0 <= i < inner@.len() {
                            inner@[i].deep_view()
                        } else {
                            TokenView::Colon
                        },
                ),
            ),
            Token::Other(text) => TokenView::Other(text@),
        }
    }
}

/// The view of a group is the views of the tokens inside it.
pub proof fn lemma_group_view(delimiter: Delimiter, inner: Vec<Token>)
    ensures
        Token::Group(delimiter, inner).deep_view() == TokenView::Group(
            delimiter,
            inner.deep_view(),
        ),
{
    assert(Token::Group(delimiter, inner).deep_view()->Group_1 =~= inner.deep_view());
}

impl Clone for Token {
    /// A copy with the same view, groups copied all the way down.
    fn clone(&self) -> (copy: Self)
        ensures
            copy.deep_view() == self.deep_view(),
        decreases self,
    {
        match self {
            Token::Colon => Token::Colon,
            Token::Comma => Token::Comma,
            Token::Literal(text) => Token::Literal(text.clone()),
            Token::Ident(name) => Token::Ident(name.clone()),
            Token::Group(delimiter, inner) => {
                let mut copies: Vec<Token> = Vec::new();
                let mut i: usize = 0;
                while i < inner.len()
                    invariant
                        i <= inner.len(),
                        copies.len() == i,
                        self matches Token::Group(_, v) && v == inner,
                        forall|j: int|
                            0 <= j < i ==> copies@[j].deep_view() == inner@[j].deep_view(),
                    decreases inner.len() - i,
                {
                    copies.push(inner[i].clone());
                    i = i + 1;
                }
                proof {
                    assert(copies.deep_view() =~= inner.deep_view());
                    lemma_group_view(*delimiter, copies);
                    lemma_group_view(*delimiter, *inner);
                }
                Token::Group(*delimiter, copies)
            },
            Token::Other(text) => Token::Other(text.clone()),
        }
    }
}

/// Copies a run of tokens.
pub fn clone_tokens(tokens: &[Token]) -> (copies: Vec<Token>)
    ensures
        copies.deep_view() == tokens.deep_view(),
{
    let mut copies: Vec<Token> = Vec::new();
    let mut i: usize = 0;
    while i < tokens.len()
        invariant
            i <= tokens.len(),
            copies.len() == i,
            forall|j: int| 0 <= j < i ==> copies@[j].deep_view() == tokens@[j].deep_view(),
        decreases tokens.len() - i,
    {
        copies.push(tokens[i].clone());
        i = i + 1;
    }
    assert(copies.deep_view() =~= tokens.deep_view());
    copies
}

/// The text of a string literal: `Some` exactly for a literal token.
pub fn get_string_literal(tt: &Token) -> (text: Option<&String>)
    ensures
        match text {
            Some(s) => tt.deep_view() == TokenView::Literal(s@),
            None => !(tt.deep_view() is Literal),
        },
{
    match tt {
        Token::Literal(s) => Some(s),
        _ => None,
    }
}

/// The string literal token that denotes `string`.
pub fn make_string_literal(string: String) -> (tt: Token)
    ensures
        tt.deep_view() == TokenView::Literal(string@),
{
    Token::Literal(string)
}

} // verus!
