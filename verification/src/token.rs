//! The token alphabet of the query language.
use vstd::prelude::*;
use crate::tags::Tag;

verus! {

/// A token of a query: one of the three operators, a tag, or the end of the
/// input.
#[derive(Debug, PartialEq, Eq)]
pub enum Token {
    OR,
    NOT,
    AND,
    END,
    TAG(Tag),
}

/// The mathematical value of a [`Token`]: a tag is its sequence of
/// characters.
pub enum TokenView {
    OR,
    NOT,
    AND,
    END,
    TAG(Seq<char>),
}

impl View for Token {
    type V = TokenView;

    open spec fn view(&self) -> TokenView {
        match self {
            Token::OR => TokenView::OR,
            Token::NOT => TokenView::NOT,
            Token::AND => TokenView::AND,
            Token::END => TokenView::END,
            Token::TAG(tag) => TokenView::TAG(tag@),
        }
    }
}

impl Clone for Token {
    fn clone(&self) -> (copy: Token)
        ensures
            copy@ == self@,
    {
        match self {
            Token::OR => Token::OR,
            Token::NOT => Token::NOT,
            Token::AND => Token::AND,
            Token::END => Token::END,
            Token::TAG(tag) => Token::TAG(tag.clone()),
        }
    }
}

} // verus!
