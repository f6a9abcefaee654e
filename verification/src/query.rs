//! The boolean query tree and the completion request built on it.
use vstd::prelude::*;
use crate::tags::Tag;

verus! {

/// A query to be executed on an index of tagged locations.
#[derive(Debug, PartialEq)]
pub enum Query {
    And(Box<Query>, Box<Query>),
    Or(Box<Query>, Box<Query>),
    Present(Tag),
    Absent(Tag),
}

/// The mathematical value of a [`Query`]: the same tree over character
/// sequences.
pub enum QueryView {
    And(Box<QueryView>, Box<QueryView>),
    Or(Box<QueryView>, Box<QueryView>),
    Present(Seq<char>),
    Absent(Seq<char>),
}

impl Query {
    /// The tree of this query over character sequences.
    pub open spec fn tree(&self) -> QueryView
        decreases self,
    {
        match self {
            Query::And(left, right) => QueryView::And(
                Box::new(left.tree()),
                Box::new(right.tree()),
            ),
            Query::Or(left, right) => QueryView::Or(Box::new(left.tree()), Box::new(right.tree())),
            Query::Present(tag) => QueryView::Present(tag@),
            Query::Absent(tag) => QueryView::Absent(tag@),
        }
    }
}

impl View for Query {
    type V = QueryView;

    open spec fn view(&self) -> QueryView {
        self.tree()
    }
}

impl Clone for Query {
    fn clone(&self) -> (copy: Query)
        ensures
            copy@ == self@,
        decreases self,
    {
        match self {
            Query::And(left, right) => {
                let l = (&**left).clone();
                let r = (&**right).clone();
                Query::And(Box::new(l), Box::new(r))
            },
            Query::Or(left, right) => {
                let l = (&**left).clone();
                let r = (&**right).clone();
                Query::Or(Box::new(l), Box::new(r))
            },
            Query::Present(tag) => Query::Present(tag.clone()),
            Query::Absent(tag) => Query::Absent(tag.clone()),
        }
    }
}

/// The connective the user is about to type after a query.
#[derive(Clone, Copy, Debug, PartialEq, Eq, Structural)]
pub enum PartialQueryOperator {
    AND,
    OR,
}

/// An incomplete query that can be used for completion: the query so far,
/// the connective that follows it, and what has been typed of the next tag.
#[derive(Debug, PartialEq)]
pub struct PartialQuery {
    pub query: Query,
    pub operator: PartialQueryOperator,
    pub fragment: Option<String>,
}

/// The mathematical value of a [`PartialQuery`].
pub struct PartialQueryView {
    pub query: QueryView,
    pub operator: PartialQueryOperator,
    pub fragment: Option<Seq<char>>,
}

impl View for PartialQuery {
    type V = PartialQueryView;

    open spec fn view(&self) -> PartialQueryView {
        PartialQueryView {
            query: self.query@,
            operator: self.operator,
            fragment: match self.fragment {
                Some(text) => Some(text@),
                None => None,
            },
        }
    }
}

} // verus!
