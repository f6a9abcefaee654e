//! A recursive-descent parser for the query language.
//!
//! ```text
//! expr := term ( ('&' | '|') expr )?
//! term := '!' TAG | TAG
//! ```
//!
//! There are no parentheses and `&` and `|` bind alike, to the right:
//! `a & b | c` is `a & (b | c)`.
use vstd::prelude::*;
use vstd::string::StringExecFns;
use crate::lexer::{end, lemma_scan_advances, lemma_scan_end_is_final, scan, symbol_of, tokens};
use crate::lexer::{LexError, Lexer, Symbol};
use crate::query::{Query, QueryView};
use crate::tags::Tag;
use crate::token::{Token, TokenView};

verus! {

/// Why a query string could not be parsed.
#[derive(Debug, PartialEq)]
pub enum Error {
    /// A token stands where the grammar allows none of its kind; the
    /// message names it.
    UnexpectedToken(String),
    /// The query holds a character that belongs to no token.
    InvalidCharacter(LexError),
}

/// The mathematical value of an [`Error`].
pub enum ErrorView {
    UnexpectedToken(Seq<char>),
    InvalidCharacter(LexError),
}

impl View for Error {
    type V = ErrorView;

    open spec fn view(&self) -> ErrorView {
        match self {
            Error::UnexpectedToken(message) => ErrorView::UnexpectedToken(message@),
            Error::InvalidCharacter(e) => ErrorView::InvalidCharacter(*e),
        }
    }
}

/// How a token is written in a message.
pub open spec fn token_text(token: TokenView) -> Seq<char> {
    match token {
        TokenView::OR => "OR"@,
        TokenView::NOT => "NOT"@,
        TokenView::AND => "AND"@,
        TokenView::END => "END"@,
        TokenView::TAG(tag) => "TAG(\""@ + tag + "\")"@,
    }
}

/// The message for a token that cannot start a term or follow one.
pub open spec fn unexpected_token(token: TokenView) -> ErrorView {
    ErrorView::UnexpectedToken("Unexpected token: "@ + token_text(token))
}

/// The message for a token that follows `!` and is no tag.
pub open spec fn expected_tag(token: TokenView) -> ErrorView {
    ErrorView::UnexpectedToken("Expected tag, got "@ + token_text(token))
}

/// The first of the pending symbols; `END` when none is left.
pub open spec fn head(ts: Seq<Symbol>) -> Symbol {
    if ts.len() > 0 {
        ts[0]
    } else {
        end()
    }
}

/// The pending symbols after the first has been consumed.
pub open spec fn tail(ts: Seq<Symbol>) -> Seq<Symbol> {
    if ts.len() > 0 {
        ts.drop_first()
    } else {
        ts
    }
}

/// The outcome of parsing a prefix of a symbol sequence: the tree or the
/// error, and the symbols that were not consumed.
pub struct Parsed {
    pub result: Result<QueryView, ErrorView>,
    pub rest: Seq<Symbol>,
}

/// `term := '!' TAG | TAG`
pub open spec fn parse_term(ts: Seq<Symbol>) -> Parsed {
    match head(ts) {
        Ok(TokenView::NOT) => match head(tail(ts)) {
            Ok(TokenView::TAG(tag)) => Parsed {
                result: Ok(QueryView::Absent(tag)),
                rest: tail(tail(ts)),
            },
            Ok(other) => Parsed { result: Err(expected_tag(other)), rest: tail(ts) },
            Err(e) => Parsed { result: Err(ErrorView::InvalidCharacter(e)), rest: tail(ts) },
        },
        Ok(TokenView::TAG(tag)) => Parsed { result: Ok(QueryView::Present(tag)), rest: tail(ts) },
        Ok(other) => Parsed { result: Err(unexpected_token(other)), rest: ts },
        Err(e) => Parsed { result: Err(ErrorView::InvalidCharacter(e)), rest: ts },
    }
}

/// `expr := term ( ('&' | '|') expr )?`, and nothing but `END` may follow.
pub open spec fn parse_expr(ts: Seq<Symbol>) -> Parsed
    decreases ts.len(),
{
    let term = parse_term(ts);
    match term.result {
        Err(_) => term,
        Ok(left) => match head(term.rest) {
            Ok(TokenView::END) => term,
            Ok(TokenView::AND) => {
                let right = parse_expr(tail(term.rest));
                match right.result {
                    Ok(tree) => Parsed {
                        result: Ok(QueryView::And(Box::new(left), Box::new(tree))),
                        rest: right.rest,
                    },
                    Err(_) => right,
                }
            },
            Ok(TokenView::OR) => {
                let right = parse_expr(tail(term.rest));
                match right.result {
                    Ok(tree) => Parsed {
                        result: Ok(QueryView::Or(Box::new(left), Box::new(tree))),
                        rest: right.rest,
                    },
                    Err(_) => right,
                }
            },
            Ok(other) => Parsed { result: Err(unexpected_token(other)), rest: term.rest },
            Err(e) => Parsed { result: Err(ErrorView::InvalidCharacter(e)), rest: term.rest },
        },
    }
}

/// `&` and `|` bind alike and group to the right: whatever the three tags,
/// `a & b | c` is `a & (b | c)`, and `a | b & c` is `a | (b & c)`.
pub proof fn operators_group_to_the_right(a: Seq<char>, b: Seq<char>, c: Seq<char>)
    ensures
        parse_expr(
            seq![
                Ok(TokenView::TAG(a)),
                Ok(TokenView::AND),
                Ok(TokenView::TAG(b)),
                Ok(TokenView::OR),
                Ok(TokenView::TAG(c)),
            ],
        ).result == Ok::<QueryView, ErrorView>(
            QueryView::And(
                Box::new(QueryView::Present(a)),
                Box::new(
                    QueryView::Or(Box::new(QueryView::Present(b)), Box::new(QueryView::Present(c))),
                ),
            ),
        ),
        parse_expr(
            seq![
                Ok(TokenView::TAG(a)),
                Ok(TokenView::OR),
                Ok(TokenView::TAG(b)),
                Ok(TokenView::AND),
                Ok(TokenView::TAG(c)),
            ],
        ).result == Ok::<QueryView, ErrorView>(
            QueryView::Or(
                Box::new(QueryView::Present(a)),
                Box::new(
                    QueryView::And(Box::new(QueryView::Present(b)), Box::new(QueryView::Present(c))),
                ),
            ),
        ),
{
    let and: Symbol = Ok(TokenView::AND);
    let or: Symbol = Ok(TokenView::OR);
    let (ta, tb, tc): (Symbol, Symbol, Symbol) = (
        Ok(TokenView::TAG(a)),
        Ok(TokenView::TAG(b)),
        Ok(TokenView::TAG(c)),
    );
    reveal_with_fuel(parse_expr, 4);
    assert(tail(seq![tc]) =~= Seq::<Symbol>::empty());
    assert(tail(seq![ta, and, tb, or, tc]) =~= seq![and, tb, or, tc]);
    assert(tail(seq![and, tb, or, tc]) =~= seq![tb, or, tc]);
    assert(tail(seq![tb, or, tc]) =~= seq![or, tc]);
    assert(tail(seq![or, tc]) =~= seq![tc]);
    assert(tail(seq![ta, or, tb, and, tc]) =~= seq![or, tb, and, tc]);
    assert(tail(seq![or, tb, and, tc]) =~= seq![tb, and, tc]);
    assert(tail(seq![tb, and, tc]) =~= seq![and, tc]);
    assert(tail(seq![and, tc]) =~= seq![tc]);
}

/// What parsing the query string `input` yields.
pub open spec fn parse_text(input: Seq<char>) -> Result<QueryView, ErrorView> {
    parse_expr(tokens(input, 0)).result
}

/// The mathematical value of what [`Parser::parse`] returns.
pub open spec fn outcome_of(r: Result<Query, Error>) -> Result<QueryView, ErrorView> {
    match r {
        Ok(query) => Ok(query@),
        Err(e) => Err(e@),
    }
}

/// A copy of what the lexer yielded.
fn copy_symbol(symbol: &Result<Token, LexError>) -> (copy: Result<Token, LexError>)
    ensures
        symbol_of(copy) == symbol_of(*symbol),
{
    match symbol {
        Ok(token) => Ok(token.clone()),
        Err(e) => Err(*e),
    }
}

/// Writes `token` as messages show it.
fn describe(token: &Token) -> (text: String)
    ensures
        text@ == token_text(token@),
{
    match token {
        Token::OR => "OR".to_owned(),
        Token::NOT => "NOT".to_owned(),
        Token::AND => "AND".to_owned(),
        Token::END => "END".to_owned(),
        Token::TAG(tag) => {
            let mut text = "TAG(\"".to_owned();
            text.append(tag.as_str());
            text.append("\")");
            text
        },
    }
}

/// The error for a token that cannot start a term or follow one.
fn unexpected(token: &Token) -> (e: Error)
    ensures
        e@ == unexpected_token(token@),
{
    let mut message = "Unexpected token: ".to_owned();
    message.append(describe(token).as_str());
    Error::UnexpectedToken(message)
}

/// The error for a token that follows `!` and is no tag.
fn not_a_tag(token: &Token) -> (e: Error)
    ensures
        e@ == expected_tag(token@),
{
    let mut message = "Expected tag, got ".to_owned();
    message.append(describe(token).as_str());
    Error::UnexpectedToken(message)
}

/// A parser over one query string. It holds the token under examination
/// and one token of lookahead.
pub struct Parser {
    lexer: Lexer,
    curr_token: Result<Token, LexError>,
    next_token: Result<Token, LexError>,
}

impl Parser {
    /// The two buffered tokens agree with the lexer: once one of them is
    /// `END`, so is everything after it.
    pub closed spec fn wf(&self) -> bool {
        &&& 0 <= self.lexer.position() <= self.lexer.source().len()
        &&& symbol_of(self.curr_token) == end() ==> symbol_of(
            self.next_token,
        ) == end()
        &&& symbol_of(self.next_token) == end() ==> scan(
            self.lexer.source(),
            self.lexer.position(),
        ).symbol == end()
    }

    /// The symbols that have not been consumed, the final `END` left out.
    pub closed spec fn remaining(&self) -> Seq<Symbol> {
        if symbol_of(self.curr_token) == end() {
            Seq::empty()
        } else if symbol_of(self.next_token) == end() {
            seq![symbol_of(self.curr_token)]
        } else {
            seq![symbol_of(self.curr_token), symbol_of(self.next_token)] + tokens(
                self.lexer.source(),
                self.lexer.position(),
            )
        }
    }

    /// A parser at the start of `input`.
    pub fn new(input: &str) -> (parser: Parser)
        ensures
            parser.wf(),
            parser.remaining() == tokens(input@, 0),
    {
        let mut lexer = Lexer::new(input);
        let ghost first = scan(input@, 0);
        let ghost second = scan(input@, first.next);
        proof {
            lemma_scan_advances(input@, 0);
            lemma_scan_advances(input@, first.next);
            if first.symbol == end() {
                lemma_scan_end_is_final(input@, 0);
            }
            if second.symbol == end() {
                lemma_scan_end_is_final(input@, first.next);
            }
        }
        let curr_token = lexer.next_token();
        let next_token = lexer.next_token();
        let parser = Parser { lexer, curr_token, next_token };
        proof {
            assert(symbol_of(parser.curr_token) == first.symbol);
            assert(symbol_of(parser.next_token) == second.symbol);
            assert(parser.lexer.position() == second.next);
            if first.symbol != end() {
                assert(tokens(input@, 0) == seq![first.symbol] + tokens(input@, first.next));
                if second.symbol != end() {
                    assert(tokens(input@, first.next) == seq![second.symbol] + tokens(
                        input@,
                        second.next,
                    ));
                } else {
                    assert(tokens(input@, first.next) == Seq::<Symbol>::empty());
                }
            }
            assert(parser.remaining() =~= tokens(input@, 0));
        }
        parser
    }

    /// Parses the whole query. The result is what the grammar assigns to
    /// the pending symbols; the parser stops behind what it consumed.
    pub fn parse(&mut self) -> (r: Result<Query, Error>)
        requires
            old(self).wf(),
        ensures
            final(self).wf(),
            outcome_of(r) == parse_expr(old(self).remaining()).result,
            final(self).remaining() == parse_expr(old(self).remaining()).rest,
    {
        self.parse_bool_expr()
    }

    /// A copy of the token under examination.
    fn current(&self) -> (symbol: Result<Token, LexError>)
        requires
            self.wf(),
        ensures
            symbol_of(symbol) == head(self.remaining()),
    {
        copy_symbol(&self.curr_token)
    }

    /// Consumes the token under examination.
    fn next(&mut self)
        requires
            old(self).wf(),
        ensures
            final(self).wf(),
            final(self).remaining() == tail(old(self).remaining()),
    {
        proof {
            let s = self.lexer.source();
            let i = self.lexer.position();
            lemma_scan_advances(s, i);
            if scan(s, i).symbol == end() {
                lemma_scan_end_is_final(s, i);
            } else {
                lemma_scan_advances(s, scan(s, i).next);
                if scan(s, scan(s, i).next).symbol == end() {
                    lemma_scan_end_is_final(s, scan(s, i).next);
                }
            }
        }
        let mut token = self.lexer.next_token();
        std::mem::swap(&mut self.next_token, &mut token);
        self.curr_token = token;
        assert(self.remaining() =~= tail(old(self).remaining()));
    }

    /// Parses `term ( ('&' | '|') expr )?` and checks that nothing but the
    /// end follows.
    fn parse_bool_expr(&mut self) -> (r: Result<Query, Error>)
        requires
            old(self).wf(),
        ensures
            final(self).wf(),
            outcome_of(r) == parse_expr(old(self).remaining()).result,
            final(self).remaining() == parse_expr(old(self).remaining()).rest,
        decreases old(self).remaining().len(),
    {
        let ghost term = parse_term(self.remaining());
        let expr = match self.parse_term() {
            Ok(expr) => expr,
            Err(e) => {
                return Err(e);
            },
        };
        assert(term.result == Ok::<QueryView, ErrorView>(expr@));
        assert(self.remaining() == term.rest);
        match self.current() {
            Ok(Token::END) => Ok(expr),
            Ok(Token::AND) => {
                self.next();
                assert(self.remaining() == tail(term.rest));
                match self.parse_bool_expr() {
                    Ok(right) => {
                        let both = Query::And(Box::new(expr), Box::new(right));
                        assert(both@ == QueryView::And(Box::new(expr@), Box::new(right@)));
                        Ok(both)
                    },
                    Err(e) => Err(e),
                }
            },
            Ok(Token::OR) => {
                self.next();
                assert(self.remaining() == tail(term.rest));
                match self.parse_bool_expr() {
                    Ok(right) => {
                        let either = Query::Or(Box::new(expr), Box::new(right));
                        assert(either@ == QueryView::Or(Box::new(expr@), Box::new(right@)));
                        Ok(either)
                    },
                    Err(e) => Err(e),
                }
            },
            Ok(t) => Err(unexpected(&t)),
            Err(e) => Err(Error::InvalidCharacter(e)),
        }
    }

    /// Parses `'!' TAG | TAG`.
    fn parse_term(&mut self) -> (r: Result<Query, Error>)
        requires
            old(self).wf(),
        ensures
            final(self).wf(),
            outcome_of(r) == parse_term(old(self).remaining()).result,
            final(self).remaining() == parse_term(old(self).remaining()).rest,
    {
        match self.current() {
            Ok(Token::NOT) => {
                self.next();
                match self.parse_tag() {
                    Ok(tag) => Ok(Query::Absent(tag)),
                    Err(e) => Err(e),
                }
            },
            Ok(Token::TAG(tag)) => {
                self.next();
                Ok(Query::Present(tag))
            },
            Ok(t) => Err(unexpected(&t)),
            Err(e) => Err(Error::InvalidCharacter(e)),
        }
    }

    /// Takes the tag that has to follow `!`.
    fn parse_tag(&mut self) -> (r: Result<Tag, Error>)
        requires
            old(self).wf(),
        ensures
            final(self).wf(),
            match head(old(self).remaining()) {
                Ok(TokenView::TAG(tag)) => {
                    &&& r matches Ok(t) && t@ == tag
                    &&& final(self).remaining() == tail(old(self).remaining())
                },
                Ok(other) => {
                    &&& r matches Err(e) && e@ == expected_tag(other)
                    &&& final(self).remaining() == old(self).remaining()
                },
                Err(error) => {
                    &&& r matches Err(e) && e@ == ErrorView::InvalidCharacter(error)
                    &&& final(self).remaining() == old(self).remaining()
                },
            },
    {
        match self.current() {
            Ok(Token::TAG(tag)) => {
                self.next();
                Ok(tag)
            },
            Ok(t) => Err(not_a_tag(&t)),
            Err(e) => Err(Error::InvalidCharacter(e)),
        }
    }
}

/// Parses the query string `input`.
pub fn parse(input: &str) -> (r: Result<Query, Error>)
    ensures
        outcome_of(r) == parse_text(input@),
{
    let mut parser = Parser::new(input);
    parser.parse()
}

} // verus!
