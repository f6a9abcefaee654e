use tag_query::lexer::LexError;
use tag_query::parser::{parse, Error, Parser};
use tag_query::query::Query;

fn present(tag: &str) -> Query {
    Query::Present(tag.into())
}

fn absent(tag: &str) -> Query {
    Query::Absent(tag.into())
}

fn and(left: Query, right: Query) -> Query {
    Query::And(Box::new(left), Box::new(right))
}

fn or(left: Query, right: Query) -> Query {
    Query::Or(Box::new(left), Box::new(right))
}

fn unexpected(message: &str) -> Result<Query, Error> {
    Err(Error::UnexpectedToken(message.into()))
}

#[test]
fn parser_reads_a_single_tag() {
    assert_eq!(Parser::new("work").parse(), Ok(present("work")));
    assert_eq!(Parser::new("  work\n").parse(), Ok(present("work")));
    assert_eq!(Parser::new("!work").parse(), Ok(absent("work")));
    assert_eq!(Parser::new("! work").parse(), Ok(absent("work")));
}

#[test]
fn parser_reads_both_connectives() {
    assert_eq!(Parser::new("a & b").parse(), Ok(and(present("a"), present("b"))));
    assert_eq!(Parser::new("a | b").parse(), Ok(or(present("a"), present("b"))));
    assert_eq!(Parser::new("a&!b").parse(), Ok(and(present("a"), absent("b"))));
    assert_eq!(Parser::new("!a|b").parse(), Ok(or(absent("a"), present("b"))));
}

#[test]
fn parser_groups_to_the_right() {
    assert_eq!(
        Parser::new("a & b | c").parse(),
        Ok(and(present("a"), or(present("b"), present("c"))))
    );
    assert_ne!(
        Parser::new("a & b | c").parse(),
        Ok(or(and(present("a"), present("b")), present("c")))
    );
    assert_eq!(
        Parser::new("a | b & c").parse(),
        Ok(or(present("a"), and(present("b"), present("c"))))
    );
    assert_eq!(
        Parser::new("a | !b | c & d").parse(),
        Ok(or(present("a"), or(absent("b"), and(present("c"), present("d")))))
    );
}

#[test]
fn parser_rejects_an_empty_query() {
    assert_eq!(Parser::new("").parse(), unexpected("Unexpected token: END"));
    assert_eq!(Parser::new(" \t\n").parse(), unexpected("Unexpected token: END"));
}

#[test]
fn parser_rejects_a_connective_without_a_right_side() {
    assert_eq!(Parser::new("a &").parse(), unexpected("Unexpected token: END"));
    assert_eq!(Parser::new("a |").parse(), unexpected("Unexpected token: END"));
    assert_eq!(Parser::new("a & | b").parse(), unexpected("Unexpected token: OR"));
    assert_eq!(Parser::new("a | & b").parse(), unexpected("Unexpected token: AND"));
}

#[test]
fn parser_rejects_a_tag_after_a_term() {
    assert_eq!(Parser::new("a b").parse(), unexpected("Unexpected token: TAG(\"b\")"));
    assert_eq!(Parser::new("a !b").parse(), unexpected("Unexpected token: NOT"));
    assert_eq!(Parser::new("!a b/c").parse(), unexpected("Unexpected token: TAG(\"b/c\")"));
}

#[test]
fn parser_rejects_a_connective_at_the_start() {
    assert_eq!(Parser::new("& a").parse(), unexpected("Unexpected token: AND"));
    assert_eq!(Parser::new("| a").parse(), unexpected("Unexpected token: OR"));
}

#[test]
fn parser_wants_a_tag_after_not() {
    assert_eq!(Parser::new("!").parse(), unexpected("Expected tag, got END"));
    assert_eq!(Parser::new("!!a").parse(), unexpected("Expected tag, got NOT"));
    assert_eq!(Parser::new("!&a").parse(), unexpected("Expected tag, got AND"));
    assert_eq!(Parser::new("a & ! | b").parse(), unexpected("Expected tag, got OR"));
}

#[test]
fn parser_reports_a_character_outside_the_alphabet() {
    let bad = |character, position| Err(Error::InvalidCharacter(LexError { character, position }));
    assert_eq!(Parser::new("$").parse(), bad('$', 0));
    assert_eq!(Parser::new("a & (b)").parse(), bad('(', 4));
    assert_eq!(Parser::new("a $").parse(), bad('$', 2));
    assert_eq!(Parser::new("!é").parse(), bad('é', 1));
}

#[test]
fn parser_reports_the_first_error_it_meets() {
    assert_eq!(Parser::new("a b $").parse(), unexpected("Unexpected token: TAG(\"b\")"));
    assert_eq!(Parser::new("& $").parse(), unexpected("Unexpected token: AND"));
}

#[test]
fn parser_is_at_the_end_after_a_query() {
    let mut parser = Parser::new("a & b");
    assert_eq!(parser.parse(), Ok(and(present("a"), present("b"))));
    assert_eq!(parser.parse(), unexpected("Unexpected token: END"));
}

#[test]
fn parser_stops_at_the_token_it_rejects() {
    let mut parser = Parser::new("a b | c");
    assert_eq!(parser.parse(), unexpected("Unexpected token: TAG(\"b\")"));
    assert_eq!(parser.parse(), Ok(or(present("b"), present("c"))));
}

#[test]
fn parse_is_the_parser_on_the_whole_text() {
    assert_eq!(parse("a & b | c"), Ok(and(present("a"), or(present("b"), present("c")))));
    assert_eq!(parse(""), unexpected("Unexpected token: END"));
    assert_eq!(parse("a &"), unexpected("Unexpected token: END"));
    assert_eq!(parse("a b"), unexpected("Unexpected token: TAG(\"b\")"));
}

#[test]
fn a_query_and_its_clone_are_equal() {
    let query = and(present("a"), or(absent("b"), present("c")));
    assert_eq!(query.clone(), query);
}
