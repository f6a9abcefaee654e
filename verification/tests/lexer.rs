use tag_query::lexer::{is_tag_char, is_whitespace, LexError, Lexer};
use tag_query::token::Token;

fn tag(text: &str) -> Token {
    Token::TAG(text.into())
}

fn all_tokens(input: &str) -> Vec<Result<Token, LexError>> {
    let mut lexer = Lexer::new(input);
    let mut tokens = Vec::new();
    loop {
        let token = lexer.next_token();
        let done = token == Ok(Token::END);
        tokens.push(token);
        if done {
            return tokens;
        }
    }
}

#[test]
fn lexer_yields_each_kind_of_token() {
    assert_eq!(
        all_tokens("a&!b|c"),
        vec![
            Ok(tag("a")),
            Ok(Token::AND),
            Ok(Token::NOT),
            Ok(tag("b")),
            Ok(Token::OR),
            Ok(tag("c")),
            Ok(Token::END),
        ]
    );
}

#[test]
fn lexer_skips_whitespace() {
    assert_eq!(
        all_tokens("  work \t&\n! done  "),
        vec![Ok(tag("work")), Ok(Token::AND), Ok(Token::NOT), Ok(tag("done")), Ok(Token::END)]
    );
    assert_eq!(all_tokens(" \t\n"), vec![Ok(Token::END)]);
}

#[test]
fn lexer_takes_the_longest_tag() {
    assert_eq!(all_tokens("Proj-2/sub-A"), vec![Ok(tag("Proj-2/sub-A")), Ok(Token::END)]);
    assert_eq!(all_tokens("az AZ 09 -/"), vec![
        Ok(tag("az")),
        Ok(tag("AZ")),
        Ok(tag("09")),
        Ok(tag("-/")),
        Ok(Token::END),
    ]);
    assert_eq!(all_tokens("a!b"), vec![Ok(tag("a")), Ok(Token::NOT), Ok(tag("b")), Ok(Token::END)]);
}

#[test]
fn lexer_yields_end_forever() {
    let mut lexer = Lexer::new("a");
    assert_eq!(lexer.next_token(), Ok(tag("a")));
    assert_eq!(lexer.next_token(), Ok(Token::END));
    assert_eq!(lexer.next_token(), Ok(Token::END));
    assert_eq!(lexer.next_token(), Ok(Token::END));
    let mut empty = Lexer::new("");
    assert_eq!(empty.next_token(), Ok(Token::END));
    assert_eq!(empty.next_token(), Ok(Token::END));
}

#[test]
fn lexer_reports_a_character_outside_the_alphabet() {
    let mut lexer = Lexer::new("a $b");
    assert_eq!(lexer.next_token(), Ok(tag("a")));
    assert_eq!(lexer.next_token(), Err(LexError { character: '$', position: 2 }));
    assert_eq!(lexer.next_token(), Ok(tag("b")));
    assert_eq!(lexer.next_token(), Ok(Token::END));
}

#[test]
fn lexer_counts_positions_in_characters() {
    assert_eq!(
        all_tokens("é ü_a"),
        vec![
            Err(LexError { character: 'é', position: 0 }),
            Err(LexError { character: 'ü', position: 2 }),
            Err(LexError { character: '_', position: 3 }),
            Ok(tag("a")),
            Ok(Token::END),
        ]
    );
}

#[test]
fn lexer_does_not_take_a_nul_for_the_end() {
    assert_eq!(
        all_tokens("a\0b"),
        vec![
            Ok(tag("a")),
            Err(LexError { character: '\0', position: 1 }),
            Ok(tag("b")),
            Ok(Token::END),
        ]
    );
}

#[test]
fn lexer_takes_other_white_space_for_an_error() {
    assert_eq!(
        all_tokens("a\rb"),
        vec![
            Ok(tag("a")),
            Err(LexError { character: '\r', position: 1 }),
            Ok(tag("b")),
            Ok(Token::END),
        ]
    );
}

#[test]
fn whitespace_is_space_tab_and_newline() {
    assert!(is_whitespace(' '));
    assert!(is_whitespace('\t'));
    assert!(is_whitespace('\n'));
    assert!(!is_whitespace('\r'));
    assert!(!is_whitespace('a'));
    assert!(!is_whitespace('\u{a0}'));
}

#[test]
fn tag_characters_are_letters_digits_dash_and_slash() {
    for c in ['a', 'm', 'z', 'A', 'M', 'Z', '0', '5', '9', '-', '/'] {
        assert!(is_tag_char(c), "{:?}", c);
    }
    for c in ['`', '{', '@', '[', '.', ':', '_', ' ', '&', '|', '!', 'é', '\0', '\\', '+', ','] {
        assert!(!is_tag_char(c), "{:?}", c);
    }
}

#[test]
fn a_token_and_its_clone_are_equal() {
    for token in [Token::OR, Token::NOT, Token::AND, Token::END, tag("work")] {
        assert_eq!(token.clone(), token);
    }
}
