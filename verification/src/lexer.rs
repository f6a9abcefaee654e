//! A pull-based tokenizer for query strings.
use vstd::prelude::*;
use crate::text::chars_of;
use crate::token::{Token, TokenView};

verus! {

/// A character that belongs to no token, with its index in the input
/// (counted in characters, from zero).
#[derive(Clone, Copy, Debug, PartialEq, Eq, Structural)]
pub struct LexError {
    pub character: char,
    pub position: usize,
}

/// Space, tab and newline separate tokens and mean nothing else.
pub open spec fn whitespace(c: char) -> bool {
    c == ' ' || c == '\t' || c == '\n'
}

/// The characters a tag is made of: ASCII letters and digits, `-` and `/`.
pub open spec fn tag_char(c: char) -> bool {
    ('a' <= c && c <= 'z') || ('A' <= c && c <= 'Z') || ('0' <= c && c <= '9') || c == '-' || c
        == '/'
}

/// The first position at or after `i` that does not hold whitespace.
pub open spec fn skip_whitespace(s: Seq<char>, i: int) -> int
    decreases s.len() - i,
{
    if 0 <= i < s.len() && whitespace(s[i]) {
        skip_whitespace(s, i + 1)
    } else {
        i
    }
}

/// The end of the maximal run of tag characters that starts at `i`.
pub open spec fn tag_end(s: Seq<char>, i: int) -> int
    decreases s.len() - i,
{
    if 0 <= i < s.len() && tag_char(s[i]) {
        tag_end(s, i + 1)
    } else {
        i
    }
}

/// What one step of the lexer yields: a token or a lexical error.
pub type Symbol = Result<TokenView, LexError>;

/// The symbol that stands for the end of the input.
pub open spec fn end() -> Symbol {
    Ok(TokenView::END)
}

/// One step of the lexer: what it yields and the position it stops at.
pub struct Scan {
    pub symbol: Symbol,
    pub next: int,
}

/// The token that starts at or after position `i` of `s`, whitespace
/// skipped. At the end of the input this is `END`, and the position stays.
/// A character outside the alphabet is reported and passed over.
pub open spec fn scan(s: Seq<char>, i: int) -> Scan {
    let start = skip_whitespace(s, i);
    if !(0 <= start < s.len()) {
        Scan { symbol: end(), next: start }
    } else if s[start] == '|' {
        Scan { symbol: Ok(TokenView::OR), next: start + 1 }
    } else if s[start] == '&' {
        Scan { symbol: Ok(TokenView::AND), next: start + 1 }
    } else if s[start] == '!' {
        Scan { symbol: Ok(TokenView::NOT), next: start + 1 }
    } else if tag_char(s[start]) {
        Scan {
            symbol: Ok(TokenView::TAG(s.subrange(start, tag_end(s, start)))),
            next: tag_end(s, start),
        }
    } else {
        Scan {
            symbol: Err(LexError { character: s[start], position: start as usize }),
            next: start + 1,
        }
    }
}

/// Everything the lexer yields from position `i` of `s` on, up to but not
/// including the final `END`.
pub open spec fn tokens(s: Seq<char>, i: int) -> Seq<Symbol>
    decreases s.len() - i,
    via tokens_decreases
{
    let step = scan(s, i);
    if step.symbol != end() {
        seq![step.symbol] + tokens(s, step.next)
    } else {
        Seq::empty()
    }
}

#[via_fn]
proof fn tokens_decreases(s: Seq<char>, i: int) {
    lemma_skip_whitespace_bounds(s, i);
    lemma_tag_end_bounds(s, skip_whitespace(s, i));
}

/// The mathematical value of what [`Lexer::next_token`] returns.
pub open spec fn symbol_of(r: Result<Token, LexError>) -> Symbol {
    match r {
        Ok(token) => Ok(token@),
        Err(e) => Err(e),
    }
}

/// Skipping whitespace moves forward, stays within the input and stops at
/// what is no whitespace.
proof fn lemma_skip_whitespace_bounds(s: Seq<char>, i: int)
    ensures
        i <= skip_whitespace(s, i),
        i <= s.len() ==> skip_whitespace(s, i) <= s.len(),
        0 <= skip_whitespace(s, i) < s.len() ==> !whitespace(s[skip_whitespace(s, i)]),
        skip_whitespace(s, skip_whitespace(s, i)) == skip_whitespace(s, i),
    decreases s.len() - i,
{
    if 0 <= i < s.len() && whitespace(s[i]) {
        lemma_skip_whitespace_bounds(s, i + 1);
    }
}

/// A run of tag characters ends behind its start and within the input.
proof fn lemma_tag_end_bounds(s: Seq<char>, i: int)
    ensures
        i <= tag_end(s, i),
        i <= s.len() ==> tag_end(s, i) <= s.len(),
        0 <= i < s.len() && tag_char(s[i]) ==> i < tag_end(s, i),
    decreases s.len() - i,
{
    if 0 <= i < s.len() && tag_char(s[i]) {
        lemma_tag_end_bounds(s, i + 1);
    }
}

/// A step of the lexer never moves backwards, stays within the input, and
/// consumes at least one character whenever it yields anything but `END`.
pub proof fn lemma_scan_advances(s: Seq<char>, i: int)
    requires
        0 <= i <= s.len(),
    ensures
        i <= scan(s, i).next <= s.len(),
        scan(s, i).symbol != end() ==> i < scan(s, i).next,
{
    lemma_skip_whitespace_bounds(s, i);
    lemma_tag_end_bounds(s, skip_whitespace(s, i));
}

/// Once the lexer has yielded `END` it yields `END` forever.
pub proof fn lemma_scan_end_is_final(s: Seq<char>, i: int)
    requires
        0 <= i <= s.len(),
        scan(s, i).symbol == end(),
    ensures
        scan(s, scan(s, i).next) == scan(s, i),
{
    lemma_skip_whitespace_bounds(s, i);
}

/// Whether `c` is whitespace.
pub fn is_whitespace(c: char) -> (r: bool)
    ensures
        r == whitespace(c),
{
    c == ' ' || c == '\t' || c == '\n'
}

/// Whether `c` may occur in a tag.
pub fn is_tag_char(c: char) -> (r: bool)
    ensures
        r == tag_char(c),
{
    ('a' <= c && c <= 'z') || ('A' <= c && c <= 'Z') || ('0' <= c && c <= '9') || c == '-' || c
        == '/'
}

/// A tokenizer over the characters of one query string.
pub struct Lexer {
    chars: Vec<char>,
    pos: usize,
}

impl Lexer {
    /// The position is within the input or at its end.
    #[verifier::type_invariant]
    spec fn in_bounds(&self) -> bool {
        self.pos <= self.chars@.len()
    }

    /// The whole input, as characters.
    pub closed spec fn source(&self) -> Seq<char> {
        self.chars@
    }

    /// The index of the next character to read; never beyond the input.
    pub closed spec fn position(&self) -> int {
        self.pos as int
    }

    /// A lexer at the start of `input`.
    pub fn new(input: &str) -> (lexer: Lexer)
        ensures
            lexer.source() == input@,
            lexer.position() == 0,
    {
        Lexer { chars: chars_of(input), pos: 0 }
    }

    /// Yields the next token and moves past it. At the end of the input it
    /// yields `END`, again and again. A character that belongs to no token
    /// is reported with its position and passed over.
    pub fn next_token(&mut self) -> (r: Result<Token, LexError>)
        ensures
            final(self).source() == old(self).source(),
            symbol_of(r) == scan(old(self).source(), old(self).position()).symbol,
            final(self).position() == scan(old(self).source(), old(self).position()).next,
            old(self).position() <= final(self).position() <= final(self).source().len(),
    {
        proof {
            use_type_invariant(&*self);
            lemma_scan_advances(self.source(), self.position());
        }
        self.eat_whitespace();
        proof {
            use_type_invariant(&*self);
        }
        if self.pos >= self.chars.len() {
            return Ok(Token::END);
        }
        let c = self.chars[self.pos];
        if c == '|' {
            self.read_char();
            Ok(Token::OR)
        } else if c == '&' {
            self.read_char();
            Ok(Token::AND)
        } else if c == '!' {
            self.read_char();
            Ok(Token::NOT)
        } else if is_tag_char(c) {
            let tag = self.read_tag();
            Ok(Token::TAG(tag))
        } else {
            let error = LexError { character: c, position: self.pos };
            self.read_char();
            Err(error)
        }
    }

    /// Moves past one character.
    fn read_char(&mut self)
        requires
            old(self).pos < old(self).chars@.len(),
        ensures
            final(self).chars == old(self).chars,
            final(self).pos == old(self).pos + 1,
    {
        assert(self.chars@.len() == self.chars.len());
        self.pos = self.pos + 1;
    }

    /// Reads the longest run of tag characters at the position.
    fn read_tag(&mut self) -> (tag: String)
        ensures
            final(self).chars == old(self).chars,
            final(self).pos == tag_end(old(self).chars@, old(self).pos as int),
            tag@ == old(self).chars@.subrange(old(self).pos as int, final(self).pos as int),
    {
        proof {
            use_type_invariant(&*self);
        }
        let ghost start = self.pos as int;
        let mut tag = String::new();
        while self.pos < self.chars.len() && is_tag_char(self.chars[self.pos])
            invariant
                self.chars == old(self).chars,
                0 <= start <= self.pos <= self.chars@.len(),
                tag_end(self.chars@, self.pos as int) == tag_end(self.chars@, start),
                tag@ == self.chars@.subrange(start, self.pos as int),
            decreases self.chars@.len() - self.pos,
        {
            tag.push(self.chars[self.pos]);
            self.pos = self.pos + 1;
            assert(tag@ =~= self.chars@.subrange(start, self.pos as int));
        }
        tag
    }

    /// Moves past the whitespace at the position.
    fn eat_whitespace(&mut self)
        ensures
            final(self).chars == old(self).chars,
            final(self).pos == skip_whitespace(old(self).chars@, old(self).pos as int),
    {
        proof {
            use_type_invariant(&*self);
        }
        while self.pos < self.chars.len() && is_whitespace(self.chars[self.pos])
            invariant
                self.chars == old(self).chars,
                self.pos <= self.chars@.len(),
                skip_whitespace(self.chars@, self.pos as int) == skip_whitespace(
                    old(self).chars@,
                    old(self).pos as int,
                ),
            decreases self.chars@.len() - self.pos,
        {
            self.pos = self.pos + 1;
        }
    }
}

} // verus!
