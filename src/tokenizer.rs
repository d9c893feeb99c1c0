//! Lexing of patterns: every character becomes exactly one token.
use vstd::prelude::*;

verus! {

/// The tokens of the pattern language.
#[derive(Debug, Clone, Copy, PartialEq, Eq, Structural)]
pub enum Token {
    LParen,
    RParen,
    UnionBar,
    KleeneStar,
    KleenePlus,
    AnyChar,
    Char(char),
}

/// The token that a single pattern character stands for.
pub open spec fn token_of(c: char) -> Token {
    if c == '(' {
        Token::LParen
    } else if c == ')' {
        Token::RParen
    } else if c == '|' {
        Token::UnionBar
    } else if c == '*' {
        Token::KleeneStar
    } else if c == '+' {
        Token::KleenePlus
    } else if c == '.' {
        Token::AnyChar
    } else {
        Token::Char(c)
    }
}

/// The token sequence of a pattern.
pub open spec fn lex(s: Seq<char>) -> Seq<Token> {
    s.map_values(|c: char| token_of(c))
}

/// The characters of `input`, in order.
pub fn chars_of(input: &str) -> (r: Vec<char>)
    ensures
        r@ == input@,
{
    let mut chars: Vec<char> = Vec::new();
    for c in it: input.chars()
        invariant
            chars@ == it.seq().take(it.index() as int),
    {
        chars.push(c);
    }
    chars
}

/// A cursor over the characters of a string.
pub struct CharStream {
    chars: Vec<char>,
    pos: usize,
}

impl View for CharStream {
    type V = Seq<char>;

    /// The characters not yet taken.
    closed spec fn view(&self) -> Seq<char> {
        if self.pos <= self.chars@.len() {
            self.chars@.skip(self.pos as int)
        } else {
            Seq::empty()
        }
    }
}

impl CharStream {
    /// A cursor at the start of `input`.
    pub fn new(input: &str) -> (r: CharStream)
        ensures
            r@ == input@,
    {
        let chars = chars_of(input);
        assert(chars@ =~= chars@.skip(0));
        CharStream { chars, pos: 0 }
    }

    /// The next character, without taking it.
    pub fn peek(&self) -> (r: Option<char>)
        ensures
            self@.len() == 0 ==> r is None,
            self@.len() > 0 ==> r == Some(self@[0]),
    {
        if self.pos < self.chars.len() {
            Some(self.chars[self.pos])
        } else {
            None
        }
    }

    /// Takes the next character.
    pub fn next(&mut self) -> (r: Option<char>)
        ensures
            old(self)@.len() == 0 ==> r is None && final(self)@ == old(self)@,
            old(self)@.len() > 0 ==> r == Some(old(self)@[0]) && final(self)@ == old(
                self,
            )@.drop_first(),
    {
        if self.pos < self.chars.len() {
            let c = self.chars[self.pos];
            self.pos = self.pos + 1;
            assert(self@ =~= old(self)@.drop_first());
            Some(c)
        } else {
            None
        }
    }
}

/// Turns a pattern into tokens, one character at a time.
pub struct Tokenizer {
    pub chars: CharStream,
}

impl View for Tokenizer {
    type V = Seq<Token>;

    /// The tokens not yet taken.
    open spec fn view(&self) -> Seq<Token> {
        lex(self.chars@)
    }
}

impl Tokenizer {
    /// A tokenizer at the start of `input`.
    pub fn new(input: &str) -> (r: Tokenizer)
        ensures
            r.chars@ == input@,
            r@ == lex(input@),
    {
        Tokenizer { chars: CharStream::new(input) }
    }

    /// The next token, without taking it.
    pub fn peek(&self) -> (r: Option<Token>)
        ensures
            self@.len() == 0 ==> r is None,
            self@.len() > 0 ==> r == Some(self@[0]),
    {
        match self.chars.peek() {
            Some(c) => Some(token_for(c)),
            None => None,
        }
    }

    /// Takes the next token.
    pub fn next(&mut self) -> (r: Option<Token>)
        ensures
            old(self)@.len() == 0 ==> r is None && final(self)@ == old(self)@,
            old(self)@.len() > 0 ==> r == Some(old(self)@[0]) && final(self)@ == old(
                self,
            )@.drop_first(),
    {
        match self.chars.peek() {
            Some(c) => {
                let t = if c == '(' || c == ')' {
                    self.lex_paren()
                } else if c == '|' {
                    self.lex_union()
                } else if c == '*' {
                    self.lex_kleene()
                } else if c == '+' {
                    self.lex_plus()
                } else if c == '.' {
                    self.lex_anychar()
                } else {
                    self.lex_char()
                };
                assert(self@ =~= old(self)@.drop_first());
                Some(t)
            },
            None => None,
        }
    }

    /// Takes a parenthesis.
    pub fn lex_paren(&mut self) -> (r: Token)
        requires
            old(self).chars@.len() > 0,
            old(self).chars@[0] == '(' || old(self).chars@[0] == ')',
        ensures
            r == token_of(old(self).chars@[0]),
            final(self).chars@ == old(self).chars@.drop_first(),
    {
        match self.chars.next() {
            Some('(') => Token::LParen,
            _ => Token::RParen,
        }
    }

    /// Takes a union bar.
    pub fn lex_union(&mut self) -> (r: Token)
        requires
            old(self).chars@.len() > 0,
            old(self).chars@[0] == '|',
        ensures
            r == Token::UnionBar,
            final(self).chars@ == old(self).chars@.drop_first(),
    {
        self.chars.next();
        Token::UnionBar
    }

    /// Takes a Kleene star.
    pub fn lex_kleene(&mut self) -> (r: Token)
        requires
            old(self).chars@.len() > 0,
            old(self).chars@[0] == '*',
        ensures
            r == Token::KleeneStar,
            final(self).chars@ == old(self).chars@.drop_first(),
    {
        self.chars.next();
        Token::KleeneStar
    }

    /// Takes a plus sign.
    pub fn lex_plus(&mut self) -> (r: Token)
        requires
            old(self).chars@.len() > 0,
            old(self).chars@[0] == '+',
        ensures
            r == Token::KleenePlus,
            final(self).chars@ == old(self).chars@.drop_first(),
    {
        self.chars.next();
        Token::KleenePlus
    }

    /// Takes a dot.
    pub fn lex_anychar(&mut self) -> (r: Token)
        requires
            old(self).chars@.len() > 0,
            old(self).chars@[0] == '.',
        ensures
            r == Token::AnyChar,
            final(self).chars@ == old(self).chars@.drop_first(),
    {
        self.chars.next();
        Token::AnyChar
    }

    /// Takes any other character as a literal.
    pub fn lex_char(&mut self) -> (r: Token)
        requires
            old(self).chars@.len() > 0,
        ensures
            r == Token::Char(old(self).chars@[0]),
            final(self).chars@ == old(self).chars@.drop_first(),
    {
        let c = self.chars.next().unwrap();
        Token::Char(c)
    }
}

/// The token for one pattern character.
fn token_for(c: char) -> (r: Token)
    ensures
        r == token_of(c),
{
    if c == '(' {
        Token::LParen
    } else if c == ')' {
        Token::RParen
    } else if c == '|' {
        Token::UnionBar
    } else if c == '*' {
        Token::KleeneStar
    } else if c == '+' {
        Token::KleenePlus
    } else if c == '.' {
        Token::AnyChar
    } else {
        Token::Char(c)
    }
}

} // verus!
