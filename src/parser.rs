//! Recursive-descent parsing of token sequences into syntax trees.
//!
//! Grammar, loosest binding first:
//! ```text
//! Expr   := Cat ('|' Expr)?
//! Cat    := Repeat (Cat)?        -- while the next token can start an atom
//! Repeat := Plus ('*')?
//! Plus   := Atom ('+')?
//! Atom   := '(' Expr ')' | '.' | Literal
//! ```
use vstd::prelude::*;
use crate::grammar::{derives_expr, lemma_parse_derives};
use crate::tokenizer::{Token, Tokenizer, lex};

verus! {

/// Syntax tree of a pattern.
#[derive(Debug, PartialEq, Eq)]
pub enum AST {
    Alternation(Box<AST>, Box<AST>),
    Catenation(Box<AST>, Box<AST>),
    Closure(Box<AST>),
    OneOrMore(Box<AST>),
    Char(char),
    AnyChar,
}

/// Why a token sequence is not a pattern.
#[derive(Debug, Clone, Copy, PartialEq, Eq, Structural)]
pub enum ParseError {
    /// A token stood where the grammar does not allow it.
    UnexpectedToken(Token),
    /// The tokens ended where the grammar needs an atom or a closing parenthesis.
    UnexpectedEndOfInput,
    /// A closing parenthesis was needed and another token was found.
    MismatchedParenthesis,
}

pub fn alternation(lhs: AST, rhs: AST) -> (r: AST)
    ensures
        r == AST::Alternation(Box::new(lhs), Box::new(rhs)),
{
    AST::Alternation(Box::new(lhs), Box::new(rhs))
}

pub fn catenation(lhs: AST, rhs: AST) -> (r: AST)
    ensures
        r == AST::Catenation(Box::new(lhs), Box::new(rhs)),
{
    AST::Catenation(Box::new(lhs), Box::new(rhs))
}

pub fn closure(value: AST) -> (r: AST)
    ensures
        r == AST::Closure(Box::new(value)),
{
    AST::Closure(Box::new(value))
}

pub fn one_or_more(value: AST) -> (r: AST)
    ensures
        r == AST::OneOrMore(Box::new(value)),
{
    AST::OneOrMore(Box::new(value))
}

pub fn character(value: char) -> (r: AST)
    ensures
        r == AST::Char(value),
{
    AST::Char(value)
}

/// A tree parsed from a prefix of the tokens, with the tokens that follow it.
pub type Parsed = Result<(AST, Seq<Token>), ParseError>;

/// Whether a token can begin an atom.
pub open spec fn starts_atom(t: Token) -> bool {
    t is LParen || t is AnyChar || t is Char
}

/// `Expr := Cat ('|' Expr)?`
pub open spec fn parse_expr(ts: Seq<Token>) -> Parsed
    decreases ts.len(), 4int,
{
    match parse_cat(ts) {
        Ok((l, rest)) => {
            // `rest` is always shorter than `ts` (`lemma_cat_consumes`); the test
            // bounds the recursion.
            if rest.len() > 0 && rest[0] == Token::UnionBar && rest.len() <= ts.len() {
                match parse_expr(rest.drop_first()) {
                    Ok((r, rest2)) => Ok((AST::Alternation(Box::new(l), Box::new(r)), rest2)),
                    Err(e) => Err(e),
                }
            } else {
                Ok((l, rest))
            }
        },
        Err(e) => Err(e),
    }
}

/// `Cat := Repeat (Cat)?`, continued only before a token that starts an atom.
pub open spec fn parse_cat(ts: Seq<Token>) -> Parsed
    decreases ts.len(), 3int,
{
    match parse_clo(ts) {
        Ok((l, rest)) => {
            // `rest` is always shorter than `ts` (`lemma_clo_consumes`); the test
            // bounds the recursion.
            if rest.len() > 0 && starts_atom(rest[0]) && rest.len() < ts.len() {
                match parse_cat(rest) {
                    Ok((r, rest2)) => Ok((AST::Catenation(Box::new(l), Box::new(r)), rest2)),
                    Err(e) => Err(e),
                }
            } else {
                Ok((l, rest))
            }
        },
        Err(e) => Err(e),
    }
}

/// `Repeat := Plus ('*')?`
pub open spec fn parse_clo(ts: Seq<Token>) -> Parsed
    decreases ts.len(), 2int,
{
    match parse_plus(ts) {
        Ok((a, rest)) => {
            if rest.len() > 0 && rest[0] == Token::KleeneStar {
                Ok((AST::Closure(Box::new(a)), rest.drop_first()))
            } else {
                Ok((a, rest))
            }
        },
        Err(e) => Err(e),
    }
}

/// `Plus := Atom ('+')?`
pub open spec fn parse_plus(ts: Seq<Token>) -> Parsed
    decreases ts.len(), 1int,
{
    match parse_atom(ts) {
        Ok((a, rest)) => {
            if rest.len() > 0 && rest[0] == Token::KleenePlus {
                Ok((AST::OneOrMore(Box::new(a)), rest.drop_first()))
            } else {
                Ok((a, rest))
            }
        },
        Err(e) => Err(e),
    }
}

/// `Atom := '(' Expr ')' | '.' | Literal`
pub open spec fn parse_atom(ts: Seq<Token>) -> Parsed
    decreases ts.len(), 0int,
{
    if ts.len() == 0 {
        Err(ParseError::UnexpectedEndOfInput)
    } else {
        match ts[0] {
            Token::LParen => match parse_expr(ts.drop_first()) {
                Ok((a, rest)) => {
                    if rest.len() == 0 {
                        Err(ParseError::UnexpectedEndOfInput)
                    } else if rest[0] == Token::RParen {
                        Ok((a, rest.drop_first()))
                    } else {
                        Err(ParseError::MismatchedParenthesis)
                    }
                },
                Err(e) => Err(e),
            },
            Token::AnyChar => Ok((AST::AnyChar, ts.drop_first())),
            Token::Char(c) => Ok((AST::Char(c), ts.drop_first())),
            t => Err(ParseError::UnexpectedToken(t)),
        }
    }
}

/// A whole token sequence read as one pattern: an `Expr` with no token after it.
pub open spec fn parse_tokens(ts: Seq<Token>) -> Result<AST, ParseError> {
    match parse_expr(ts) {
        Ok((a, rest)) => {
            if rest.len() == 0 {
                Ok(a)
            } else {
                Err(ParseError::UnexpectedToken(rest[0]))
            }
        },
        Err(e) => Err(e),
    }
}

/// The syntax tree of a pattern string.
pub open spec fn parse_pattern(p: Seq<char>) -> Result<AST, ParseError> {
    parse_tokens(lex(p))
}

/// What a parsing step returned, and the tokens left after it, agree with `expected`.
pub open spec fn outcome(r: Result<AST, ParseError>, left: Seq<Token>, expected: Parsed) -> bool {
    match expected {
        Ok((a, rest)) => r == Ok::<AST, ParseError>(a) && left == rest,
        Err(e) => r == Err::<AST, ParseError>(e),
    }
}

/// Every successful step takes at least one token.
pub proof fn lemma_expr_consumes(ts: Seq<Token>)
    ensures
        parse_expr(ts) is Ok ==> parse_expr(ts)->Ok_0.1.len() < ts.len(),
    decreases ts.len(), 4int,
{
    lemma_cat_consumes(ts);
    if let Ok((l, rest)) = parse_cat(ts) {
        if rest.len() > 0 && rest[0] == Token::UnionBar {
            lemma_expr_consumes(rest.drop_first());
        }
    }
}

pub proof fn lemma_cat_consumes(ts: Seq<Token>)
    ensures
        parse_cat(ts) is Ok ==> parse_cat(ts)->Ok_0.1.len() < ts.len(),
    decreases ts.len(), 3int,
{
    lemma_clo_consumes(ts);
    if let Ok((l, rest)) = parse_clo(ts) {
        if rest.len() > 0 && starts_atom(rest[0]) {
            lemma_cat_consumes(rest);
        }
    }
}

pub proof fn lemma_clo_consumes(ts: Seq<Token>)
    ensures
        parse_clo(ts) is Ok ==> parse_clo(ts)->Ok_0.1.len() < ts.len(),
    decreases ts.len(), 2int,
{
    lemma_plus_consumes(ts);
}

pub proof fn lemma_plus_consumes(ts: Seq<Token>)
    ensures
        parse_plus(ts) is Ok ==> parse_plus(ts)->Ok_0.1.len() < ts.len(),
    decreases ts.len(), 1int,
{
    lemma_atom_consumes(ts);
}

pub proof fn lemma_atom_consumes(ts: Seq<Token>)
    ensures
        parse_atom(ts) is Ok ==> parse_atom(ts)->Ok_0.1.len() < ts.len(),
    decreases ts.len(), 0int,
{
    if ts.len() > 0 && ts[0] == Token::LParen {
        lemma_expr_consumes(ts.drop_first());
    }
}

/// A parser with one token of lookahead.
pub struct Parser {
    tokens: Tokenizer,
}

impl View for Parser {
    type V = Seq<Token>;

    /// The tokens not yet consumed.
    closed spec fn view(&self) -> Seq<Token> {
        self.tokens@
    }
}

impl Parser {
    /// Parses all the tokens of `tokenizer` as one pattern: succeeds exactly with
    /// the one tree that the tokens derive in the grammar.
    pub fn parse(tokenizer: Tokenizer) -> (r: Result<AST, ParseError>)
        ensures
            r == parse_tokens(tokenizer@),
            forall|a: AST|
                r == Ok::<AST, ParseError>(a) <==> #[trigger] derives_expr(tokenizer@, a),
    {
        proof {
            assert forall|a: AST|
                parse_tokens(tokenizer@) == Ok::<AST, ParseError>(a) <==> #[trigger] derives_expr(
                    tokenizer@,
                    a,
                ) by {
                lemma_parse_derives(tokenizer@, a);
            }
        }
        let mut parser = Parser { tokens: tokenizer };
        let parsed = parser.reg_expr();
        match parsed {
            Ok(a) => match parser.take_next_token() {
                Ok(t) => Err(ParseError::UnexpectedToken(t)),
                Err(_) => Ok(a),
            },
            Err(e) => Err(e),
        }
    }

    /// A parser positioned at the start of `input`.
    pub fn from(input: &str) -> (r: Parser)
        ensures
            r@ == lex(input@),
    {
        Parser { tokens: Tokenizer::new(input) }
    }

    /// `Expr := Cat ('|' Expr)?`
    pub fn reg_expr(&mut self) -> (r: Result<AST, ParseError>)
        ensures
            outcome(r, final(self)@, parse_expr(old(self)@)),
        decreases old(self)@.len(), 4int,
    {
        let ghost ts = self@;
        proof {
            lemma_cat_consumes(ts);
        }
        let ast = match self.cat() {
            Ok(a) => a,
            Err(e) => return Err(e),
        };
        match self.tokens.peek() {
            Some(Token::UnionBar) => {
                match self.consume_token(Token::UnionBar) {
                    Ok(_) => {},
                    Err(e) => return Err(e),
                }
                let ast_two = match self.reg_expr() {
                    Ok(a) => a,
                    Err(e) => return Err(e),
                };
                Ok(alternation(ast, ast_two))
            },
            _ => Ok(ast),
        }
    }

    /// `Cat := Repeat (Cat)?`
    pub fn cat(&mut self) -> (r: Result<AST, ParseError>)
        ensures
            outcome(r, final(self)@, parse_cat(old(self)@)),
        decreases old(self)@.len(), 3int,
    {
        let ghost ts = self@;
        proof {
            lemma_clo_consumes(ts);
        }
        let closure = match self.clo() {
            Ok(a) => a,
            Err(e) => return Err(e),
        };
        match self.tokens.peek() {
            Some(Token::LParen) | Some(Token::AnyChar) | Some(Token::Char(_)) => {
                let closure_two = match self.cat() {
                    Ok(a) => a,
                    Err(e) => return Err(e),
                };
                Ok(catenation(closure, closure_two))
            },
            _ => Ok(closure),
        }
    }

    /// `Repeat := Plus ('*')?`
    pub fn clo(&mut self) -> (r: Result<AST, ParseError>)
        ensures
            outcome(r, final(self)@, parse_clo(old(self)@)),
        decreases old(self)@.len(), 2int,
    {
        let atom = match self.plus() {
            Ok(a) => a,
            Err(e) => return Err(e),
        };
        match self.tokens.peek() {
            Some(Token::KleeneStar) => {
                self.tokens.next();
                Ok(closure(atom))
            },
            _ => Ok(atom),
        }
    }

    /// `Plus := Atom ('+')?`
    pub fn plus(&mut self) -> (r: Result<AST, ParseError>)
        ensures
            outcome(r, final(self)@, parse_plus(old(self)@)),
        decreases old(self)@.len(), 1int,
    {
        let atom = match self.atom() {
            Ok(a) => a,
            Err(e) => return Err(e),
        };
        match self.tokens.peek() {
            Some(Token::KleenePlus) => {
                self.tokens.next();
                Ok(one_or_more(atom))
            },
            _ => Ok(atom),
        }
    }

    /// `Atom := '(' Expr ')' | '.' | Literal`
    pub fn atom(&mut self) -> (r: Result<AST, ParseError>)
        ensures
            outcome(r, final(self)@, parse_atom(old(self)@)),
        decreases old(self)@.len(), 0int,
    {
        match self.take_next_token() {
            Ok(Token::LParen) => {
                let reg_expr = match self.reg_expr() {
                    Ok(a) => a,
                    Err(e) => return Err(e),
                };
                match self.consume_token(Token::RParen) {
                    Ok(_) => Ok(reg_expr),
                    Err(e) => Err(e),
                }
            },
            Ok(Token::AnyChar) => Ok(AST::AnyChar),
            Ok(Token::Char(c)) => Ok(character(c)),
            Ok(t) => Err(ParseError::UnexpectedToken(t)),
            Err(e) => Err(e),
        }
    }

    /// Takes the next token; fails at the end of the tokens.
    fn take_next_token(&mut self) -> (r: Result<Token, ParseError>)
        ensures
            old(self)@.len() == 0 ==> r == Err::<Token, ParseError>(
                ParseError::UnexpectedEndOfInput,
            ) && final(self)@ == old(self)@,
            old(self)@.len() > 0 ==> r == Ok::<Token, ParseError>(old(self)@[0])
                && final(self)@ == old(self)@.drop_first(),
    {
        match self.tokens.next() {
            Some(t) => Ok(t),
            None => Err(ParseError::UnexpectedEndOfInput),
        }
    }

    /// Takes the next token, which must be `expected`: a missing token is an end of
    /// input, another token a mismatched parenthesis.
    fn consume_token(&mut self, expected: Token) -> (r: Result<Token, ParseError>)
        ensures
            old(self)@.len() == 0 ==> r == Err::<Token, ParseError>(
                ParseError::UnexpectedEndOfInput,
            ),
            old(self)@.len() > 0 && old(self)@[0] == expected ==> r == Ok::<Token, ParseError>(
                expected,
            ) && final(self)@ == old(self)@.drop_first(),
            old(self)@.len() > 0 && old(self)@[0] != expected ==> r == Err::<Token, ParseError>(
                ParseError::MismatchedParenthesis,
            ),
    {
        match self.tokens.next() {
            Some(next) => {
                if next == expected {
                    Ok(next)
                } else {
                    Err(ParseError::MismatchedParenthesis)
                }
            },
            None => Err(ParseError::UnexpectedEndOfInput),
        }
    }
}

} // verus!
