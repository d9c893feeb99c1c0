use thegrep::tokenizer::{Token, Tokenizer};

#[test]
fn empty() {
    let mut tokens = Tokenizer::new("");
    assert_eq!(tokens.next(), None);
    assert_eq!(tokens.next(), None);
}

#[test]
fn single_char() {
    let mut tokens = Tokenizer::new("a");
    assert_eq!(tokens.next(), Some(Token::Char('a')));
    assert_eq!(tokens.next(), None);
}

#[test]
fn parens() {
    let mut tokens = Tokenizer::new("(a)");
    assert_eq!(tokens.next(), Some(Token::LParen));
    assert_eq!(tokens.next(), Some(Token::Char('a')));
    assert_eq!(tokens.next(), Some(Token::RParen));
    assert_eq!(tokens.next(), None);
}

#[test]
fn any_char() {
    let mut tokens = Tokenizer::new(".");
    assert_eq!(tokens.next(), Some(Token::AnyChar));
    assert_eq!(tokens.next(), None);
}

#[test]
fn union_bar() {
    let mut tokens = Tokenizer::new("a|b");
    assert_eq!(tokens.next(), Some(Token::Char('a')));
    assert_eq!(tokens.next(), Some(Token::UnionBar));
    assert_eq!(tokens.next(), Some(Token::Char('b')));
    assert_eq!(tokens.next(), None);
}

#[test]
fn kleene_star() {
    let mut tokens = Tokenizer::new("a*");
    assert_eq!(tokens.next(), Some(Token::Char('a')));
    assert_eq!(tokens.next(), Some(Token::KleeneStar));
    assert_eq!(tokens.next(), None);
}

#[test]
fn whitespace() {
    let mut tokens = Tokenizer::new("\n\t ");
    assert_eq!(tokens.next(), Some(Token::Char('\n')));
    assert_eq!(tokens.next(), Some(Token::Char('\t')));
    assert_eq!(tokens.next(), Some(Token::Char(' ')));
    assert_eq!(tokens.next(), None);
}

#[test]
fn lex_paren() {
    let mut tokens = Tokenizer::new(")");
    assert_eq!(tokens.lex_paren(), Token::RParen);
    assert_eq!(tokens.chars.next(), None);
}

#[test]
fn lex_union() {
    let mut tokens = Tokenizer::new("|");
    assert_eq!(tokens.lex_union(), Token::UnionBar);
    assert_eq!(tokens.chars.next(), None);
}

#[test]
fn lex_kleene() {
    let mut tokens = Tokenizer::new("*");
    assert_eq!(tokens.lex_kleene(), Token::KleeneStar);
    assert_eq!(tokens.chars.next(), None);
}

#[test]
fn lex_anychar() {
    let mut tokens = Tokenizer::new(".");
    assert_eq!(tokens.lex_anychar(), Token::AnyChar);
    assert_eq!(tokens.chars.next(), None);
}

#[test]
fn lex_char() {
    let mut tokens = Tokenizer::new("a");
    assert_eq!(tokens.lex_char(), Token::Char('a'));
    assert_eq!(tokens.chars.next(), None);
}

#[test]
fn plus_sign_is_its_own_token() {
    let mut tokens = Tokenizer::new("a+");
    assert_eq!(tokens.next(), Some(Token::Char('a')));
    assert_eq!(tokens.peek(), Some(Token::KleenePlus));
    assert_eq!(tokens.lex_plus(), Token::KleenePlus);
    assert_eq!(tokens.next(), None);
}

#[test]
fn unicode_scalar_is_one_literal() {
    let mut tokens = Tokenizer::new("é(");
    assert_eq!(tokens.next(), Some(Token::Char('é')));
    assert_eq!(tokens.next(), Some(Token::LParen));
    assert_eq!(tokens.next(), None);
}
