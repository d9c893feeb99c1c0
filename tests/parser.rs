use thegrep::parser::{alternation, catenation, character, closure, one_or_more, ParseError, Parser, AST};
use thegrep::tokenizer::{Token, Tokenizer};

#[test]
fn parse_atoms() {
    let atom_char = Parser::parse(Tokenizer::new("a")).unwrap();
    assert_eq!(character('a'), atom_char);
    let atom_any_char = Parser::parse(Tokenizer::new(".")).unwrap();
    assert_eq!(AST::AnyChar, atom_any_char);
    let atom_char_paren = Parser::parse(Tokenizer::new("(a)")).unwrap();
    assert_eq!(character('a'), atom_char_paren);
}

#[test]
fn parse_clo() {
    let clo_char = Parser::parse(Tokenizer::new("a*")).unwrap();
    assert_eq!(closure(character('a')), clo_char);
    let clo_any_char = Parser::parse(Tokenizer::new(".*")).unwrap();
    assert_eq!(closure(AST::AnyChar), clo_any_char);
    let clo_char_paren = Parser::parse(Tokenizer::new("(a)*")).unwrap();
    assert_eq!(closure(character('a')), clo_char_paren);
    let no_clo = Parser::parse(Tokenizer::new("a")).unwrap();
    assert_eq!(character('a'), no_clo);
}

#[test]
fn parse_cat() {
    let no_cat = Parser::parse(Tokenizer::new("a")).unwrap();
    assert_eq!(character('a'), no_cat);
    let cat_atoms = Parser::parse(Tokenizer::new("ab")).unwrap();
    assert_eq!(catenation(character('a'), character('b')), cat_atoms);
    let cat_clo = Parser::parse(Tokenizer::new(".b*")).unwrap();
    assert_eq!(catenation(AST::AnyChar, closure(character('b'))), cat_clo);
    let cat_clo_paren = Parser::parse(Tokenizer::new("(ab)*")).unwrap();
    assert_eq!(
        closure(catenation(character('a'), character('b'))),
        cat_clo_paren
    );
    let cat_mult = Parser::parse(Tokenizer::new("abc")).unwrap();
    assert_eq!(
        catenation(character('a'), catenation(character('b'), character('c'))),
        cat_mult
    );
}

#[test]
fn parse_reg_expr() {
    let alt_atoms = Parser::parse(Tokenizer::new("a|b")).unwrap();
    assert_eq!(alternation(character('a'), character('b')), alt_atoms);
    let alt_clo = Parser::parse(Tokenizer::new("a*|b*")).unwrap();
    assert_eq!(
        alternation(closure(character('a')), closure(character('b'))),
        alt_clo
    );
    let alt_cat = Parser::parse(Tokenizer::new("ab|cd")).unwrap();
    assert_eq!(
        alternation(
            catenation(character('a'), character('b')),
            catenation(character('c'), character('d'))
        ),
        alt_cat
    );
    let alt_everything = Parser::parse(Tokenizer::new("((ab)*c)|(.a(b|c)*)")).unwrap();
    assert_eq!(
        alternation(
            catenation(
                closure(catenation(character('a'), character('b'))),
                character('c')
            ),
            catenation(
                AST::AnyChar,
                catenation(
                    character('a'),
                    closure(alternation(character('b'), character('c')))
                )
            )
        ),
        alt_everything
    );
    let no_alt = Parser::parse(Tokenizer::new("a")).unwrap();
    assert_eq!(character('a'), no_alt);
}

#[test]
fn reg_expr() {
    assert_eq!(Parser::from("a").reg_expr().unwrap(), character('a'));
    assert_eq!(
        Parser::from("a|b").reg_expr().unwrap(),
        alternation(character('a'), character('b'))
    );
    assert_eq!(
        Parser::from("a*|b*").reg_expr().unwrap(),
        alternation(closure(character('a')), closure(character('b')))
    );
    assert_eq!(
        Parser::from("ab|cd").reg_expr().unwrap(),
        alternation(
            catenation(character('a'), character('b')),
            catenation(character('c'), character('d'))
        )
    );
    assert_eq!(
        Parser::from("((ab)*c)|(.a(b|c)*)").reg_expr().unwrap(),
        alternation(
            catenation(
                closure(catenation(character('a'), character('b'))),
                character('c')
            ),
            catenation(
                AST::AnyChar,
                catenation(
                    character('a'),
                    closure(alternation(character('b'), character('c')))
                )
            )
        )
    );
}

#[test]
fn cat() {
    assert_eq!(
        Parser::from("ab").cat().unwrap(),
        catenation(character('a'), character('b'))
    );
    assert_eq!(
        Parser::from(".a*").cat().unwrap(),
        catenation(AST::AnyChar, closure(character('a')))
    );
    assert_eq!(
        Parser::from("(ab)*").cat().unwrap(),
        closure(catenation(character('a'), character('b')))
    );
    assert_eq!(
        Parser::from("abc").cat().unwrap(),
        catenation(character('a'), catenation(character('b'), character('c')))
    );
    assert_eq!(Parser::from("a").cat().unwrap(), character('a'));
}

#[test]
fn clo() {
    assert_eq!(Parser::from("a*").clo().unwrap(), closure(character('a')));
    assert_eq!(Parser::from(".*").clo().unwrap(), closure(AST::AnyChar));
    assert_eq!(Parser::from("(a)*").clo().unwrap(), closure(character('a')));
    assert_eq!(Parser::from("a").clo().unwrap(), character('a'));
}

#[test]
fn atom() {
    assert_eq!(Parser::from("a").atom().unwrap(), character('a'));
    assert_eq!(Parser::from(".").atom().unwrap(), AST::AnyChar);
    assert_eq!(Parser::from("(a)").atom().unwrap(), character('a'));
}

#[test]
fn plus_binds_tighter_than_star() {
    assert_eq!(Parser::from("a+").plus().unwrap(), one_or_more(character('a')));
    assert_eq!(
        Parser::parse(Tokenizer::new("a+*")).unwrap(),
        closure(one_or_more(character('a')))
    );
    assert_eq!(
        Parser::parse(Tokenizer::new("ab+")).unwrap(),
        catenation(character('a'), one_or_more(character('b')))
    );
}

#[test]
fn alternation_is_right_associative() {
    assert_eq!(
        Parser::parse(Tokenizer::new("a|b|c")).unwrap(),
        alternation(character('a'), alternation(character('b'), character('c')))
    );
}

#[test]
fn unclosed_paren_is_end_of_input() {
    assert_eq!(
        Parser::parse(Tokenizer::new("(a")),
        Err(ParseError::UnexpectedEndOfInput)
    );
}

#[test]
fn trailing_paren_is_unexpected_token() {
    assert_eq!(
        Parser::parse(Tokenizer::new("a)")),
        Err(ParseError::UnexpectedToken(Token::RParen))
    );
}

#[test]
fn lone_close_paren_is_rejected() {
    assert_eq!(
        Parser::parse(Tokenizer::new(")")),
        Err(ParseError::UnexpectedToken(Token::RParen))
    );
}

#[test]
fn empty_pattern_is_end_of_input() {
    assert_eq!(
        Parser::parse(Tokenizer::new("")),
        Err(ParseError::UnexpectedEndOfInput)
    );
    assert_eq!(
        Parser::parse(Tokenizer::new("a|")),
        Err(ParseError::UnexpectedEndOfInput)
    );
}

#[test]
fn double_star_is_unexpected_token() {
    assert_eq!(
        Parser::parse(Tokenizer::new("a**")),
        Err(ParseError::UnexpectedToken(Token::KleeneStar))
    );
}

#[test]
fn wrong_token_before_close_is_mismatched() {
    assert_eq!(
        Parser::parse(Tokenizer::new("(a**)")),
        Err(ParseError::MismatchedParenthesis)
    );
}

#[test]
fn empty_group_is_unexpected_token() {
    assert_eq!(
        Parser::parse(Tokenizer::new("()")),
        Err(ParseError::UnexpectedToken(Token::RParen))
    );
}
