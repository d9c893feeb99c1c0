use thegrep::nfa::NFA;
use thegrep::parser::ParseError;
use thegrep::tokenizer::Token;

#[test]
fn simple() {
    let input = NFA::from("a").unwrap();
    assert_eq!(input.accepts("a"), true);
    assert_eq!(input.accepts("b"), false);
}

#[test]
fn catenation() {
    let input = NFA::from("abc").unwrap();
    assert_eq!(input.accepts("abc"), true);
    assert_eq!(input.accepts("abd"), false);
    assert_eq!(input.accepts("adc"), false);
    assert_eq!(input.accepts("dbc"), false);
    assert_eq!(input.accepts("cba"), false);
}

#[test]
fn simple_alternation() {
    let input = NFA::from("a|b").unwrap();
    assert_eq!(input.accepts("a"), true);
    assert_eq!(input.accepts("b"), true);
}

#[test]
fn alt_with_cat() {
    let input = NFA::from("ab|ac").unwrap();
    assert_eq!(input.accepts("ab"), true);
    assert_eq!(input.accepts("ac"), true);
    assert_eq!(input.accepts("bc"), false);
    assert_eq!(input.accepts("bb"), false);
    assert_eq!(input.accepts("cc"), false);
    assert_eq!(input.accepts("aa"), false);
    let input = NFA::from("a|bc").unwrap();
    assert_eq!(input.accepts("a"), true);
    assert_eq!(input.accepts("bc"), true);
    assert_eq!(input.accepts("bb"), false);
}

#[test]
fn multiple_alts() {
    let input = NFA::from("a|b|cd").unwrap();
    assert_eq!(input.accepts("a"), true);
    assert_eq!(input.accepts("b"), true);
    assert_eq!(input.accepts("cd"), true);
    assert_eq!(input.accepts("cc"), false);
}

#[test]
fn input_with_any() {
    let input = NFA::from("a...b").unwrap();
    assert_eq!(input.accepts("ab"), false);
    assert_eq!(input.accepts("a   b"), true);
    assert_eq!(input.accepts("axyzb"), true);
    assert_eq!(input.accepts("xyzb"), false);
    assert_eq!(input.accepts("axyz"), false);
}

#[test]
fn simple_closure() {
    let input = NFA::from("a*").unwrap();
    assert_eq!(input.accepts(""), true);
    assert_eq!(input.accepts("aaaaaaa"), true);
}

#[test]
fn more_closure() {
    let input = NFA::from("ab*|c*a").unwrap();
    assert_eq!(input.accepts("a"), true);
    assert_eq!(input.accepts("abbbbbbb"), true);
    assert_eq!(input.accepts("ccccccca"), true);
    assert_eq!(input.accepts("bbbbccccbbb"), false);
    assert_eq!(input.accepts("aa"), false);
}

#[test]
fn one_or_more() {
    let input = NFA::from("a+").unwrap();
    assert_eq!(input.accepts("a"), true);
    assert_eq!(input.accepts("aaaaaaa"), true);
    assert_eq!(input.accepts(""), false);
}

#[test]
fn cat_gen() {
    let nfa = NFA::from("abc").unwrap();
    assert_eq!(nfa.accepts(&nfa.gen()), true);
}

#[test]
fn alt_gen() {
    let nfa = NFA::from("a|b|c").unwrap();
    assert_eq!(nfa.accepts(&nfa.gen()), true);
}

#[test]
fn clo_gen() {
    let nfa = NFA::from("(ab)*").unwrap();
    assert_eq!(nfa.accepts(&nfa.gen()), true);
}

#[test]
fn plus_gen() {
    let nfa = NFA::from("ab+").unwrap();
    assert_eq!(nfa.accepts(&nfa.gen()), true);
}

#[test]
fn crazy_input() {
    let nfa_1 = NFA::from("omg( loll*| ha(ha)*)*").unwrap();
    assert_eq!(nfa_1.accepts(&nfa_1.gen()), true);
    let nfa_2 = NFA::from("(tarr*|heee*ll*ss*)").unwrap();
    assert_eq!(nfa_2.accepts(&nfa_2.gen()), true);
    let nfa_3 = NFA::from("pass: s.a.f.e+").unwrap();
    assert_eq!(nfa_3.accepts(&nfa_3.gen()), true);
}

#[test]
fn simple_add() {
    let ab = NFA::from("ab").unwrap();
    let cd = NFA::from("cd").unwrap();
    let abcd = ab + cd;
    assert!(abcd.accepts("abcd"));
    assert!(!abcd.accepts("abcde"));
}

#[test]
fn clo_add() {
    let a_star = NFA::from("a*").unwrap();
    let b_star = NFA::from("b*").unwrap();
    let ab = a_star + b_star;
    assert!(ab.accepts("a"));
    assert!(ab.accepts("b"));
    assert!(ab.accepts("ab"));
    assert!(ab.accepts("aabbb"));
}

#[test]
fn alt_add() {
    let ab_alt = NFA::from("(a|b)").unwrap();
    let cd_alt = NFA::from("(c|d)").unwrap();
    let abcd = ab_alt + cd_alt;
    assert!(abcd.accepts("ac"));
    assert!(abcd.accepts("bc"));
    assert!(!abcd.accepts("abcd"));
}

#[test]
fn plus_add() {
    let a_plus = NFA::from("a+").unwrap();
    let b_plus = NFA::from("b+").unwrap();
    let ab = a_plus + b_plus;
    assert!(ab.accepts("ab"));
    assert!(ab.accepts("aaaaabbbbbbbb"));
    assert!(!ab.accepts("b"));
    assert!(!ab.accepts("a"));
}

#[test]
fn crazy_add() {
    let lhs = NFA::from("a+(b|c)*").unwrap();
    let rhs = NFA::from("(..)+").unwrap();
    let nfa = lhs + rhs;
    assert!(nfa.accepts("aabcccdd"));
    assert!(nfa.accepts("add"));
    assert!(nfa.accepts("abc"));
    assert!(!nfa.accepts("bcdd"));
}

#[test]
fn single_literal_scenario() {
    let nfa = NFA::from("a").unwrap();
    assert!(nfa.accepts("a"));
    assert!(!nfa.accepts("b"));
    assert!(!nfa.accepts(""));
    assert!(!nfa.accepts("aa"));
}

#[test]
fn alternation_scenario() {
    let nfa = NFA::from("a|b").unwrap();
    assert!(nfa.accepts("a"));
    assert!(nfa.accepts("b"));
    assert!(!nfa.accepts("ab"));
}

#[test]
fn star_scenario() {
    let nfa = NFA::from("a*").unwrap();
    assert!(nfa.accepts(""));
    assert!(nfa.accepts("aaaa"));
    assert!(!nfa.accepts("b"));
}

#[test]
fn plus_scenario() {
    let nfa = NFA::from("a+").unwrap();
    assert!(!nfa.accepts(""));
    assert!(nfa.accepts("a"));
    assert!(nfa.accepts("aaa"));
}

#[test]
fn dot_scenario() {
    let nfa = NFA::from("a.c").unwrap();
    assert!(nfa.accepts("abc"));
    assert!(nfa.accepts("axc"));
    assert!(!nfa.accepts("ac"));
}

#[test]
fn compose_scenario() {
    let nfa = NFA::from("ab").unwrap().compose(&NFA::from("cd").unwrap());
    assert!(nfa.accepts("abcd"));
    assert!(!nfa.accepts("ab"));
    assert!(!nfa.accepts("abcde"));
}

#[test]
fn compose_leaves_operands_unchanged() {
    let ab = NFA::from("ab").unwrap();
    let cd = NFA::from("cd").unwrap();
    let abcd = ab.compose(&cd);
    assert!(abcd.accepts("abcd"));
    assert!(ab.accepts("ab"));
    assert!(!ab.accepts("abcd"));
    assert!(cd.accepts("cd"));
}

#[test]
fn compose_is_associative_on_samples() {
    let a = NFA::from("a|b").unwrap();
    let b = NFA::from("c*").unwrap();
    let c = NFA::from("(de)+").unwrap();
    let left = a.compose(&b).compose(&c);
    let right = a.compose(&b.compose(&c));
    for w in ["ade", "bccde", "adede", "ac", "de", "", "acccdedede", "abde", "adedf"] {
        assert_eq!(left.accepts(w), right.accepts(w), "{}", w);
    }
    assert!(left.accepts("bccde"));
    assert!(!left.accepts("ac"));
}

#[test]
fn parse_failures_are_reported() {
    assert_eq!(NFA::from("(a").err(), Some(ParseError::UnexpectedEndOfInput));
    assert_eq!(NFA::from("a)").err(), Some(ParseError::UnexpectedToken(Token::RParen)));
    assert!(NFA::from(")").is_err());
    assert_eq!(NFA::from("(a**)").err(), Some(ParseError::MismatchedParenthesis));
}

#[test]
fn empty_matching_loops_terminate() {
    let nfa = NFA::from("(a*)*").unwrap();
    assert!(nfa.accepts(""));
    assert!(nfa.accepts("aaa"));
    assert!(!nfa.accepts("aab"));
    let nfa = NFA::from("(a*|b*)+c").unwrap();
    assert!(nfa.accepts("c"));
    assert!(nfa.accepts("aabbac"));
    assert!(!nfa.accepts("aabba"));
    assert!(nfa.accepts(&nfa.gen()));
}

#[test]
fn round_trip_on_many_patterns() {
    let patterns = ["a", "a|b", "a*", "a+", "a.c", "(ab)*c", "(a|b)+(c|.)*d", "(a*)*", "x(y|z)+*"];
    for p in patterns {
        let nfa = NFA::from(p).unwrap();
        for _ in 0..20 {
            let g = nfa.gen();
            assert!(nfa.accepts(&g), "{} generated {}", p, g);
        }
    }
}

#[test]
fn generated_literals_are_kept() {
    let nfa = NFA::from("abc").unwrap();
    assert_eq!(nfa.gen(), "abc");
}

#[test]
fn generated_dots_are_alphanumeric() {
    let nfa = NFA::from("...").unwrap();
    for _ in 0..20 {
        let g = nfa.gen();
        assert_eq!(g.chars().count(), 3);
        assert!(g.chars().all(|c| c.is_ascii_alphanumeric()), "{}", g);
    }
}

#[test]
fn recur_from_start_state() {
    let nfa = NFA::from("ab").unwrap();
    assert!(nfa.recur(0, "ab"));
    assert!(!nfa.recur(0, "a"));
}

#[test]
fn whole_input_must_be_used() {
    let nfa = NFA::from("ab").unwrap();
    assert!(!nfa.accepts("abab"));
    assert!(!nfa.accepts("a"));
}

#[test]
fn compose_accepts_generated_concatenations() {
    let pairs = [("a+b", "(c|d)*"), ("(xy)*", ".z"), ("a|b", "c+")];
    for (l, r) in pairs {
        let left = NFA::from(l).unwrap();
        let right = NFA::from(r).unwrap();
        let both = left.compose(&right);
        for _ in 0..10 {
            let joined = format!("{}{}", left.gen(), right.gen());
            assert!(both.accepts(&joined), "{}", joined);
        }
    }
}

#[test]
fn recur_gen_extends_its_input() {
    let nfa = NFA::from("ab(c|d)").unwrap();
    let g = nfa.recur_gen(nfa.start(), String::from(">"));
    assert!(g.starts_with('>'));
    assert!(nfa.accepts(&g[1..]), "{}", g);
    let last = nfa.states().len() - 1;
    assert_eq!(nfa.recur_gen(last, String::from("xy")), "xy");
}

#[test]
fn recur_from_accepting_state_needs_empty_input() {
    let nfa = NFA::from("a").unwrap();
    let last = nfa.states().len() - 1;
    assert!(nfa.recur(last, ""));
    assert!(!nfa.recur(last, "a"));
}
