//! The pattern grammar as a relation between token sequences and syntax trees,
//! and the proof that the parser returns a tree exactly when the tokens derive it.
use vstd::prelude::*;
use crate::language::cut;
use crate::parser::{
    AST, Parsed, lemma_atom_consumes, lemma_cat_consumes, lemma_clo_consumes, lemma_expr_consumes,
    lemma_plus_consumes, parse_atom, parse_cat, parse_clo, parse_expr, parse_plus, parse_tokens,
    starts_atom,
};
use crate::tokenizer::Token;

verus! {

/// `Atom := '(' Expr ')' | '.' | Literal`: all of `t` derives `a`.
pub open spec fn derives_atom(t: Seq<Token>, a: AST) -> bool
    decreases t.len(), 0int,
{
    if t.len() == 1 {
        match t[0] {
            Token::Char(c) => a == AST::Char(c),
            Token::AnyChar => a == AST::AnyChar,
            _ => false,
        }
    } else if t.len() >= 2 {
        t[0] == Token::LParen && t[t.len() - 1] == Token::RParen && derives_expr(
            t.subrange(1, t.len() - 1),
            a,
        )
    } else {
        false
    }
}

/// `Plus := Atom ('+')?`
pub open spec fn derives_plus(t: Seq<Token>, a: AST) -> bool
    decreases t.len(), 1int,
{
    derives_atom(t, a) || match a {
        AST::OneOrMore(x) => t.len() >= 1 && t[t.len() - 1] == Token::KleenePlus && derives_atom(
            t.drop_last(),
            *x,
        ),
        _ => false,
    }
}

/// `Repeat := Plus ('*')?`
pub open spec fn derives_clo(t: Seq<Token>, a: AST) -> bool
    decreases t.len(), 2int,
{
    derives_plus(t, a) || match a {
        AST::Closure(x) => t.len() >= 1 && t[t.len() - 1] == Token::KleeneStar && derives_plus(
            t.drop_last(),
            *x,
        ),
        _ => false,
    }
}

/// `Cat := Repeat (Cat)?`
pub open spec fn derives_cat(t: Seq<Token>, a: AST) -> bool
    decreases t.len(), 3int,
{
    derives_clo(t, a) || match a {
        AST::Catenation(l, r) => exists|k: int|
            #[trigger] cut(1, k, t.len() - 1) && derives_clo(t.take(k), *l) && derives_cat(
                t.skip(k),
                *r,
            ),
        _ => false,
    }
}

/// `Expr := Cat ('|' Expr)?`
pub open spec fn derives_expr(t: Seq<Token>, a: AST) -> bool
    decreases t.len(), 4int,
{
    derives_cat(t, a) || match a {
        AST::Alternation(l, r) => exists|k: int|
            #[trigger] cut(1, k, t.len() - 1) && t[k] == Token::UnionBar && derives_cat(
                t.take(k),
                *l,
            ) && derives_expr(t.skip(k + 1), *r),
        _ => false,
    }
}

/// A token that can follow a `Plus` without extending it.
pub open spec fn ends_plus(rest: Seq<Token>) -> bool {
    !(rest.len() > 0 && rest[0] == Token::KleenePlus)
}

/// A token that can follow a `Repeat` without extending it.
pub open spec fn ends_clo(rest: Seq<Token>) -> bool {
    ends_plus(rest) && !(rest.len() > 0 && rest[0] == Token::KleeneStar)
}

/// A token that can follow a `Cat` without extending it.
pub open spec fn ends_cat(rest: Seq<Token>) -> bool {
    ends_clo(rest) && !(rest.len() > 0 && starts_atom(rest[0]))
}

/// A token that can follow an `Expr` without extending it.
pub open spec fn ends_expr(rest: Seq<Token>) -> bool {
    ends_cat(rest) && !(rest.len() > 0 && rest[0] == Token::UnionBar)
}

/// Every derivation begins with a token that starts an atom.
proof fn lemma_first_atom(t: Seq<Token>, a: AST)
    requires
        derives_atom(t, a),
    ensures
        t.len() >= 1 && starts_atom(t[0]),
{
}

proof fn lemma_first_plus(t: Seq<Token>, a: AST)
    requires
        derives_plus(t, a),
    ensures
        t.len() >= 1 && starts_atom(t[0]),
{
    if !derives_atom(t, a) {
        if let AST::OneOrMore(x) = a {
            lemma_first_atom(t.drop_last(), *x);
        }
    }
}

proof fn lemma_first_clo(t: Seq<Token>, a: AST)
    requires
        derives_clo(t, a),
    ensures
        t.len() >= 1 && starts_atom(t[0]),
{
    if derives_plus(t, a) {
        lemma_first_plus(t, a);
    } else if let AST::Closure(x) = a {
        lemma_first_plus(t.drop_last(), *x);
    }
}

proof fn lemma_first_cat(t: Seq<Token>, a: AST)
    requires
        derives_cat(t, a),
    ensures
        t.len() >= 1 && starts_atom(t[0]),
{
    if derives_clo(t, a) {
        lemma_first_clo(t, a);
    } else if let AST::Catenation(l, r) = a {
        let k = choose|k: int|
            #[trigger] cut(1, k, t.len() - 1) && derives_clo(t.take(k), *l) && derives_cat(
                t.skip(k),
                *r,
            );
        lemma_first_clo(t.take(k), *l);
    }
}

/// A derivation followed by a token that cannot extend it is parsed back.
proof fn lemma_atom_complete(t: Seq<Token>, a: AST, rest: Seq<Token>)
    requires
        derives_atom(t, a),
    ensures
        parse_atom(t + rest) == Ok::<(AST, Seq<Token>), crate::parser::ParseError>((a, rest)),
    decreases t.len(), 0int,
{
    let ts = t + rest;
    if t.len() == 1 {
        assert(ts.drop_first() == rest);
    } else {
        let inner = t.subrange(1, t.len() - 1);
        let after = seq![Token::RParen] + rest;
        assert(ts.drop_first() == inner + after);
        lemma_expr_complete(inner, a, after);
        assert(after.drop_first() == rest);
    }
}

proof fn lemma_plus_complete(t: Seq<Token>, a: AST, rest: Seq<Token>)
    requires
        derives_plus(t, a),
        ends_plus(rest),
    ensures
        parse_plus(t + rest) == Ok::<(AST, Seq<Token>), crate::parser::ParseError>((a, rest)),
    decreases t.len(), 1int,
{
    if derives_atom(t, a) {
        lemma_atom_complete(t, a, rest);
    } else if let AST::OneOrMore(x) = a {
        let after = seq![Token::KleenePlus] + rest;
        assert(t + rest == t.drop_last() + after);
        lemma_atom_complete(t.drop_last(), *x, after);
        assert(after.drop_first() == rest);
    }
}

proof fn lemma_clo_complete(t: Seq<Token>, a: AST, rest: Seq<Token>)
    requires
        derives_clo(t, a),
        ends_clo(rest),
    ensures
        parse_clo(t + rest) == Ok::<(AST, Seq<Token>), crate::parser::ParseError>((a, rest)),
    decreases t.len(), 2int,
{
    if derives_plus(t, a) {
        lemma_plus_complete(t, a, rest);
    } else if let AST::Closure(x) = a {
        let after = seq![Token::KleeneStar] + rest;
        assert(t + rest == t.drop_last() + after);
        lemma_plus_complete(t.drop_last(), *x, after);
        assert(after.drop_first() == rest);
    }
}

proof fn lemma_cat_complete(t: Seq<Token>, a: AST, rest: Seq<Token>)
    requires
        derives_cat(t, a),
        ends_cat(rest),
    ensures
        parse_cat(t + rest) == Ok::<(AST, Seq<Token>), crate::parser::ParseError>((a, rest)),
    decreases t.len(), 3int,
{
    if derives_clo(t, a) {
        lemma_clo_complete(t, a, rest);
    } else if let AST::Catenation(l, r) = a {
        let k = choose|k: int|
            #[trigger] cut(1, k, t.len() - 1) && derives_clo(t.take(k), *l) && derives_cat(
                t.skip(k),
                *r,
            );
        let after = t.skip(k) + rest;
        lemma_first_cat(t.skip(k), *r);
        assert(t + rest == t.take(k) + after);
        assert(after[0] == t.skip(k)[0]);
        lemma_clo_complete(t.take(k), *l, after);
        lemma_cat_complete(t.skip(k), *r, rest);
    }
}

proof fn lemma_expr_complete(t: Seq<Token>, a: AST, rest: Seq<Token>)
    requires
        derives_expr(t, a),
        ends_expr(rest),
    ensures
        parse_expr(t + rest) == Ok::<(AST, Seq<Token>), crate::parser::ParseError>((a, rest)),
    decreases t.len(), 4int,
{
    if derives_cat(t, a) {
        lemma_cat_complete(t, a, rest);
    } else if let AST::Alternation(l, r) = a {
        let k = choose|k: int|
            #[trigger] cut(1, k, t.len() - 1) && t[k] == Token::UnionBar && derives_cat(
                t.take(k),
                *l,
            ) && derives_expr(t.skip(k + 1), *r);
        let after = seq![Token::UnionBar] + (t.skip(k + 1) + rest);
        assert(t + rest == t.take(k) + after);
        lemma_cat_complete(t.take(k), *l, after);
        assert(after.drop_first() == t.skip(k + 1) + rest);
        lemma_expr_complete(t.skip(k + 1), *r, rest);
    }
}

/// A successful step took the first `k` tokens, for some `k`, and left the rest.
pub open spec fn took(ts: Seq<Token>, p: Parsed) -> int {
    ts.len() - p->Ok_0.1.len()
}

proof fn lemma_atom_sound(ts: Seq<Token>)
    requires
        parse_atom(ts) is Ok,
    ensures
        ({
            let (a, rest) = parse_atom(ts)->Ok_0;
            let k = took(ts, parse_atom(ts));
            &&& 0 < k <= ts.len()
            &&& rest == ts.skip(k)
            &&& derives_atom(ts.take(k), a)
        }),
    decreases ts.len(), 0int,
{
    if ts[0] == Token::LParen {
        let ts1 = ts.drop_first();
        lemma_expr_sound(ts1);
        let (a, r1) = parse_expr(ts1)->Ok_0;
        let k1 = took(ts1, parse_expr(ts1));
        let t = ts.take(k1 + 2);
        assert(t.subrange(1, t.len() - 1) == ts1.take(k1));
        assert(t[t.len() - 1] == r1[0]);
        assert(r1.drop_first() == ts.skip(k1 + 2));
    } else {
        assert(ts.take(1).len() == 1);
        assert(ts.take(1)[0] == ts[0]);
    }
}

proof fn lemma_plus_sound(ts: Seq<Token>)
    requires
        parse_plus(ts) is Ok,
    ensures
        ({
            let (a, rest) = parse_plus(ts)->Ok_0;
            let k = took(ts, parse_plus(ts));
            &&& 0 < k <= ts.len()
            &&& rest == ts.skip(k)
            &&& derives_plus(ts.take(k), a)
        }),
    decreases ts.len(), 1int,
{
    lemma_atom_sound(ts);
    let (x, r1) = parse_atom(ts)->Ok_0;
    let k1 = took(ts, parse_atom(ts));
    if r1.len() > 0 && r1[0] == Token::KleenePlus {
        let t = ts.take(k1 + 1);
        assert(t.drop_last() == ts.take(k1));
        assert(t[t.len() - 1] == r1[0]);
        assert(r1.drop_first() == ts.skip(k1 + 1));
    }
}

proof fn lemma_clo_sound(ts: Seq<Token>)
    requires
        parse_clo(ts) is Ok,
    ensures
        ({
            let (a, rest) = parse_clo(ts)->Ok_0;
            let k = took(ts, parse_clo(ts));
            &&& 0 < k <= ts.len()
            &&& rest == ts.skip(k)
            &&& derives_clo(ts.take(k), a)
        }),
    decreases ts.len(), 2int,
{
    lemma_plus_sound(ts);
    let (x, r1) = parse_plus(ts)->Ok_0;
    let k1 = took(ts, parse_plus(ts));
    if r1.len() > 0 && r1[0] == Token::KleeneStar {
        let t = ts.take(k1 + 1);
        assert(t.drop_last() == ts.take(k1));
        assert(t[t.len() - 1] == r1[0]);
        assert(r1.drop_first() == ts.skip(k1 + 1));
    }
}

proof fn lemma_cat_sound(ts: Seq<Token>)
    requires
        parse_cat(ts) is Ok,
    ensures
        ({
            let (a, rest) = parse_cat(ts)->Ok_0;
            let k = took(ts, parse_cat(ts));
            &&& 0 < k <= ts.len()
            &&& rest == ts.skip(k)
            &&& derives_cat(ts.take(k), a)
        }),
    decreases ts.len(), 3int,
{
    lemma_clo_sound(ts);
    let (l, r1) = parse_clo(ts)->Ok_0;
    let k1 = took(ts, parse_clo(ts));
    if r1.len() > 0 && starts_atom(r1[0]) && r1.len() < ts.len() {
        if parse_cat(r1) is Ok {
            lemma_cat_sound(r1);
            lemma_cat_consumes(r1);
            let (r, r2) = parse_cat(r1)->Ok_0;
            let k2 = took(r1, parse_cat(r1));
            let t = ts.take(k1 + k2);
            assert(t.take(k1) == ts.take(k1));
            assert(t.skip(k1) == r1.take(k2));
            assert(r2 == ts.skip(k1 + k2));
            assert(cut(1, k1, t.len() - 1));
        }
    }
}

proof fn lemma_expr_sound(ts: Seq<Token>)
    requires
        parse_expr(ts) is Ok,
    ensures
        ({
            let (a, rest) = parse_expr(ts)->Ok_0;
            let k = took(ts, parse_expr(ts));
            &&& 0 < k <= ts.len()
            &&& rest == ts.skip(k)
            &&& derives_expr(ts.take(k), a)
        }),
    decreases ts.len(), 4int,
{
    lemma_cat_sound(ts);
    let (l, r1) = parse_cat(ts)->Ok_0;
    let k1 = took(ts, parse_cat(ts));
    if r1.len() > 0 && r1[0] == Token::UnionBar && r1.len() <= ts.len() {
        let r1t = r1.drop_first();
        if parse_expr(r1t) is Ok {
            lemma_expr_sound(r1t);
            let (r, r2) = parse_expr(r1t)->Ok_0;
            let k2 = took(r1t, parse_expr(r1t));
            let t = ts.take(k1 + 1 + k2);
            assert(t.take(k1) == ts.take(k1));
            assert(t[k1] == r1[0]);
            assert(t.skip(k1 + 1) == r1t.take(k2));
            assert(r2 == ts.skip(k1 + 1 + k2));
            assert(cut(1, k1, t.len() - 1));
        }
    }
}

/// The parser returns `a` for the tokens `ts` exactly when `ts` derives `a` in the
/// grammar; so no token sequence derives two trees.
pub proof fn lemma_parse_derives(ts: Seq<Token>, a: AST)
    ensures
        parse_tokens(ts) == Ok::<AST, crate::parser::ParseError>(a) <==> derives_expr(ts, a),
{
    if parse_tokens(ts) == Ok::<AST, crate::parser::ParseError>(a) {
        lemma_expr_sound(ts);
        assert(ts.take(ts.len() as int) == ts);
    }
    if derives_expr(ts, a) {
        lemma_expr_complete(ts, a, Seq::empty());
        assert(ts + Seq::<Token>::empty() == ts);
    }
}

} // verus!
