//! The language of a syntax tree: which stretches of a string it matches.
use vstd::prelude::*;
use crate::parser::AST;

verus! {

/// `k` is a place to cut `i..j`.
pub open spec fn cut(i: int, k: int, j: int) -> bool {
    i <= k <= j
}

/// `s[i..j]` is a string of the language of `ast`.
pub open spec fn matches_at(ast: AST, s: Seq<char>, i: int, j: int) -> bool
    decreases ast, (j - i) as nat, 0nat,
{
    match ast {
        AST::Char(c) => j == i + 1 && s[i] == c,
        AST::AnyChar => j == i + 1,
        AST::Catenation(l, r) => exists|k: int|
            #[trigger] cut(i, k, j) && matches_at(*l, s, i, k) && matches_at(*r, s, k, j),
        AST::Alternation(l, r) => matches_at(*l, s, i, j) || matches_at(*r, s, i, j),
        AST::Closure(x) => star(*x, s, i, j),
        AST::OneOrMore(x) => exists|k: int|
            #[trigger] cut(i, k, j) && matches_at(*x, s, i, k) && star(*x, s, k, j),
    }
}

/// `s[i..j]` is a catenation of zero or more strings of the language of `x`.
pub open spec fn star(x: AST, s: Seq<char>, i: int, j: int) -> bool
    decreases x, (j - i) as nat, 1nat,
{
    i == j || exists|k: int|
        #[trigger] cut(i + 1, k, j) && matches_at(x, s, i, k) && star(x, s, k, j)
}

/// The whole of `w` is a string of the language of `ast`.
pub open spec fn in_language(ast: AST, w: Seq<char>) -> bool {
    matches_at(ast, w, 0, w.len() as int)
}

} // verus!
