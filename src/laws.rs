//! General facts about the library's functions, stated over their contracts.
use vstd::prelude::*;
use crate::language::{cut, in_language, matches_at, star};
use crate::nfa::NFA;
use crate::parser::{AST, parse_pattern};

verus! {

/// A string of the language of `ast`: every pattern matches something.
pub open spec fn witness(ast: AST) -> Seq<char>
    decreases ast,
{
    match ast {
        AST::Char(c) => seq![c],
        AST::AnyChar => seq!['a'],
        AST::Catenation(l, r) => witness(*l) + witness(*r),
        AST::Alternation(l, r) => witness(*l),
        AST::Closure(x) => Seq::empty(),
        AST::OneOrMore(x) => witness(*x),
    }
}

/// Wherever `witness(ast)` stands in `s`, `ast` matches it there.
pub proof fn lemma_witness_matches(ast: AST, s: Seq<char>, i: int)
    requires
        0 <= i,
        forall|p: int| 0 <= p < witness(ast).len() ==> s[i + p] == #[trigger] witness(ast)[p],
    ensures
        matches_at(ast, s, i, i + witness(ast).len()),
    decreases ast,
{
    let w = witness(ast);
    match ast {
        AST::Char(c) => {
            assert(witness(ast)[0] == c);
            assert(s[i + 0] == witness(ast)[0]);
            assert(matches_at(ast, s, i, i + w.len()));
        },
        AST::AnyChar => {
            assert(matches_at(ast, s, i, i + w.len()));
        },
        AST::Catenation(l, r) => {
            let wl = witness(*l);
            let wr = witness(*r);
            assert forall|p: int| 0 <= p < wl.len() implies s[i + p] == #[trigger] wl[p] by {
                assert(w[p] == wl[p]);
            }
            assert forall|p: int| 0 <= p < wr.len() implies s[(i + wl.len()) + p] == #[trigger] wr[p] by {
                assert(w[wl.len() + p] == wr[p]);
                assert(s[i + (wl.len() + p)] == w[wl.len() + p]);
            }
            lemma_witness_matches(*l, s, i);
            lemma_witness_matches(*r, s, i + wl.len());
            assert(cut(i, i + wl.len(), i + w.len()));
            assert(matches_at(ast, s, i, i + w.len()));
        },
        AST::Alternation(l, r) => {
            lemma_witness_matches(*l, s, i);
            assert(matches_at(ast, s, i, i + w.len()));
        },
        AST::Closure(x) => {
            assert(w.len() == 0);
            assert(star(*x, s, i, i));
            assert(matches_at(ast, s, i, i + w.len()));
        },
        AST::OneOrMore(x) => {
            lemma_witness_matches(*x, s, i);
            assert(star(*x, s, i + w.len(), i + w.len()));
            assert(cut(i, i + w.len(), i + w.len()));
            assert(matches_at(ast, s, i, i + w.len()));
        },
    }
}

/// The language of every syntax tree holds a string.
pub proof fn lemma_language_nonempty(ast: AST)
    ensures
        in_language(ast, witness(ast)),
{
    lemma_witness_matches(ast, witness(ast), 0);
}

/// Round trip: for every pattern that compiles, the automaton that `NFA::from`
/// returns accepts every string that `gen` returns for it.
pub proof fn lemma_round_trip(p: Seq<char>, nfa: NFA, generated: Seq<char>)
    requires
        parse_pattern(p) is Ok,
        forall|w: Seq<char>|
            #[trigger] nfa.accepts_spec(w) <==> in_language(parse_pattern(p)->Ok_0, w),
        nfa.accepts_some() ==> nfa.accepts_spec(generated),
    ensures
        nfa.accepts_spec(generated),
{
    let ast = parse_pattern(p)->Ok_0;
    lemma_language_nonempty(ast);
    assert(nfa.accepts_spec(witness(ast)));
}

} // verus!
