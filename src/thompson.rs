//! Thompson's construction: a syntax tree becomes a part of an arena, one state
//! per literal, dot, alternation and repetition, with its loose ends wired later.
use vstd::prelude::*;
use crate::automaton::{
    State, accepts_word, closed, edges_below, lemma_join_runs, lemma_split_run, points_to, reach,
    reaches, well_formed,
};
use crate::language::{cut, in_language, matches_at, star};
use crate::parser::AST;

verus! {

/// The target of an edge that is not wired yet.
pub const UNRESOLVED: usize = usize::MAX;

/// How many states the construction makes for `ast`.
pub open spec fn size(ast: AST) -> nat
    decreases ast,
{
    match ast {
        AST::Char(_) => 1,
        AST::AnyChar => 1,
        AST::Catenation(l, r) => size(*l) + size(*r),
        AST::Alternation(l, r) => size(*l) + size(*r) + 1,
        AST::Closure(x) => size(*x) + 1,
        AST::OneOrMore(x) => size(*x) + 1,
    }
}

/// The first state of the part made for `ast` from index `lo` on.
pub open spec fn entry_of(ast: AST, lo: int) -> int
    decreases ast,
{
    match ast {
        AST::Char(_) => lo,
        AST::AnyChar => lo,
        AST::Catenation(l, r) => entry_of(*l, lo),
        AST::Alternation(l, r) => lo + size(*l) + size(*r),
        AST::Closure(x) => lo + size(*x),
        AST::OneOrMore(x) => entry_of(*x, lo),
    }
}

/// The states of that part whose outgoing edge leaves it.
pub open spec fn exits_of(ast: AST, lo: int) -> Seq<usize>
    decreases ast,
{
    match ast {
        AST::Char(_) => seq![lo as usize],
        AST::AnyChar => seq![lo as usize],
        AST::Catenation(l, r) => exits_of(*r, lo + size(*l)),
        AST::Alternation(l, r) => exits_of(*l, lo) + exits_of(*r, lo + size(*l)),
        AST::Closure(x) => seq![(lo + size(*x)) as usize],
        AST::OneOrMore(x) => seq![(lo + size(*x)) as usize],
    }
}

/// The states `lo..lo + size(ast)` of `a` are the part made for `ast`, with each
/// loose end wired to `t`.
pub open spec fn frag_ok(a: Seq<State>, ast: AST, lo: int, t: usize) -> bool
    decreases ast,
{
    match ast {
        AST::Char(c) => a[lo] == State::MatchLiteral(c, t),
        AST::AnyChar => a[lo] == State::MatchAny(t),
        AST::Catenation(l, r) => {
            &&& frag_ok(a, *l, lo, entry_of(*r, lo + size(*l)) as usize)
            &&& frag_ok(a, *r, lo + size(*l), t)
        },
        AST::Alternation(l, r) => {
            &&& frag_ok(a, *l, lo, t)
            &&& frag_ok(a, *r, lo + size(*l), t)
            &&& a[lo + size(*l) + size(*r)] == State::Split(
                entry_of(*l, lo) as usize,
                entry_of(*r, lo + size(*l)) as usize,
            )
        },
        AST::Closure(x) => {
            &&& frag_ok(a, *x, lo, (lo + size(*x)) as usize)
            &&& a[lo + size(*x)] == State::Split(entry_of(*x, lo) as usize, t)
        },
        AST::OneOrMore(x) => {
            &&& frag_ok(a, *x, lo, (lo + size(*x)) as usize)
            &&& a[lo + size(*x)] == State::Split(entry_of(*x, lo) as usize, t)
        },
    }
}

/// `st` with its loose edge wired to `t`; for a split, the second edge.
pub open spec fn patch(st: State, t: usize) -> State {
    match st {
        State::Entry(_) => State::Entry(t),
        State::MatchLiteral(c, _) => State::MatchLiteral(c, t),
        State::MatchAny(_) => State::MatchAny(t),
        State::Split(x, _) => State::Split(x, t),
        State::Accept => State::Accept,
    }
}

/// `a` is the automaton built for `ast`: an entry, the part for `ast` from index
/// one on, and an accepting state after it.
pub open spec fn thompson(a: Seq<State>, ast: AST) -> bool {
    let acc = size(ast) + 1int;
    &&& a.len() == acc + 1
    &&& a[0] == State::Entry(entry_of(ast, 1) as usize)
    &&& frag_ok(a, ast, 1, acc as usize)
    &&& a[acc] is Accept
}

/// Where the part for `ast` lies, and that its edges stay inside or go to `t`.
pub proof fn lemma_shape(a: Seq<State>, ast: AST, lo: int, t: usize)
    requires
        frag_ok(a, ast, lo, t),
        0 <= lo,
        lo + size(ast) <= a.len() <= usize::MAX,
    ensures
        size(ast) >= 1,
        lo <= entry_of(ast, lo) < lo + size(ast),
        forall|k: int|
            0 <= k < exits_of(ast, lo).len() ==> lo <= #[trigger] exits_of(ast, lo)[k] < lo
                + size(ast),
        closed(a, lo, lo + size(ast), t as int),
        forall|q: int| lo <= q < lo + size(ast) ==> !(#[trigger] a[q] is Accept),
    decreases ast,
{
    let hi = lo + size(ast);
    match ast {
        AST::Char(c) => {
            assert(exits_of(ast, lo)[0] == lo as usize);
        },
        AST::AnyChar => {
            assert(exits_of(ast, lo)[0] == lo as usize);
        },
        AST::Catenation(l, r) => {
            let mid = lo + size(*l);
            lemma_shape(a, *l, lo, entry_of(*r, mid) as usize);
            lemma_shape(a, *r, mid, t);
            assert forall|k: int|
                0 <= k < exits_of(ast, lo).len() implies lo <= #[trigger] exits_of(ast, lo)[k]
                < hi by {
                assert(exits_of(ast, lo)[k] == exits_of(*r, mid)[k]);
            }
            assert forall|q: int, x: int| lo <= q < hi && #[trigger] points_to(a[q], x) implies (
            lo <= x < hi || x == t) by {
                if q < mid {
                    assert(lo <= x < mid || x == entry_of(*r, mid) as int);
                } else {
                    assert(mid <= x < hi || x == t);
                }
            }
        },
        AST::Alternation(l, r) => {
            let mid = lo + size(*l);
            lemma_shape(a, *l, lo, t);
            lemma_shape(a, *r, mid, t);
            assert forall|k: int|
                0 <= k < exits_of(ast, lo).len() implies lo <= #[trigger] exits_of(ast, lo)[k]
                < hi by {
                if k < exits_of(*l, lo).len() {
                    assert(exits_of(ast, lo)[k] == exits_of(*l, lo)[k]);
                } else {
                    assert(exits_of(ast, lo)[k] == exits_of(*r, mid)[k - exits_of(*l, lo).len()]);
                }
            }
            assert forall|q: int, x: int| lo <= q < hi && #[trigger] points_to(a[q], x) implies (
            lo <= x < hi || x == t) by {
                if q < mid {
                    assert(lo <= x < mid || x == t);
                } else if q < hi - 1 {
                    assert(mid <= x < hi - 1 || x == t);
                }
            }
        },
        AST::Closure(x) => {
            lemma_shape(a, *x, lo, (lo + size(*x)) as usize);
            assert(exits_of(ast, lo)[0] == (lo + size(*x)) as usize);
        },
        AST::OneOrMore(x) => {
            lemma_shape(a, *x, lo, (lo + size(*x)) as usize);
            assert(exits_of(ast, lo)[0] == (lo + size(*x)) as usize);
        },
    }
}

/// The part for `ast` depends on its own states only.
pub proof fn lemma_frame(a: Seq<State>, b: Seq<State>, ast: AST, lo: int, t: usize)
    requires
        frag_ok(a, ast, lo, t),
        0 <= lo,
        lo + size(ast) <= a.len() <= usize::MAX,
        lo + size(ast) <= b.len(),
        forall|q: int| lo <= q < lo + size(ast) ==> b[q] == a[q],
    ensures
        frag_ok(b, ast, lo, t),
    decreases ast,
{
    match ast {
        AST::Char(c) => {},
        AST::AnyChar => {},
        AST::Catenation(l, r) => {
            lemma_frame(a, b, *l, lo, entry_of(*r, lo + size(*l)) as usize);
            lemma_frame(a, b, *r, lo + size(*l), t);
        },
        AST::Alternation(l, r) => {
            lemma_frame(a, b, *l, lo, t);
            lemma_frame(a, b, *r, lo + size(*l), t);
        },
        AST::Closure(x) => {
            lemma_frame(a, b, *x, lo, (lo + size(*x)) as usize);
        },
        AST::OneOrMore(x) => {
            lemma_frame(a, b, *x, lo, (lo + size(*x)) as usize);
        },
    }
}

/// Wiring every loose end of a part to `t` gives the part wired to `t`.
pub proof fn lemma_resolve(a: Seq<State>, b: Seq<State>, ast: AST, lo: int, t: usize)
    requires
        frag_ok(a, ast, lo, UNRESOLVED),
        0 <= lo,
        lo + size(ast) <= a.len() <= usize::MAX,
        b.len() == a.len(),
        forall|q: int|
            lo <= q < lo + size(ast) ==> #[trigger] b[q] == (if exits_of(ast, lo).contains(
                q as usize,
            ) {
                patch(a[q], t)
            } else {
                a[q]
            }),
    ensures
        frag_ok(b, ast, lo, t),
    decreases ast,
{
    lemma_shape(a, ast, lo, UNRESOLVED);
    match ast {
        AST::Char(c) => {
            assert(exits_of(ast, lo)[0] == lo as usize);
        },
        AST::AnyChar => {
            assert(exits_of(ast, lo)[0] == lo as usize);
        },
        AST::Catenation(l, r) => {
            let mid = lo + size(*l);
            lemma_shape(a, *r, mid, UNRESOLVED);
            assert forall|q: int| lo <= q < mid implies b[q] == a[q] by {
                if exits_of(*r, mid).contains(q as usize) {
                    let k = choose|k: int|
                        0 <= k < exits_of(*r, mid).len() && exits_of(*r, mid)[k] == q as usize;
                    assert(mid <= exits_of(*r, mid)[k]);
                }
            }
            lemma_frame(a, b, *l, lo, entry_of(*r, mid) as usize);
            lemma_resolve(a, b, *r, mid, t);
        },
        AST::Alternation(l, r) => {
            let mid = lo + size(*l);
            let el = exits_of(*l, lo);
            let er = exits_of(*r, mid);
            lemma_shape(a, *l, lo, UNRESOLVED);
            lemma_shape(a, *r, mid, UNRESOLVED);
            assert forall|q: int| lo <= q < mid implies #[trigger] b[q] == (if el.contains(
                q as usize,
            ) {
                patch(a[q], t)
            } else {
                a[q]
            }) by {
                if er.contains(q as usize) {
                    let k = choose|k: int| 0 <= k < er.len() && er[k] == q as usize;
                    assert(mid <= er[k]);
                }
                if el.contains(q as usize) {
                    let k = choose|k: int| 0 <= k < el.len() && el[k] == q as usize;
                    assert((el + er)[k] == q as usize);
                }
            }
            assert forall|q: int| mid <= q < mid + size(*r) implies #[trigger] b[q] == (
            if er.contains(q as usize) {
                patch(a[q], t)
            } else {
                a[q]
            }) by {
                if el.contains(q as usize) {
                    let k = choose|k: int| 0 <= k < el.len() && el[k] == q as usize;
                    assert(el[k] < mid);
                }
                if er.contains(q as usize) {
                    let k = choose|k: int| 0 <= k < er.len() && er[k] == q as usize;
                    assert((el + er)[el.len() + k] == q as usize);
                }
            }
            let s = lo + size(*l) + size(*r);
            assert(!(el + er).contains(s as usize)) by {
                if (el + er).contains(s as usize) {
                    let k = choose|k: int|
                        0 <= k < (el + er).len() && (el + er)[k] == s as usize;
                    assert(exits_of(ast, lo)[k] < s);
                }
            }
            lemma_resolve(a, b, *l, lo, t);
            lemma_resolve(a, b, *r, mid, t);
        },
        AST::Closure(x) => {
            let s = lo + size(*x);
            lemma_frame(a, b, *x, lo, s as usize);
            assert(exits_of(ast, lo)[0] == s as usize);
        },
        AST::OneOrMore(x) => {
            let s = lo + size(*x);
            lemma_frame(a, b, *x, lo, s as usize);
            assert(exits_of(ast, lo)[0] == s as usize);
        },
    }
}

/// Around a repetition's split `lo + size(x)`, whose first edge enters the part
/// for `x` and whose second goes to `t`: a run from the split to `t` reads a
/// catenation of strings of `x`.
proof fn lemma_loop_sound(a: Seq<State>, s: Seq<char>, x: AST, lo: int, t: usize, i: int, j: int, n: nat)
    requires
        frag_ok(a, x, lo, (lo + size(x)) as usize),
        0 <= lo,
        lo + size(x) < a.len() <= usize::MAX,
        a[lo + size(x)] == State::Split(entry_of(x, lo) as usize, t),
        !(lo <= t <= lo + size(x)),
        forall|i: int, k: int|
            #![trigger reaches(a, s, entry_of(x, lo), i, lo + size(x), k)]
            #![trigger matches_at(x, s, i, k)]
            reaches(a, s, entry_of(x, lo), i, lo + size(x), k) <==> matches_at(x, s, i, k),
        reach(a, s, lo + size(x), i, t as int, j, n),
    ensures
        star(x, s, i, j),
    decreases n,
{
    let sp = lo + size(x);
    let ex = entry_of(x, lo);
    lemma_shape(a, x, lo, sp as usize);
    assert(sp as usize as int == sp && ex as usize as int == ex);
    if reach(a, s, ex, i, t as int, j, (n - 1) as nat) {
        lemma_split_run(a, s, lo, sp, sp, ex, i, t as int, j, (n - 1) as nat);
        let (k, n1, n2) = choose|k: int, n1: nat, n2: nat|
            #![trigger reach(a, s, ex, i, sp, k, n1), reach(a, s, sp, k, t as int, j, n2)]
            n1 + n2 <= n - 1 && n1 > 0 && i <= k <= j && reach(a, s, ex, i, sp, k, n1) && reach(
                a,
                s,
                sp,
                k,
                t as int,
                j,
                n2,
            );
        assert(reaches(a, s, ex, i, sp, k));
        assert(matches_at(x, s, i, k));
        lemma_loop_sound(a, s, x, lo, t, k, j, n2);
        if k == i {
            assert(star(x, s, k, j));
        } else {
            assert(cut(i + 1, k, j));
            assert(star(x, s, i, j));
        }
    } else {
        assert(reach(a, s, t as int, i, t as int, j, (n - 1) as nat));
    }
}

/// The converse: a catenation of strings of `x` is read by a run from the split to `t`.
proof fn lemma_loop_complete(a: Seq<State>, s: Seq<char>, x: AST, lo: int, t: usize, i: int, j: int)
    requires
        frag_ok(a, x, lo, (lo + size(x)) as usize),
        0 <= lo,
        lo + size(x) < a.len() <= usize::MAX,
        a[lo + size(x)] == State::Split(entry_of(x, lo) as usize, t),
        !(lo <= t <= lo + size(x)),
        forall|i: int, k: int|
            #![trigger reaches(a, s, entry_of(x, lo), i, lo + size(x), k)]
            #![trigger matches_at(x, s, i, k)]
            reaches(a, s, entry_of(x, lo), i, lo + size(x), k) <==> matches_at(x, s, i, k),
        star(x, s, i, j),
    ensures
        reaches(a, s, lo + size(x), i, t as int, j),
    decreases (j - i) as nat,
{
    let sp = lo + size(x);
    let ex = entry_of(x, lo);
    lemma_shape(a, x, lo, sp as usize);
    assert(sp as usize as int == sp && ex as usize as int == ex);
    if i == j {
        assert(reach(a, s, t as int, i, t as int, j, 0));
        assert(reach(a, s, sp, i, t as int, j, 1));
    } else {
        let k = choose|k: int|
            #[trigger] cut(i + 1, k, j) && matches_at(x, s, i, k) && star(x, s, k, j);
        assert(reaches(a, s, ex, i, sp, k));
        let n1 = choose|n1: nat| reach(a, s, ex, i, sp, k, n1);
        lemma_loop_complete(a, s, x, lo, t, k, j);
        let n2 = choose|n2: nat| reach(a, s, sp, k, t as int, j, n2);
        lemma_join_runs(a, s, lo, sp, sp, ex, i, k, t as int, j, n1, n2);
        assert(reach(a, s, sp, i, t as int, j, n1 + n2 + 1));
    }
}

/// The part made for `ast`, wired to `t`, reads from its entry to `t` exactly the
/// strings of the language of `ast`.
pub proof fn lemma_frag_lang(a: Seq<State>, s: Seq<char>, ast: AST, lo: int, t: usize)
    requires
        frag_ok(a, ast, lo, t),
        0 <= lo,
        lo + size(ast) <= a.len() <= usize::MAX,
        !(lo <= t < lo + size(ast)),
    ensures
        forall|i: int, j: int|
            #![trigger reaches(a, s, entry_of(ast, lo), i, t as int, j)]
            #![trigger matches_at(ast, s, i, j)]
            reaches(a, s, entry_of(ast, lo), i, t as int, j) <==> matches_at(ast, s, i, j),
    decreases ast,
{
    lemma_shape(a, ast, lo, t);
    let entry = entry_of(ast, lo);
    match ast {
        AST::Char(c) => {
            assert forall|i: int, j: int|
                reaches(a, s, entry, i, t as int, j) <==> matches_at(ast, s, i, j) by {
                if reaches(a, s, entry, i, t as int, j) {
                    let n = choose|n: nat| reach(a, s, entry, i, t as int, j, n);
                    assert(reach(a, s, t as int, i + 1, t as int, j, (n - 1) as nat));
                }
                if matches_at(ast, s, i, j) {
                    assert(reach(a, s, t as int, i + 1, t as int, j, 0));
                    assert(reach(a, s, entry, i, t as int, j, 1));
                }
            }
        },
        AST::AnyChar => {
            assert forall|i: int, j: int|
                reaches(a, s, entry, i, t as int, j) <==> matches_at(ast, s, i, j) by {
                if reaches(a, s, entry, i, t as int, j) {
                    let n = choose|n: nat| reach(a, s, entry, i, t as int, j, n);
                    assert(reach(a, s, t as int, i + 1, t as int, j, (n - 1) as nat));
                }
                if matches_at(ast, s, i, j) {
                    assert(reach(a, s, t as int, i + 1, t as int, j, 0));
                    assert(reach(a, s, entry, i, t as int, j, 1));
                }
            }
        },
        AST::Catenation(l, r) => {
            let mid = lo + size(*l);
            let er = entry_of(*r, mid);
            let el = entry_of(*l, lo);
            lemma_shape(a, *l, lo, er as usize);
            lemma_shape(a, *r, mid, t);
            assert(er as usize as int == er);
            lemma_frag_lang(a, s, *l, lo, er as usize);
            lemma_frag_lang(a, s, *r, mid, t);
            assert forall|i: int, j: int|
                reaches(a, s, entry, i, t as int, j) <==> matches_at(ast, s, i, j) by {
                if reaches(a, s, entry, i, t as int, j) {
                    let n = choose|n: nat| reach(a, s, el, i, t as int, j, n);
                    lemma_split_run(a, s, lo, mid, er, el, i, t as int, j, n);
                    let (k, n1, n2) = choose|k: int, n1: nat, n2: nat|
                        #![trigger reach(a, s, el, i, er, k, n1), reach(a, s, er, k, t as int, j, n2)]
                        n1 + n2 <= n && n1 > 0 && i <= k <= j && reach(a, s, el, i, er, k, n1)
                            && reach(a, s, er, k, t as int, j, n2);
                    assert(reaches(a, s, el, i, er, k));
                    assert(reaches(a, s, er, k, t as int, j));
                    assert(matches_at(*l, s, i, k) && matches_at(*r, s, k, j));
                    assert(cut(i, k, j));
                }
                if matches_at(ast, s, i, j) {
                    let k = choose|k: int|
                        #[trigger] cut(i, k, j) && matches_at(*l, s, i, k) && matches_at(*r, s, k, j);
                    assert(reaches(a, s, el, i, er, k));
                    assert(reaches(a, s, er, k, t as int, j));
                    let n1 = choose|n1: nat| reach(a, s, el, i, er, k, n1);
                    let n2 = choose|n2: nat| reach(a, s, er, k, t as int, j, n2);
                    lemma_join_runs(a, s, lo, mid, er, el, i, k, t as int, j, n1, n2);
                }
            }
        },
        AST::Alternation(l, r) => {
            let mid = lo + size(*l);
            let er = entry_of(*r, mid);
            let el = entry_of(*l, lo);
            lemma_shape(a, *l, lo, t);
            lemma_shape(a, *r, mid, t);
            assert(er as usize as int == er && el as usize as int == el);
            lemma_frag_lang(a, s, *l, lo, t);
            lemma_frag_lang(a, s, *r, mid, t);
            assert forall|i: int, j: int|
                reaches(a, s, entry, i, t as int, j) <==> matches_at(ast, s, i, j) by {
                if reaches(a, s, entry, i, t as int, j) {
                    let n = choose|n: nat| reach(a, s, entry, i, t as int, j, n);
                    if reach(a, s, el, i, t as int, j, (n - 1) as nat) {
                        assert(reaches(a, s, el, i, t as int, j));
                    } else {
                        assert(reach(a, s, er, i, t as int, j, (n - 1) as nat));
                        assert(reaches(a, s, er, i, t as int, j));
                    }
                }
                if matches_at(ast, s, i, j) {
                    if matches_at(*l, s, i, j) {
                        assert(reaches(a, s, el, i, t as int, j));
                        let n = choose|n: nat| reach(a, s, el, i, t as int, j, n);
                        assert(reach(a, s, entry, i, t as int, j, n + 1));
                    } else {
                        assert(reaches(a, s, er, i, t as int, j));
                        let n = choose|n: nat| reach(a, s, er, i, t as int, j, n);
                        assert(reach(a, s, entry, i, t as int, j, n + 1));
                    }
                }
            }
        },
        AST::Closure(x) => {
            let sp = lo + size(*x);
            lemma_shape(a, *x, lo, sp as usize);
            assert(sp as usize as int == sp);
            lemma_frag_lang(a, s, *x, lo, sp as usize);
            assert forall|i: int, j: int|
                reaches(a, s, entry, i, t as int, j) <==> matches_at(ast, s, i, j) by {
                if reaches(a, s, entry, i, t as int, j) {
                    let n = choose|n: nat| reach(a, s, entry, i, t as int, j, n);
                    lemma_loop_sound(a, s, *x, lo, t, i, j, n);
                }
                if matches_at(ast, s, i, j) {
                    lemma_loop_complete(a, s, *x, lo, t, i, j);
                }
            }
        },
        AST::OneOrMore(x) => {
            let sp = lo + size(*x);
            let ex = entry_of(*x, lo);
            lemma_shape(a, *x, lo, sp as usize);
            assert(sp as usize as int == sp && ex as usize as int == ex);
            lemma_frag_lang(a, s, *x, lo, sp as usize);
            assert forall|i: int, j: int|
                reaches(a, s, entry, i, t as int, j) <==> matches_at(ast, s, i, j) by {
                if reaches(a, s, entry, i, t as int, j) {
                    let n = choose|n: nat| reach(a, s, ex, i, t as int, j, n);
                    lemma_split_run(a, s, lo, sp, sp, ex, i, t as int, j, n);
                    let (k, n1, n2) = choose|k: int, n1: nat, n2: nat|
                        #![trigger reach(a, s, ex, i, sp, k, n1), reach(a, s, sp, k, t as int, j, n2)]
                        n1 + n2 <= n && n1 > 0 && i <= k <= j && reach(a, s, ex, i, sp, k, n1)
                            && reach(a, s, sp, k, t as int, j, n2);
                    assert(reaches(a, s, ex, i, sp, k));
                    lemma_loop_sound(a, s, *x, lo, t, k, j, n2);
                    assert(matches_at(*x, s, i, k) && star(*x, s, k, j));
                    assert(cut(i, k, j));
                }
                if matches_at(ast, s, i, j) {
                    let k = choose|k: int|
                        #[trigger] cut(i, k, j) && matches_at(*x, s, i, k) && star(*x, s, k, j);
                    assert(reaches(a, s, ex, i, sp, k));
                    lemma_loop_complete(a, s, *x, lo, t, k, j);
                    let n1 = choose|n1: nat| reach(a, s, ex, i, sp, k, n1);
                    let n2 = choose|n2: nat| reach(a, s, sp, k, t as int, j, n2);
                    lemma_join_runs(a, s, lo, sp, sp, ex, i, k, t as int, j, n1, n2);
                }
            }
        },
    }
}

/// The automaton built for `ast` is finished, and accepts exactly the language of `ast`.
pub proof fn lemma_thompson(a: Seq<State>, ast: AST)
    requires
        thompson(a, ast),
        a.len() <= usize::MAX,
    ensures
        well_formed(a, 0),
        forall|w: Seq<char>| #[trigger] accepts_word(a, 0, w) <==> in_language(ast, w),
{
    let acc = size(ast) + 1int;
    let e = entry_of(ast, 1);
    lemma_shape(a, ast, 1, acc as usize);
    assert forall|q: int| 0 <= q < a.len() implies edges_below(#[trigger] a[q], a.len() as int) by {
        if 1 <= q < acc {
            match a[q] {
                State::Entry(y) => assert(points_to(a[q], y as int)),
                State::MatchLiteral(_, y) => assert(points_to(a[q], y as int)),
                State::MatchAny(y) => assert(points_to(a[q], y as int)),
                State::Split(y, z) => {
                    assert(points_to(a[q], y as int));
                    assert(points_to(a[q], z as int));
                },
                State::Accept => {},
            }
        }
    }
    lemma_frag_lang(a, Seq::empty(), ast, 1, acc as usize);
    assert forall|w: Seq<char>| #[trigger] accepts_word(a, 0, w) <==> in_language(ast, w) by {
        lemma_frag_lang(a, w, ast, 1, acc as usize);
        if accepts_word(a, 0, w) {
            let n = choose|n: nat| reach(a, w, 0, 0, acc, w.len() as int, n);
            assert(reach(a, w, e, 0, acc, w.len() as int, (n - 1) as nat));
            assert(reaches(a, w, e, 0, acc, w.len() as int));
        }
        if in_language(ast, w) {
            assert(reaches(a, w, e, 0, acc, w.len() as int));
            let n = choose|n: nat| reach(a, w, e, 0, acc, w.len() as int, n);
            assert(reach(a, w, 0, 0, acc, w.len() as int, n + 1));
        }
    }
}

/// Compiles `ast` into an arena: an entry state, the part for `ast`, and an
/// accepting state, every edge wired.
pub fn build(ast: &AST) -> (r: Vec<State>)
    ensures
        thompson(r@, *ast),
{
    let mut nfa = Builder::new();
    let start = nfa.add_state(State::Entry(UNRESOLVED));
    let body = nfa.gen_fragment(ast);
    let ghost a1 = nfa.states@;
    proof {
        assert(nfa.states.len() <= usize::MAX);
        lemma_shape(a1, *ast, 1, UNRESOLVED);
    }
    nfa.join(start, body.start);
    let end = nfa.add_state(State::Accept);
    let ghost a2 = nfa.states@;
    proof {
        assert(nfa.states.len() <= usize::MAX);
        lemma_frame(a1, a2, *ast, 1, UNRESOLVED);
    }
    nfa.join_fragment(&body, end);
    proof {
        let a3 = nfa.states@;
        lemma_resolve(a2, a3, *ast, 1, end);
        assert forall|q: int| 0 <= q < a2.len() && !(1 <= q < end) implies #[trigger] a3[q] == a2[q] by {
            if body.ends@.contains(q as usize) {
                let k = choose|k: int| 0 <= k < body.ends@.len() && body.ends@[k] == q as usize;
                assert(1 <= exits_of(*ast, 1)[k] < end);
            }
        }
        assert(a3[0] == a2[0]);
        assert(a3[end as int] == a2[end as int]);
    }
    nfa.states
}

/// A part under construction: its first state and the states whose edge is loose.
struct Fragment {
    start: usize,
    ends: Vec<usize>,
}

/// An arena that grows while a syntax tree is compiled.
struct Builder {
    states: Vec<State>,
}

impl Builder {
    fn new() -> (r: Builder)
        ensures
            r.states@.len() == 0,
    {
        Builder { states: Vec::new() }
    }

    /// Appends a state and returns its index.
    fn add_state(&mut self, state: State) -> (idx: usize)
        ensures
            idx == old(self).states@.len(),
            final(self).states@ == old(self).states@.push(state),
    {
        let idx = self.states.len();
        self.states.push(state);
        idx
    }

    /// Wires the loose edge of state `from` to `to`.
    fn join(&mut self, from: usize, to: usize)
        requires
            from < old(self).states@.len(),
        ensures
            final(self).states@ == old(self).states@.update(
                from as int,
                patch(old(self).states@[from as int], to),
            ),
    {
        let st = match self.states[from] {
            State::Entry(_) => State::Entry(to),
            State::MatchLiteral(c, _) => State::MatchLiteral(c, to),
            State::MatchAny(_) => State::MatchAny(to),
            State::Split(x, _) => State::Split(x, to),
            State::Accept => State::Accept,
        };
        self.states.set(from, st);
    }

    /// Wires every loose end of `frag` to `to`.
    fn join_fragment(&mut self, frag: &Fragment, to: usize)
        requires
            forall|k: int|
                0 <= k < frag.ends@.len() ==> #[trigger] frag.ends@[k] < old(self).states@.len(),
        ensures
            final(self).states@.len() == old(self).states@.len(),
            forall|q: int|
                0 <= q < old(self).states@.len() ==> #[trigger] final(self).states@[q] == (
                if frag.ends@.contains(q as usize) {
                    patch(old(self).states@[q], to)
                } else {
                    old(self).states@[q]
                }),
    {
        let ghost a = self.states@;
        proof {
            assert(self.states.len() <= usize::MAX);
        }
        let n = frag.ends.len();
        for k in 0..n
            invariant
                n == frag.ends@.len(),
                a == old(self).states@,
                a.len() <= usize::MAX,
                forall|k: int| 0 <= k < frag.ends@.len() ==> #[trigger] frag.ends@[k] < a.len(),
                self.states@.len() == a.len(),
                forall|q: int|
                    0 <= q < a.len() ==> #[trigger] self.states@[q] == (if exists|i: int|
                        0 <= i < k && #[trigger] frag.ends@[i] == q {
                        patch(a[q], to)
                    } else {
                        a[q]
                    }),
        {
            let end = frag.ends[k];
            self.join(end, to);
            assert forall|q: int| 0 <= q < a.len() implies #[trigger] self.states@[q] == (
            if exists|i: int| 0 <= i < k + 1 && #[trigger] frag.ends@[i] == q {
                patch(a[q], to)
            } else {
                a[q]
            }) by {
                if exists|i: int| 0 <= i < k + 1 && #[trigger] frag.ends@[i] == q {
                    let i = choose|i: int| 0 <= i < k + 1 && #[trigger] frag.ends@[i] == q;
                    if i < k {
                    } else {
                        assert(q == end);
                    }
                } else {
                    assert(frag.ends@[k as int] == end);
                }
            }
        }
        assert forall|q: int| 0 <= q < a.len() implies #[trigger] self.states@[q] == (
        if frag.ends@.contains(q as usize) {
            patch(a[q], to)
        } else {
            a[q]
        }) by {
            if frag.ends@.contains(q as usize) {
                let i = choose|i: int| 0 <= i < n && frag.ends@[i] == q as usize;
                assert(frag.ends@[i] == q);
            }
            if exists|i: int| 0 <= i < n && #[trigger] frag.ends@[i] == q {
                let i = choose|i: int| 0 <= i < n && #[trigger] frag.ends@[i] == q;
                assert(frag.ends@[i] == q as usize);
            }
        }
    }

    /// Appends the part for `ast`, its loose ends not yet wired.
    fn gen_fragment(&mut self, ast: &AST) -> (frag: Fragment)
        ensures
            final(self).states@.len() == old(self).states@.len() + size(*ast),
            forall|q: int|
                0 <= q < old(self).states@.len() ==> #[trigger] final(self).states@[q] == old(
                    self,
                ).states@[q],
            frag_ok(final(self).states@, *ast, old(self).states@.len() as int, UNRESOLVED),
            frag.start == entry_of(*ast, old(self).states@.len() as int),
            frag.ends@ == exits_of(*ast, old(self).states@.len() as int),
        decreases ast,
    {
        let ghost lo = self.states@.len() as int;
        proof {
            assert(self.states.len() <= usize::MAX);
        }
        match ast {
            AST::AnyChar => {
                let state = self.add_state(State::MatchAny(UNRESOLVED));
                Fragment { start: state, ends: vec![state] }
            },
            AST::Char(c) => {
                let state = self.add_state(State::MatchLiteral(*c, UNRESOLVED));
                Fragment { start: state, ends: vec![state] }
            },
            AST::Catenation(lhs, rhs) => {
                let frag_one = self.gen_fragment(lhs);
                let ghost a1 = self.states@;
                proof {
                    assert(self.states.len() <= usize::MAX);
                }
                let frag_two = self.gen_fragment(rhs);
                let ghost a2 = self.states@;
                proof {
                    assert(self.states.len() <= usize::MAX);
                }
                let ghost mid = lo + size(**lhs);
                proof {
                    lemma_shape(a1, **lhs, lo, UNRESOLVED);
                    lemma_frame(a1, a2, **lhs, lo, UNRESOLVED);
                }
                self.join_fragment(&frag_one, frag_two.start);
                proof {
                    let a3 = self.states@;
                    lemma_shape(a2, **rhs, mid, UNRESOLVED);
                    assert forall|q: int| mid <= q < mid + size(**rhs) implies #[trigger] a3[q]
                        == a2[q] by {
                        if frag_one.ends@.contains(q as usize) {
                            let k = choose|k: int|
                                0 <= k < frag_one.ends@.len() && frag_one.ends@[k] == q as usize;
                            assert(exits_of(**lhs, lo)[k] < mid);
                        }
                    }
                    lemma_frame(a2, a3, **rhs, mid, UNRESOLVED);
                    lemma_resolve(a2, a3, **lhs, lo, frag_two.start);
                    assert forall|q: int| 0 <= q < lo implies #[trigger] a3[q] == a2[q] by {
                        if frag_one.ends@.contains(q as usize) {
                            let k = choose|k: int|
                                0 <= k < frag_one.ends@.len() && frag_one.ends@[k] == q as usize;
                            assert(lo <= exits_of(**lhs, lo)[k]);
                        }
                    }
                }
                Fragment { start: frag_one.start, ends: frag_two.ends }
            },
            AST::Alternation(lhs, rhs) => {
                let mut frag_one = self.gen_fragment(lhs);
                let ghost a1 = self.states@;
                proof {
                    assert(self.states.len() <= usize::MAX);
                }
                let mut frag_two = self.gen_fragment(rhs);
                let ghost a2 = self.states@;
                proof {
                    assert(self.states.len() <= usize::MAX);
                }
                let ghost mid = lo + size(**lhs);
                proof {
                    lemma_shape(a1, **lhs, lo, UNRESOLVED);
                    lemma_shape(a2, **rhs, mid, UNRESOLVED);
                }
                let state = self.add_state(State::Split(frag_one.start, frag_two.start));
                proof {
                    let a3 = self.states@;
                    lemma_frame(a1, a3, **lhs, lo, UNRESOLVED);
                    lemma_frame(a2, a3, **rhs, mid, UNRESOLVED);
                }
                frag_one.ends.append(&mut frag_two.ends);
                Fragment { start: state, ends: frag_one.ends }
            },
            AST::Closure(expr) => {
                let frag = self.gen_fragment(expr);
                let ghost a1 = self.states@;
                proof {
                    assert(self.states.len() <= usize::MAX);
                }
                proof {
                    lemma_shape(a1, **expr, lo, UNRESOLVED);
                }
                let state = self.add_state(State::Split(frag.start, UNRESOLVED));
                let ghost a2 = self.states@;
                proof {
                    assert(self.states.len() <= usize::MAX);
                }
                self.join_fragment(&frag, state);
                proof {
                    let a3 = self.states@;
                    lemma_frame(a1, a2, **expr, lo, UNRESOLVED);
                    lemma_resolve(a2, a3, **expr, lo, state);
                    assert forall|q: int| 0 <= q < a2.len() && !(lo <= q < state) implies #[trigger] a3[q] == a2[q] by {
                        if frag.ends@.contains(q as usize) {
                            let k = choose|k: int|
                                0 <= k < frag.ends@.len() && frag.ends@[k] == q as usize;
                            assert(lo <= exits_of(**expr, lo)[k] < state);
                        }
                    }
                    assert(a3[state as int] == a2[state as int]);
                }
                Fragment { start: state, ends: vec![state] }
            },
            AST::OneOrMore(expr) => {
                let frag = self.gen_fragment(expr);
                let ghost a1 = self.states@;
                proof {
                    assert(self.states.len() <= usize::MAX);
                }
                proof {
                    lemma_shape(a1, **expr, lo, UNRESOLVED);
                }
                let state = self.add_state(State::Split(frag.start, UNRESOLVED));
                let ghost a2 = self.states@;
                proof {
                    assert(self.states.len() <= usize::MAX);
                }
                self.join_fragment(&frag, state);
                proof {
                    let a3 = self.states@;
                    lemma_frame(a1, a2, **expr, lo, UNRESOLVED);
                    lemma_resolve(a2, a3, **expr, lo, state);
                    assert forall|q: int| 0 <= q < a2.len() && !(lo <= q < state) implies #[trigger] a3[q] == a2[q] by {
                        if frag.ends@.contains(q as usize) {
                            let k = choose|k: int|
                                0 <= k < frag.ends@.len() && frag.ends@[k] == q as usize;
                            assert(lo <= exits_of(**expr, lo)[k] < state);
                        }
                    }
                    assert(a3[state as int] == a2[state as int]);
                }
                Fragment { start: frag.start, ends: vec![state] }
            },
        }
    }
}

} // verus!
