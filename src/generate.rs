//! Generation of accepted strings by a random walk through the automaton.
//!
//! Before walking, every state from which the accepting state can be reached is
//! given a rank: the accepting state has rank zero, and every other ranked state
//! has a successor of lower rank. The walk only enters ranked states, so it can
//! always finish; after `WALK_LIMIT` moves it finishes by always taking a
//! successor of lower rank.
use vstd::prelude::*;
use vstd::set_lib::{lemma_int_range, lemma_len_subset, set_int_range};
use crate::automaton::{State, accepts_word, edges_below, lemma_unfold, reach, reaches, step, well_formed};
use crate::random::{alphanumeric, coin};

verus! {

/// Moves a walk may make at random before it heads straight for the end.
pub const WALK_LIMIT: usize = 100000;

/// `x` is ranked below `r`.
pub open spec fn ranked_below(rank: Seq<Option<usize>>, x: int, r: int) -> bool {
    rank[x] is Some && (rank[x]->0 as int) < r
}

/// `st` has a successor ranked below `r`.
pub open spec fn descends(st: State, rank: Seq<Option<usize>>, r: int) -> bool {
    match st {
        State::Entry(x) => ranked_below(rank, x as int, r),
        State::MatchLiteral(_, x) => ranked_below(rank, x as int, r),
        State::MatchAny(x) => ranked_below(rank, x as int, r),
        State::Split(x, y) => ranked_below(rank, x as int, r) || ranked_below(rank, y as int, r),
        State::Accept => false,
    }
}

/// `st` has no ranked successor.
pub open spec fn dead_end(st: State, rank: Seq<Option<usize>>) -> bool {
    match st {
        State::Entry(x) => rank[x as int] is None,
        State::MatchLiteral(_, x) => rank[x as int] is None,
        State::MatchAny(x) => rank[x as int] is None,
        State::Split(x, y) => rank[x as int] is None && rank[y as int] is None,
        State::Accept => true,
    }
}

/// The ranks are a certificate: the last state has rank zero, every other ranked
/// state descends, and an unranked state has no ranked successor.
pub open spec fn ranked(a: Seq<State>, rank: Seq<Option<usize>>) -> bool {
    &&& rank.len() == a.len()
    &&& rank[a.len() - 1] == Some(0usize)
    &&& forall|q: int|
        0 <= q < a.len() - 1 && #[trigger] rank[q] is Some ==> descends(a[q], rank, rank[q]->0 as int)
}

/// No state can be ranked from the ranks of its successors any more.
pub open spec fn saturated(a: Seq<State>, rank: Seq<Option<usize>>) -> bool {
    forall|q: int| 0 <= q < a.len() && #[trigger] rank[q] is None ==> dead_end(a[q], rank)
}

/// Every state from which a run reaches the last state is ranked.
proof fn lemma_ranked_complete(
    a: Seq<State>,
    start: int,
    rank: Seq<Option<usize>>,
    s: Seq<char>,
    q: int,
    i: int,
    j: int,
    n: nat,
)
    requires
        well_formed(a, start),
        ranked(a, rank),
        saturated(a, rank),
        0 <= q < a.len(),
        reach(a, s, q, i, a.len() - 1, j, n),
    ensures
        rank[q] is Some,
    decreases n,
{
    let g = a.len() - 1;
    if q != g {
        lemma_unfold(a, s, q, i, g, j, n);
        let (x, i2) = choose|x: int, i2: int|
            step(a, s, q, i, x, i2, j) && #[trigger] reach(a, s, x, i2, g, j, (n - 1) as nat);
        assert(edges_below(a[q], a.len() as int));
        lemma_ranked_complete(a, start, rank, s, x, i2, j, (n - 1) as nat);
    }
}

/// Ranks every state from which the last state can be reached.
fn rank_states(states: &Vec<State>, start: usize) -> (rank: Vec<Option<usize>>)
    requires
        well_formed(states@, start as int),
    ensures
        ranked(states@, rank@),
        saturated(states@, rank@),
{
    let ghost a = states@;
    let m = states.len();
    let mut rank: Vec<Option<usize>> = Vec::new();
    for k in 0..m
        invariant
            rank@.len() == k,
            forall|p: int| 0 <= p < k ==> #[trigger] rank@[p] is None,
    {
        rank.push(None);
    }
    rank.set(m - 1, Some(0));
    let mut count: usize = 1;
    let ghost mut done = set![(m - 1) as int];
    loop
        invariant
            well_formed(a, start as int),
            states@ == a,
            m == a.len(),
            ranked(a, rank@),
            done.finite(),
            count == done.len(),
            count <= m,
            forall|p: int| #[trigger] done.contains(p) <==> 0 <= p < m && rank@[p] is Some,
            forall|p: int| 0 <= p < m && #[trigger] rank@[p] is Some ==> (rank@[p]->0 as int) < count,
        ensures
            ranked(a, rank@),
            saturated(a, rank@),
        decreases m - count,
    {
        let before = count;
        let ghost rank0 = rank@;
        for q in 0..m
            invariant
                well_formed(a, start as int),
                states@ == a,
                m == a.len(),
                ranked(a, rank@),
                done.finite(),
                count == done.len(),
                before <= count <= m,
                forall|p: int| #[trigger] done.contains(p) <==> 0 <= p < m && rank@[p] is Some,
                forall|p: int|
                    0 <= p < m && #[trigger] rank@[p] is Some ==> (rank@[p]->0 as int) < count,
                forall|p: int| 0 <= p < m && #[trigger] rank0[p] is Some ==> rank@[p] == rank0[p],
                count == before ==> rank@ == rank0,
                count == before ==> forall|p: int|
                    0 <= p < q && #[trigger] rank@[p] is None ==> dead_end(a[p], rank@),
        {
            assert(edges_below(a[q as int], m as int));
            if rank[q].is_none() {
                let best = match states[q] {
                    State::Entry(x) => rank[x],
                    State::MatchLiteral(_, x) => rank[x],
                    State::MatchAny(x) => rank[x],
                    State::Split(x, y) => if rank[x].is_some() {
                        rank[x]
                    } else {
                        rank[y]
                    },
                    State::Accept => None,
                };
                if let Some(r) = best {
                    let ghost old_rank = rank@;
                    rank.set(q, Some(r + 1));
                    proof {
                        assert(!done.contains(q as int));
                        done = done.insert(q as int);
                        lemma_int_range(0, m as int);
                        assert forall|p: int| #[trigger] done.contains(p) implies set_int_range(
                            0,
                            m as int,
                        ).contains(p) by {}
                        lemma_len_subset(done, set_int_range(0, m as int));
                        assert forall|p: int|
                            0 <= p < m - 1 && #[trigger] rank@[p] is Some implies descends(
                                a[p],
                                rank@,
                                rank@[p]->0 as int,
                            ) by {
                            if p != q {
                                assert(descends(a[p], old_rank, old_rank[p]->0 as int));
                            }
                        }
                    }
                    count = count + 1;
                }
            }
        }
        if count == before {
            break;
        }
    }
    rank
}

/// Every way of finishing `word` from state `q` finishes a run of the whole
/// automaton from its start.
pub open spec fn continues(a: Seq<State>, start: int, word: Seq<char>, q: int) -> bool {
    forall|rest: Seq<char>|
        #[trigger] reaches(a, word + rest, q, word.len() as int, a.len() - 1, (word + rest).len() as int)
            ==> accepts_word(a, start, word + rest)
}

/// Moving from `q` to `x` while reading `read` keeps a walk finishable.
proof fn lemma_continue(a: Seq<State>, start: int, word: Seq<char>, q: int, x: int, read: Seq<char>)
    requires
        well_formed(a, start),
        continues(a, start, word, q),
        forall|rest: Seq<char>|
            #[trigger] step(
                a,
                word + read + rest,
                q,
                word.len() as int,
                x,
                (word + read).len() as int,
                (word + read + rest).len() as int,
            ),
    ensures
        continues(a, start, word + read, x),
{
    let g = a.len() - 1;
    assert forall|rest: Seq<char>|
        #[trigger] reaches(
            a,
            (word + read) + rest,
            x,
            (word + read).len() as int,
            g,
            ((word + read) + rest).len() as int,
        ) implies accepts_word(a, start, (word + read) + rest) by {
        let full = word + read + rest;
        let j = full.len() as int;
        assert(full == word + (read + rest));
        let k = choose|k: nat| reach(a, full, x, (word + read).len() as int, g, j, k);
        assert(step(a, full, q, word.len() as int, x, (word + read).len() as int, j));
        lemma_unfold(a, full, q, word.len() as int, g, j, k + 1);
        assert(reach(a, full, q, word.len() as int, g, j, k + 1));
        assert(reaches(a, word + (read + rest), q, word.len() as int, g, (word + (read + rest)).len() as int));
    }
}

/// A string that the arena `states`, started at `start`, accepts, if it accepts any.
pub fn generate(states: &Vec<State>, start: usize) -> (r: Vec<char>)
    requires
        well_formed(states@, start as int),
    ensures
        (exists|w: Seq<char>| #[trigger] accepts_word(states@, start as int, w)) ==> accepts_word(
            states@,
            start as int,
            r@,
        ),
{
    let ghost a = states@;
    let ghost st = start as int;
    let rank = rank_states(states, start);
    let m = states.len();
    let goal = m - 1;
    let mut word: Vec<char> = Vec::new();
    if rank[start].is_none() {
        proof {
            if exists|w: Seq<char>| #[trigger] accepts_word(a, st, w) {
                let w = choose|w: Seq<char>| #[trigger] accepts_word(a, st, w);
                let n = choose|n: nat| #[trigger] reach(a, w, st, 0, a.len() - 1, w.len() as int, n);
                lemma_ranked_complete(a, st, rank@, w, st, 0, w.len() as int, n);
            }
        }
        return word;
    }
    proof {
        assert forall|rest: Seq<char>|
            #[trigger] reaches(a, word@ + rest, st, word@.len() as int, a.len() - 1, (word@ + rest).len() as int)
                implies accepts_word(a, st, word@ + rest) by {
            assert(word@ + rest == rest);
        }
    }
    let mut q = start;
    let mut fuel: usize = WALK_LIMIT;
    while q != goal && fuel > 0
        invariant
            well_formed(a, st),
            states@ == a,
            ranked(a, rank@),
            m == a.len(),
            goal == m - 1,
            q < m,
            rank@[q as int] is Some,
            continues(a, st, word@, q as int),
        decreases fuel,
    {
        fuel = fuel - 1;
        let ghost w0 = word@;
        assert(edges_below(a[q as int], m as int));
        assert(descends(a[q as int], rank@, rank@[q as int]->0 as int));
        match states[q] {
            State::Entry(x) => {
                proof {
                    assert(w0 + seq![] == w0);
                    lemma_continue(a, st, w0, q as int, x as int, seq![]);
                }
                q = x;
            },
            State::MatchLiteral(c, x) => {
                proof {
                    assert forall|rest: Seq<char>| #[trigger] step(a, w0 + seq![c] + rest, q as int, w0.len() as int, x as int, (w0 + seq![c]).len() as int, (w0 + seq![c] + rest).len() as int) by {
                        assert((w0 + seq![c] + rest)[w0.len() as int] == c);
                    }
                    lemma_continue(a, st, w0, q as int, x as int, seq![c]);
                }
                word.push(c);
                assert(word@ == w0 + seq![c]);
                q = x;
            },
            State::MatchAny(x) => {
                let c = alphanumeric();
                proof {
                    assert forall|rest: Seq<char>| #[trigger] step(a, w0 + seq![c] + rest, q as int, w0.len() as int, x as int, (w0 + seq![c]).len() as int, (w0 + seq![c] + rest).len() as int) by {}
                    lemma_continue(a, st, w0, q as int, x as int, seq![c]);
                }
                word.push(c);
                assert(word@ == w0 + seq![c]);
                q = x;
            },
            State::Split(x, y) => {
                let next = if rank[x].is_some() && rank[y].is_some() {
                    if coin() {
                        x
                    } else {
                        y
                    }
                } else if rank[x].is_some() {
                    x
                } else {
                    y
                };
                proof {
                    assert(w0 + seq![] == w0);
                    lemma_continue(a, st, w0, q as int, next as int, seq![]);
                }
                q = next;
            },
            State::Accept => {},
        }
    }
    while q != goal
        invariant
            well_formed(a, st),
            states@ == a,
            ranked(a, rank@),
            m == a.len(),
            goal == m - 1,
            q < m,
            rank@[q as int] is Some,
            continues(a, st, word@, q as int),
        decreases rank@[q as int]->0,
    {
        let ghost w0 = word@;
        assert(edges_below(a[q as int], m as int));
        assert(descends(a[q as int], rank@, rank@[q as int]->0 as int));
        let r = rank[q].unwrap();
        match states[q] {
            State::Entry(x) => {
                proof {
                    assert(w0 + seq![] == w0);
                    lemma_continue(a, st, w0, q as int, x as int, seq![]);
                }
                q = x;
            },
            State::MatchLiteral(c, x) => {
                proof {
                    assert forall|rest: Seq<char>| #[trigger] step(a, w0 + seq![c] + rest, q as int, w0.len() as int, x as int, (w0 + seq![c]).len() as int, (w0 + seq![c] + rest).len() as int) by {
                        assert((w0 + seq![c] + rest)[w0.len() as int] == c);
                    }
                    lemma_continue(a, st, w0, q as int, x as int, seq![c]);
                }
                word.push(c);
                assert(word@ == w0 + seq![c]);
                q = x;
            },
            State::MatchAny(x) => {
                let c = alphanumeric();
                proof {
                    assert forall|rest: Seq<char>| #[trigger] step(a, w0 + seq![c] + rest, q as int, w0.len() as int, x as int, (w0 + seq![c]).len() as int, (w0 + seq![c] + rest).len() as int) by {}
                    lemma_continue(a, st, w0, q as int, x as int, seq![c]);
                }
                word.push(c);
                assert(word@ == w0 + seq![c]);
                q = x;
            },
            State::Split(x, y) => {
                let next = match rank[x] {
                    Some(rx) => if rx < r {
                        x
                    } else {
                        y
                    },
                    None => y,
                };
                proof {
                    assert(w0 + seq![] == w0);
                    lemma_continue(a, st, w0, q as int, next as int, seq![]);
                }
                q = next;
            },
            State::Accept => {},
        }
    }
    proof {
        let g = a.len() - 1;
        let w = word@;
        assert(w + seq![] == w);
        assert(reach(a, w + seq![], g, w.len() as int, g, w.len() as int, 0));
        assert(reaches(a, w + seq![], q as int, w.len() as int, g, (w + seq![]).len() as int));
    }
    word
}

} // verus!
