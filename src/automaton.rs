//! States of an automaton held in an arena, what a run through them is, and
//! facts about runs through a part of the arena that only leaves by one state.
use vstd::prelude::*;

verus! {

/// One state of an automaton; the `usize` fields are arena indices of successors.
#[derive(Debug, Clone, Copy, PartialEq, Eq, Structural)]
pub enum State {
    /// The start: moves on without reading.
    Entry(usize),
    /// Reads this character and moves on.
    MatchLiteral(char, usize),
    /// Reads any one character and moves on.
    MatchAny(usize),
    /// Moves on to either successor without reading.
    Split(usize, usize),
    /// The end: the input must be used up here.
    Accept,
}

/// Whether `x` is a successor of `st`.
pub open spec fn points_to(st: State, x: int) -> bool {
    match st {
        State::Entry(y) => x == y,
        State::MatchLiteral(_, y) => x == y,
        State::MatchAny(y) => x == y,
        State::Split(y, z) => x == y || x == z,
        State::Accept => false,
    }
}

/// Whether every successor of `st` is below `n`.
pub open spec fn edges_below(st: State, n: int) -> bool {
    match st {
        State::Entry(y) => y < n,
        State::MatchLiteral(_, y) => y < n,
        State::MatchAny(y) => y < n,
        State::Split(y, z) => y < n && z < n,
        State::Accept => true,
    }
}

/// A finished automaton: every edge resolved inside the arena, the last state is
/// its one `Accept` state, and the start is another state.
pub open spec fn well_formed(a: Seq<State>, start: int) -> bool {
    &&& a.len() >= 2
    &&& 0 <= start < a.len() - 1
    &&& a[a.len() - 1] is Accept
    &&& forall|q: int| 0 <= q < a.len() - 1 ==> !(#[trigger] a[q] is Accept)
    &&& forall|q: int| 0 <= q < a.len() ==> edges_below(#[trigger] a[q], a.len() as int)
}

/// One move on input `s` from state `q` at position `i` to state `x` at position
/// `i2`, reading no further than position `j`.
pub open spec fn step(a: Seq<State>, s: Seq<char>, q: int, i: int, x: int, i2: int, j: int) -> bool {
    &&& 0 <= q < a.len()
    &&& match a[q] {
        State::Entry(y) => x == y && i2 == i,
        State::MatchLiteral(c, y) => x == y && i < j && s[i] == c && i2 == i + 1,
        State::MatchAny(y) => x == y && i < j && i2 == i + 1,
        State::Split(y, z) => (x == y || x == z) && i2 == i,
        State::Accept => false,
    }
}

/// A run of at most `n` moves on `s` from `q` at position `i` meets state `t`
/// for the first time at position `j`.
pub open spec fn reach(a: Seq<State>, s: Seq<char>, q: int, i: int, t: int, j: int, n: nat) -> bool
    decreases n,
{
    if q == t {
        i == j
    } else if n == 0 || !(0 <= q < a.len()) {
        false
    } else {
        match a[q] {
            State::Entry(x) => reach(a, s, x as int, i, t, j, (n - 1) as nat),
            State::MatchLiteral(c, x) => i < j && s[i] == c && reach(
                a,
                s,
                x as int,
                i + 1,
                t,
                j,
                (n - 1) as nat,
            ),
            State::MatchAny(x) => i < j && reach(a, s, x as int, i + 1, t, j, (n - 1) as nat),
            State::Split(x, y) => reach(a, s, x as int, i, t, j, (n - 1) as nat) || reach(
                a,
                s,
                y as int,
                i,
                t,
                j,
                (n - 1) as nat,
            ),
            State::Accept => false,
        }
    }
}

/// Some run on `s` from `q` at position `i` meets `t` for the first time at `j`.
pub open spec fn reaches(a: Seq<State>, s: Seq<char>, q: int, i: int, t: int, j: int) -> bool {
    exists|n: nat| reach(a, s, q, i, t, j, n)
}

/// The arena `a`, started at `start`, accepts `w`: a run reads all of `w` and
/// ends in the last state.
pub open spec fn accepts_word(a: Seq<State>, start: int, w: Seq<char>) -> bool {
    reaches(a, w, start, 0, a.len() - 1, w.len() as int)
}

/// Every edge out of the states `lo..hi` stays among them or goes to `e`.
pub open spec fn closed(a: Seq<State>, lo: int, hi: int, e: int) -> bool {
    &&& 0 <= lo <= hi <= a.len()
    &&& forall|q: int, x: int|
        lo <= q < hi && #[trigger] points_to(a[q], x) ==> (lo <= x < hi || x == e)
}

/// A run that has not met its target takes a first move.
pub proof fn lemma_unfold(a: Seq<State>, s: Seq<char>, q: int, i: int, t: int, j: int, n: nat)
    requires
        q != t,
        n > 0,
    ensures
        reach(a, s, q, i, t, j, n) <==> exists|x: int, i2: int|
            step(a, s, q, i, x, i2, j) && #[trigger] reach(a, s, x, i2, t, j, (n - 1) as nat),
{
    let m = (n - 1) as nat;
    if reach(a, s, q, i, t, j, n) {
        let (x, i2) = match a[q] {
            State::Entry(x) => (x as int, i),
            State::MatchLiteral(c, x) => (x as int, i + 1),
            State::MatchAny(x) => (x as int, i + 1),
            State::Split(x, y) => if reach(a, s, x as int, i, t, j, m) {
                (x as int, i)
            } else {
                (y as int, i)
            },
            State::Accept => (0, 0),
        };
        assert(step(a, s, q, i, x, i2, j) && reach(a, s, x, i2, t, j, m));
    }
    if exists|x: int, i2: int| step(a, s, q, i, x, i2, j) && #[trigger] reach(a, s, x, i2, t, j, m) {
        let (x, i2) = choose|x: int, i2: int|
            step(a, s, q, i, x, i2, j) && #[trigger] reach(a, s, x, i2, t, j, m);
        match a[q] {
            State::Split(y, z) => {
                if x == y {
                    assert(reach(a, s, y as int, i, t, j, m));
                } else {
                    assert(reach(a, s, z as int, i, t, j, m));
                }
            },
            _ => {},
        }
        assert(reach(a, s, q, i, t, j, n));
    }
}

/// A move goes to a successor of the state it leaves.
pub proof fn lemma_step_points(a: Seq<State>, s: Seq<char>, q: int, i: int, x: int, i2: int, j: int)
    requires
        step(a, s, q, i, x, i2, j),
    ensures
        points_to(a[q], x),
        i <= i2 <= i + 1,
{
}

/// More moves allowed, the same runs.
pub proof fn lemma_fuel(a: Seq<State>, s: Seq<char>, q: int, i: int, t: int, j: int, n: nat, m: nat)
    requires
        reach(a, s, q, i, t, j, n),
        n <= m,
    ensures
        reach(a, s, q, i, t, j, m),
    decreases n,
{
    if q != t {
        match a[q] {
            State::Entry(x) => lemma_fuel(a, s, x as int, i, t, j, (n - 1) as nat, (m - 1) as nat),
            State::MatchLiteral(c, x) => lemma_fuel(
                a,
                s,
                x as int,
                i + 1,
                t,
                j,
                (n - 1) as nat,
                (m - 1) as nat,
            ),
            State::MatchAny(x) => lemma_fuel(
                a,
                s,
                x as int,
                i + 1,
                t,
                j,
                (n - 1) as nat,
                (m - 1) as nat,
            ),
            State::Split(x, y) => {
                if reach(a, s, x as int, i, t, j, (n - 1) as nat) {
                    lemma_fuel(a, s, x as int, i, t, j, (n - 1) as nat, (m - 1) as nat);
                } else {
                    lemma_fuel(a, s, y as int, i, t, j, (n - 1) as nat, (m - 1) as nat);
                }
            },
            State::Accept => {},
        }
    }
}

/// Runs never move backwards in the input.
pub proof fn lemma_forward(a: Seq<State>, s: Seq<char>, q: int, i: int, t: int, j: int, n: nat)
    requires
        reach(a, s, q, i, t, j, n),
    ensures
        i <= j,
    decreases n,
{
    if q != t {
        lemma_unfold(a, s, q, i, t, j, n);
        let (x, i2) = choose|x: int, i2: int|
            step(a, s, q, i, x, i2, j) && #[trigger] reach(a, s, x, i2, t, j, (n - 1) as nat);
        lemma_forward(a, s, x, i2, t, j, (n - 1) as nat);
    }
}

/// A run from inside a part that leaves only by `e`, to a target outside it,
/// passes through `e`.
pub proof fn lemma_split_run(
    a: Seq<State>,
    s: Seq<char>,
    lo: int,
    hi: int,
    e: int,
    q: int,
    i: int,
    t: int,
    j: int,
    n: nat,
)
    requires
        closed(a, lo, hi, e),
        lo <= q < hi,
        !(lo <= t < hi),
        !(lo <= e < hi),
        t != e,
        reach(a, s, q, i, t, j, n),
    ensures
        exists|k: int, n1: nat, n2: nat|
            #![trigger reach(a, s, q, i, e, k, n1), reach(a, s, e, k, t, j, n2)]
            n1 + n2 <= n && n1 > 0 && i <= k <= j && reach(a, s, q, i, e, k, n1) && reach(
                a,
                s,
                e,
                k,
                t,
                j,
                n2,
            ),
    decreases n,
{
    lemma_unfold(a, s, q, i, t, j, n);
    let (x, i2) = choose|x: int, i2: int|
        step(a, s, q, i, x, i2, j) && #[trigger] reach(a, s, x, i2, t, j, (n - 1) as nat);
    lemma_step_points(a, s, q, i, x, i2, j);
    lemma_forward(a, s, x, i2, t, j, (n - 1) as nat);
    if x == e {
        lemma_unfold(a, s, q, i, e, i2, 1);
        assert(reach(a, s, x, i2, e, i2, 0));
        assert(reach(a, s, q, i, e, i2, 1));
    } else {
        lemma_split_run(a, s, lo, hi, e, x, i2, t, j, (n - 1) as nat);
        let (k, n1, n2) = choose|k: int, n1: nat, n2: nat|
            #![trigger reach(a, s, x, i2, e, k, n1), reach(a, s, e, k, t, j, n2)]
            n1 + n2 <= n - 1 && n1 > 0 && i2 <= k <= j && reach(a, s, x, i2, e, k, n1) && reach(
                a,
                s,
                e,
                k,
                t,
                j,
                n2,
            );
        lemma_unfold(a, s, q, i, e, k, n1 + 1);
        assert(reach(a, s, q, i, e, k, n1 + 1));
    }
}

/// A run from inside a part that leaves only by `e` to `e`, followed by a run
/// from `e` to a target outside the part, is a run to that target.
pub proof fn lemma_join_runs(
    a: Seq<State>,
    s: Seq<char>,
    lo: int,
    hi: int,
    e: int,
    q: int,
    i: int,
    k: int,
    t: int,
    j: int,
    n1: nat,
    n2: nat,
)
    requires
        closed(a, lo, hi, e),
        lo <= q < hi,
        !(lo <= t < hi),
        !(lo <= e < hi),
        reach(a, s, q, i, e, k, n1),
        reach(a, s, e, k, t, j, n2),
    ensures
        reach(a, s, q, i, t, j, n1 + n2),
    decreases n1,
{
    lemma_unfold(a, s, q, i, e, k, n1);
    let (x, i2) = choose|x: int, i2: int|
        step(a, s, q, i, x, i2, k) && #[trigger] reach(a, s, x, i2, e, k, (n1 - 1) as nat);
    lemma_step_points(a, s, q, i, x, i2, k);
    lemma_forward(a, s, e, k, t, j, n2);
    assert(step(a, s, q, i, x, i2, j));
    if x == e {
        lemma_fuel(a, s, e, k, t, j, n2, (n1 - 1 + n2) as nat);
    } else {
        lemma_join_runs(a, s, lo, hi, e, x, i2, k, t, j, (n1 - 1) as nat, n2);
    }
    lemma_unfold(a, s, q, i, t, j, n1 + n2);
}

} // verus!
