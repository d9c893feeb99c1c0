//! Catenation of two finished automata: the left arena without its accepting
//! state, then the right arena renumbered after it.
use vstd::prelude::*;
use crate::automaton::{
    State, accepts_word, closed, edges_below, lemma_forward, lemma_join_runs, lemma_split_run,
    points_to, reach, reaches, well_formed,
};

verus! {

/// `st` with every edge moved up by `d`.
pub open spec fn shift(st: State, d: int) -> State {
    match st {
        State::Entry(x) => State::Entry((x + d) as usize),
        State::MatchLiteral(c, x) => State::MatchLiteral(c, (x + d) as usize),
        State::MatchAny(x) => State::MatchAny((x + d) as usize),
        State::Split(x, y) => State::Split((x + d) as usize, (y + d) as usize),
        State::Accept => State::Accept,
    }
}

/// `x`, or `to` where `x` is `from`.
pub open spec fn retarget(x: usize, from: int, to: int) -> usize {
    if x == from {
        to as usize
    } else {
        x
    }
}

/// `st` with every edge to `from` sent to `to` instead.
pub open spec fn redirect(st: State, from: int, to: int) -> State {
    match st {
        State::Entry(x) => State::Entry(retarget(x, from, to)),
        State::MatchLiteral(c, x) => State::MatchLiteral(c, retarget(x, from, to)),
        State::MatchAny(x) => State::MatchAny(retarget(x, from, to)),
        State::Split(x, y) => State::Split(retarget(x, from, to), retarget(y, from, to)),
        State::Accept => State::Accept,
    }
}

/// The arena of the catenation of `a` and `b` (started at `sb`): `a` without its
/// last state, edges to that state sent to the start of `b`, then `b` moved up.
pub open spec fn concat_states(a: Seq<State>, b: Seq<State>, sb: int) -> Seq<State> {
    let d = a.len() - 1;
    Seq::new(
        (d + b.len()) as nat,
        |q: int|
            if q < d {
                redirect(a[q], d, sb + d)
            } else {
                shift(b[q - d], d)
            },
    )
}

/// `w` is a string of `a` followed by a string of `b`.
pub open spec fn split_accepted(a: Seq<State>, sa: int, b: Seq<State>, sb: int, w: Seq<char>) -> bool {
    exists|k: int|
        0 <= k <= w.len() && #[trigger] accepts_word(a, sa, w.take(k)) && accepts_word(
            b,
            sb,
            w.skip(k),
        )
}

/// In the left copy, a run to the start of the right copy is a run of `a` to
/// its accepting state.
proof fn lemma_left(a: Seq<State>, sa: int, b: Seq<State>, sb: int, s: Seq<char>, q: int, i: int, k: int, n: nat)
    requires
        well_formed(a, sa),
        well_formed(b, sb),
        a.len() - 1 + b.len() <= usize::MAX,
        0 <= q < a.len() - 1,
    ensures
        reach(concat_states(a, b, sb), s, q, i, sb + a.len() - 1, k, n) <==> reach(
            a,
            s,
            q,
            i,
            a.len() - 1,
            k,
            n,
        ),
    decreases n, 0nat,
{
    let c = concat_states(a, b, sb);
    let d = a.len() - 1;
    assert(c[q] == redirect(a[q], d, sb + d));
    assert(edges_below(a[q], a.len() as int));
    assert((sb + d) as usize as int == sb + d);
    let m = (n - 1) as nat;
    let tc = sb + d;
    if n > 0 {
        match a[q] {
            State::Entry(x) => {
                lemma_left_succ(a, sa, b, sb, s, x, i, k, m);
            },
            State::MatchLiteral(ch, x) => {
                lemma_left_succ(a, sa, b, sb, s, x, i + 1, k, m);
            },
            State::MatchAny(x) => {
                lemma_left_succ(a, sa, b, sb, s, x, i + 1, k, m);
            },
            State::Split(x, y) => {
                lemma_left_succ(a, sa, b, sb, s, x, i, k, m);
                lemma_left_succ(a, sa, b, sb, s, y, i, k, m);
            },
            State::Accept => {},
        }
    }
}

/// One successor of `lemma_left`.
proof fn lemma_left_succ(a: Seq<State>, sa: int, b: Seq<State>, sb: int, s: Seq<char>, x: usize, i: int, k: int, m: nat)
    requires
        well_formed(a, sa),
        well_formed(b, sb),
        a.len() - 1 + b.len() <= usize::MAX,
        x < a.len(),
    ensures
        reach(concat_states(a, b, sb), s, retarget(x, a.len() - 1, sb + a.len() - 1) as int, i, sb + a.len() - 1, k, m)
            <==> reach(a, s, x as int, i, a.len() - 1, k, m),
    decreases m, 1nat,
{
    let d = a.len() - 1;
    assert((sb + d) as usize as int == sb + d);
    if x < d {
        lemma_left(a, sa, b, sb, s, x as int, i, k, m);
    }
}

/// In the right copy, runs are the runs of `b` moved up.
proof fn lemma_right(a: Seq<State>, sa: int, b: Seq<State>, sb: int, s: Seq<char>, q: int, i: int, j: int, n: nat)
    requires
        well_formed(a, sa),
        well_formed(b, sb),
        a.len() - 1 + b.len() <= usize::MAX,
        0 <= q < b.len(),
    ensures
        reach(concat_states(a, b, sb), s, q + a.len() - 1, i, a.len() + b.len() - 2, j, n)
            <==> reach(b, s, q, i, b.len() - 1, j, n),
    decreases n,
{
    let c = concat_states(a, b, sb);
    let d = a.len() - 1;
    assert(c[q + d] == shift(b[q], d));
    assert(edges_below(b[q], b.len() as int));
    if n > 0 && q != b.len() - 1 {
        match b[q] {
            State::Entry(x) => {
                lemma_right(a, sa, b, sb, s, x as int, i, j, (n - 1) as nat);
            },
            State::MatchLiteral(ch, x) => {
                lemma_right(a, sa, b, sb, s, x as int, i + 1, j, (n - 1) as nat);
            },
            State::MatchAny(x) => {
                lemma_right(a, sa, b, sb, s, x as int, i + 1, j, (n - 1) as nat);
            },
            State::Split(x, y) => {
                lemma_right(a, sa, b, sb, s, x as int, i, j, (n - 1) as nat);
                lemma_right(a, sa, b, sb, s, y as int, i, j, (n - 1) as nat);
            },
            State::Accept => {},
        }
    }
}

/// A run up to position `j` reads nothing at or after `j`.
proof fn lemma_prefix(a: Seq<State>, s1: Seq<char>, s2: Seq<char>, q: int, i: int, t: int, j: int, n: nat)
    requires
        forall|p: int| 0 <= p < j ==> s1[p] == s2[p],
        0 <= i,
    ensures
        reach(a, s1, q, i, t, j, n) <==> reach(a, s2, q, i, t, j, n),
    decreases n,
{
    if q != t && n > 0 && 0 <= q < a.len() {
        match a[q] {
            State::Entry(x) => lemma_prefix(a, s1, s2, x as int, i, t, j, (n - 1) as nat),
            State::MatchLiteral(ch, x) => lemma_prefix(a, s1, s2, x as int, i + 1, t, j, (n - 1) as nat),
            State::MatchAny(x) => lemma_prefix(a, s1, s2, x as int, i + 1, t, j, (n - 1) as nat),
            State::Split(x, y) => {
                lemma_prefix(a, s1, s2, x as int, i, t, j, (n - 1) as nat);
                lemma_prefix(a, s1, s2, y as int, i, t, j, (n - 1) as nat);
            },
            State::Accept => {},
        }
    }
}

/// A run from position `i` on reads the input after `k <= i` as it reads the input
/// with its first `k` characters dropped.
proof fn lemma_skip(a: Seq<State>, s: Seq<char>, k: int, q: int, i: int, t: int, j: int, n: nat)
    requires
        0 <= k <= i,
        j <= s.len(),
    ensures
        reach(a, s, q, i, t, j, n) <==> reach(a, s.skip(k), q, i - k, t, j - k, n),
    decreases n,
{
    if q != t && n > 0 && 0 <= q < a.len() {
        match a[q] {
            State::Entry(x) => lemma_skip(a, s, k, x as int, i, t, j, (n - 1) as nat),
            State::MatchLiteral(ch, x) => {
                if i < j && i < s.len() {
                    assert(s.skip(k)[i - k] == s[i]);
                }
                lemma_skip(a, s, k, x as int, i + 1, t, j, (n - 1) as nat);
            },
            State::MatchAny(x) => lemma_skip(a, s, k, x as int, i + 1, t, j, (n - 1) as nat),
            State::Split(x, y) => {
                lemma_skip(a, s, k, x as int, i, t, j, (n - 1) as nat);
                lemma_skip(a, s, k, y as int, i, t, j, (n - 1) as nat);
            },
            State::Accept => {},
        }
    }
}

/// The catenation of two finished automata is finished, and accepts exactly the
/// strings of `a` followed by strings of `b`.
pub proof fn lemma_concat(a: Seq<State>, sa: int, b: Seq<State>, sb: int)
    requires
        well_formed(a, sa),
        well_formed(b, sb),
        a.len() - 1 + b.len() <= usize::MAX,
    ensures
        well_formed(concat_states(a, b, sb), sa),
        forall|w: Seq<char>|
            #[trigger] accepts_word(concat_states(a, b, sb), sa, w) <==> split_accepted(
                a,
                sa,
                b,
                sb,
                w,
            ),
{
    let c = concat_states(a, b, sb);
    let d = a.len() - 1;
    let e = sb + d;
    let t = c.len() - 1;
    assert((sb + d) as usize as int == sb + d);
    assert forall|q: int| 0 <= q < c.len() implies edges_below(#[trigger] c[q], c.len() as int) by {
        if q < d {
            assert(edges_below(a[q], a.len() as int));
        } else {
            assert(edges_below(b[q - d], b.len() as int));
        }
    }
    assert forall|q: int| 0 <= q < c.len() - 1 implies !(#[trigger] c[q] is Accept) by {
        if q < d {
            assert(!(a[q] is Accept));
        } else {
            assert(!(b[q - d] is Accept));
        }
    }
    assert(b[b.len() - 1] is Accept);
    assert(c[t] == shift(b[b.len() - 1], d));
    assert(well_formed(c, sa));
    assert(closed(c, 0, d, e)) by {
        assert forall|q: int, x: int| 0 <= q < d && #[trigger] points_to(c[q], x) implies (0 <= x
            < d || x == e) by {
            assert(edges_below(a[q], a.len() as int));
        }
    }
    assert forall|w: Seq<char>| #[trigger] accepts_word(c, sa, w) <==> split_accepted(a, sa, b, sb, w) by {
        let len = w.len() as int;
        if accepts_word(c, sa, w) {
            let n = choose|n: nat| reach(c, w, sa, 0, t, len, n);
            lemma_split_run(c, w, 0, d, e, sa, 0, t, len, n);
            let (k, n1, n2) = choose|k: int, n1: nat, n2: nat|
                #![trigger reach(c, w, sa, 0, e, k, n1), reach(c, w, e, k, t, len, n2)]
                n1 + n2 <= n && n1 > 0 && 0 <= k <= len && reach(c, w, sa, 0, e, k, n1) && reach(
                    c,
                    w,
                    e,
                    k,
                    t,
                    len,
                    n2,
                );
            lemma_left(a, sa, b, sb, w, sa, 0, k, n1);
            lemma_prefix(a, w, w.take(k), sa, 0, d, k, n1);
            assert(reaches(a, w.take(k), sa, 0, d, k));
            lemma_right(a, sa, b, sb, w, sb, k, len, n2);
            lemma_skip(b, w, k, sb, k, b.len() - 1, len, n2);
            assert(reaches(b, w.skip(k), sb, 0, b.len() - 1, len - k));
            assert(accepts_word(a, sa, w.take(k)) && accepts_word(b, sb, w.skip(k)));
        }
        if split_accepted(a, sa, b, sb, w) {
            let k = choose|k: int|
                0 <= k <= w.len() && #[trigger] accepts_word(a, sa, w.take(k)) && accepts_word(
                    b,
                    sb,
                    w.skip(k),
                );
            let n1 = choose|n1: nat| reach(a, w.take(k), sa, 0, d, k, n1);
            let n2 = choose|n2: nat| #[trigger] reach(b, w.skip(k), sb, 0, b.len() - 1, len - k, n2);
            lemma_prefix(a, w, w.take(k), sa, 0, d, k, n1);
            lemma_left(a, sa, b, sb, w, sa, 0, k, n1);
            lemma_skip(b, w, k, sb, k, b.len() - 1, len, n2);
            lemma_right(a, sa, b, sb, w, sb, k, len, n2);
            lemma_join_runs(c, w, 0, d, e, sa, 0, k, t, len, n1, n2);
            assert(reach(c, w, sa, 0, t, len, n1 + n2));
        }
    }
}

/// The catenation accepts every string accepted by `a` followed by every string
/// accepted by `b`.
pub proof fn lemma_concat_accepts_joined(a: Seq<State>, sa: int, b: Seq<State>, sb: int, u: Seq<char>, v: Seq<char>)
    requires
        well_formed(a, sa),
        well_formed(b, sb),
        a.len() - 1 + b.len() <= usize::MAX,
        accepts_word(a, sa, u),
        accepts_word(b, sb, v),
    ensures
        accepts_word(concat_states(a, b, sb), sa, u + v),
{
    lemma_concat(a, sa, b, sb);
    assert((u + v).take(u.len() as int) == u);
    assert((u + v).skip(u.len() as int) == v);
    assert(split_accepted(a, sa, b, sb, u + v));
}

/// Catenating three automata in either grouping gives automata that accept the
/// same strings.
pub proof fn lemma_concat_associative(
    a: Seq<State>,
    sa: int,
    b: Seq<State>,
    sb: int,
    c: Seq<State>,
    sc: int,
)
    requires
        well_formed(a, sa),
        well_formed(b, sb),
        well_formed(c, sc),
        a.len() + b.len() + c.len() - 2 <= usize::MAX,
    ensures
        forall|w: Seq<char>|
            #[trigger] accepts_word(concat_states(concat_states(a, b, sb), c, sc), sa, w)
                <==> accepts_word(concat_states(a, concat_states(b, c, sc), sb), sa, w),
{
    let ab = concat_states(a, b, sb);
    let bc = concat_states(b, c, sc);
    lemma_concat(a, sa, b, sb);
    lemma_concat(b, sb, c, sc);
    lemma_concat(ab, sa, c, sc);
    lemma_concat(a, sa, bc, sb);
    assert forall|w: Seq<char>|
        #[trigger] accepts_word(concat_states(ab, c, sc), sa, w) <==> accepts_word(
            concat_states(a, bc, sb),
            sa,
            w,
        ) by {
        if accepts_word(concat_states(ab, c, sc), sa, w) {
            let k2 = choose|k2: int|
                0 <= k2 <= w.len() && #[trigger] accepts_word(ab, sa, w.take(k2)) && accepts_word(
                    c,
                    sc,
                    w.skip(k2),
                );
            let u = w.take(k2);
            let k1 = choose|k1: int|
                0 <= k1 <= u.len() && #[trigger] accepts_word(a, sa, u.take(k1)) && accepts_word(
                    b,
                    sb,
                    u.skip(k1),
                );
            let v = w.skip(k1);
            assert(u.take(k1) == w.take(k1));
            assert(v.take(k2 - k1) == u.skip(k1));
            assert(v.skip(k2 - k1) == w.skip(k2));
            assert(split_accepted(b, sb, c, sc, v));
            assert(accepts_word(bc, sb, v));
            assert(split_accepted(a, sa, bc, sb, w));
        }
        if accepts_word(concat_states(a, bc, sb), sa, w) {
            let k1 = choose|k1: int|
                0 <= k1 <= w.len() && #[trigger] accepts_word(a, sa, w.take(k1)) && accepts_word(
                    bc,
                    sb,
                    w.skip(k1),
                );
            let v = w.skip(k1);
            let m = choose|m: int|
                0 <= m <= v.len() && #[trigger] accepts_word(b, sb, v.take(m)) && accepts_word(
                    c,
                    sc,
                    v.skip(m),
                );
            let u = w.take(k1 + m);
            assert(u.take(k1) == w.take(k1));
            assert(u.skip(k1) == v.take(m));
            assert(v.skip(m) == w.skip(k1 + m));
            assert(split_accepted(a, sa, b, sb, u));
            assert(accepts_word(ab, sa, u));
            assert(split_accepted(ab, sa, c, sc, w));
        }
    }
}

/// Exactly `shift`, for edges that stay in range.
fn shift_state(st: State, d: usize) -> (r: State)
    requires
        edges_below(st, usize::MAX - d + 1),
    ensures
        r == shift(st, d as int),
{
    match st {
        State::Entry(x) => State::Entry(x + d),
        State::MatchLiteral(c, x) => State::MatchLiteral(c, x + d),
        State::MatchAny(x) => State::MatchAny(x + d),
        State::Split(x, y) => State::Split(x + d, y + d),
        State::Accept => State::Accept,
    }
}

/// Exactly `redirect`.
fn redirect_state(st: State, from: usize, to: usize) -> (r: State)
    ensures
        r == redirect(st, from as int, to as int),
{
    match st {
        State::Entry(x) => State::Entry(if x == from { to } else { x }),
        State::MatchLiteral(c, x) => State::MatchLiteral(c, if x == from { to } else { x }),
        State::MatchAny(x) => State::MatchAny(if x == from { to } else { x }),
        State::Split(x, y) => State::Split(
            if x == from { to } else { x },
            if y == from { to } else { y },
        ),
        State::Accept => State::Accept,
    }
}

/// Lays out the arena of the catenation of `a` and `b` (started at `sb`).
pub fn concat(a: &Vec<State>, b: &Vec<State>, sb: usize) -> (r: Vec<State>)
    requires
        a@.len() >= 1,
        sb < b@.len(),
        forall|q: int| 0 <= q < b@.len() ==> edges_below(#[trigger] b@[q], b@.len() as int),
    ensures
        r@ == concat_states(a@, b@, sb as int),
{
    let d = a.len() - 1;
    let blen = b.len();
    let mut r: Vec<State> = Vec::new();
    for q in 0..d
        invariant
            d == a@.len() - 1,
            r@ == a@.take(q as int),
    {
        r.push(a[q]);
        assert(r@ == a@.take(q + 1));
    }
    for q in 0..blen
        invariant
            d == a@.len() - 1,
            blen == b@.len(),
            r@.len() == d + q,
    {
        r.push(b[q]);
    }
    assert(r.len() == d + blen);
    for q in 0..d
        invariant
            d == a@.len() - 1,
            blen == b@.len(),
            sb < blen,
            r@.len() == d + blen,
            r.len() <= usize::MAX,
            forall|p: int| 0 <= p < q ==> #[trigger] r@[p] == redirect(a@[p], d as int, sb + d),
    {
        let st = redirect_state(a[q], d, sb + d);
        r.set(q, st);
    }
    for q in 0..blen
        invariant
            d == a@.len() - 1,
            blen == b@.len(),
            r@.len() == d + blen,
            r.len() <= usize::MAX,
            forall|q: int| 0 <= q < b@.len() ==> edges_below(#[trigger] b@[q], b@.len() as int),
            forall|p: int| 0 <= p < d ==> #[trigger] r@[p] == redirect(a@[p], d as int, sb + d),
            forall|p: int| 0 <= p < q ==> #[trigger] r@[d + p] == shift(b@[p], d as int),
    {
        let st = shift_state(b[q], d);
        r.set(d + q, st);
    }
    assert(r@ =~= concat_states(a@, b@, sb as int)) by {
        assert forall|p: int| d <= p < d + blen implies #[trigger] r@[p] == shift(b@[p - d], d as int) by {
            assert(r@[d + (p - d)] == shift(b@[p - d], d as int));
        }
    }
    r
}

} // verus!
