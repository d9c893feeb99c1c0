//! Acceptance: a search over (state, position) pairs, one position at a time,
//! with an explicit work-stack. Each pair is visited once, so the search ends
//! on every automaton, including those whose loops can read nothing.
use vstd::prelude::*;
use vstd::set_lib::{lemma_int_range, lemma_len_subset, set_int_range};
use crate::automaton::{
    State, accepts_word, edges_below, lemma_unfold, reach, reaches, step, well_formed,
};

verus! {

/// Finishing a run from state `p` at position `i` finishes a run from the start.
pub open spec fn leads_back(a: Seq<State>, s: Seq<char>, start: int, p: int, i: int) -> bool {
    reaches(a, s, p, i, a.len() - 1, s.len() as int) ==> accepts_word(a, start, s)
}

/// A move keeps that property.
proof fn lemma_back_step(a: Seq<State>, s: Seq<char>, start: int, q: int, i: int, x: int, i2: int)
    requires
        well_formed(a, start),
        leads_back(a, s, start, q, i),
        step(a, s, q, i, x, i2, s.len() as int),
    ensures
        leads_back(a, s, start, x, i2),
{
    let g = a.len() - 1;
    let n = s.len() as int;
    if reaches(a, s, x, i2, g, n) {
        let k = choose|k: nat| reach(a, s, x, i2, g, n, k);
        lemma_unfold(a, s, q, i, g, n, k + 1);
        assert(reach(a, s, q, i, g, n, k + 1));
    }
}

/// At position `i`, when the marked states `cur` are closed under moves that read
/// nothing, and every move from them that reads is marked in `next`, a run from a
/// marked state to the end either ends here in the last state or goes on from a
/// state marked in `next`.
proof fn lemma_layer(a: Seq<State>, s: Seq<char>, cur: Seq<bool>, next: Seq<bool>, i: int, q: int, k: nat)
    requires
        cur.len() == a.len(),
        0 <= q < a.len(),
        cur[q],
        forall|p: int, x: int|
            0 <= p < a.len() && cur[p] && #[trigger] step(a, s, p, i, x, i, s.len() as int)
                ==> cur[x],
        forall|p: int, x: int|
            0 <= p < a.len() && cur[p] && #[trigger] step(a, s, p, i, x, i + 1, s.len() as int)
                ==> next[x],
        forall|p: int| 0 <= p < a.len() ==> edges_below(#[trigger] a[p], a.len() as int),
        reach(a, s, q, i, a.len() - 1, s.len() as int, k),
    ensures
        (i == s.len() && cur[a.len() - 1]) || (i < s.len() && exists|x: int|
            0 <= x < a.len() && #[trigger] next[x] && reaches(
                a,
                s,
                x,
                i + 1,
                a.len() - 1,
                s.len() as int,
            )),
    decreases k,
{
    let g = a.len() - 1;
    let n = s.len() as int;
    if q != g {
        lemma_unfold(a, s, q, i, g, n, k);
        let (x, i2) = choose|x: int, i2: int|
            step(a, s, q, i, x, i2, n) && #[trigger] reach(a, s, x, i2, g, n, (k - 1) as nat);
        assert(edges_below(a[q], a.len() as int));
        if i2 == i {
            lemma_layer(a, s, cur, next, i, x, (k - 1) as nat);
        } else {
            assert(reaches(a, s, x, i + 1, g, n));
        }
    }
}

/// Marks `x` in `row` and lists it in `list`, unless it is marked already.
fn mark(row: &mut Vec<bool>, list: &mut Vec<usize>, x: usize)
    requires
        x < old(row)@.len(),
    ensures
        old(row)@[x as int] ==> final(row)@ == old(row)@ && final(list)@ == old(list)@,
        !old(row)@[x as int] ==> final(row)@ == old(row)@.update(x as int, true) && final(list)@
            == old(list)@.push(x),
        final(row)@[x as int],
        forall|p: usize| #[trigger] old(list)@.contains(p) ==> final(list)@.contains(p),
        forall|p: int|
            0 <= p < old(row)@.len() && #[trigger] final(row)@[p] && !old(row)@[p] ==> p == x
                && final(list)@.contains(x),
{
    if !row[x] {
        row.set(x, true);
        list.push(x);
        assert(list@[list@.len() - 1] == x);
        assert forall|p: usize| #[trigger] old(list)@.contains(p) implies list@.contains(p) by {
            let k = choose|k: int| 0 <= k < old(list)@.len() && old(list)@[k] == p;
            assert(list@[k] == p);
        }
    }
}

/// Whether the arena `states`, started at `start`, accepts `input`.
pub fn accepts_from(states: &Vec<State>, start: usize, input: &Vec<char>) -> (r: bool)
    requires
        well_formed(states@, start as int),
    ensures
        r == accepts_word(states@, start as int, input@),
{
    let ghost a = states@;
    let ghost s = input@;
    let ghost st = start as int;
    let m = states.len();
    let n = input.len();
    let goal = m - 1;
    let mut cur: Vec<bool> = vec![false; m];
    let mut work: Vec<usize> = Vec::new();
    cur.set(start, true);
    work.push(start);
    let mut i: usize = 0;
    proof {
        assert(work@[0] == start);
        assert forall|p: int| 0 <= p < m && #[trigger] cur@[p] implies work@.contains(p as usize) by {
            assert(p == st);
        }
        if accepts_word(a, st, s) {
            assert(cur@[st]);
        }
    }
    loop
        invariant
            well_formed(a, st),
            states@ == a,
            input@ == s,
            m == a.len(),
            n == s.len(),
            goal == m - 1,
            i <= n,
            st == start as int,
            cur@.len() == m,
            forall|k: int| 0 <= k < work@.len() ==> #[trigger] work@[k] < m && cur@[work@[k] as int],
            forall|p: int| 0 <= p < m && #[trigger] cur@[p] ==> work@.contains(p as usize),
            forall|p: int| 0 <= p < m && #[trigger] cur@[p] ==> leads_back(a, s, st, p, i as int),
            accepts_word(a, st, s) ==> exists|p: int|
                0 <= p < m && #[trigger] cur@[p] && reaches(a, s, p, i as int, goal as int, n as int),
        decreases n - i,
    {
        let mut next: Vec<bool> = vec![false; m];
        let mut next_work: Vec<usize> = Vec::new();
        let ghost mut marked = Set::new(|p: int| 0 <= p < m && cur@[p]);
        proof {
            lemma_int_range(0, m as int);
            lemma_len_subset(marked, set_int_range(0, m as int));
        }
        while work.len() > 0
            invariant
                well_formed(a, st),
                states@ == a,
                input@ == s,
                m == a.len(),
                n == s.len(),
                goal == m - 1,
                i <= n,
                cur@.len() == m,
                next@.len() == m,
                forall|k: int|
                    0 <= k < work@.len() ==> #[trigger] work@[k] < m && cur@[work@[k] as int],
                forall|k: int|
                    0 <= k < next_work@.len() ==> #[trigger] next_work@[k] < m && next@[next_work@[k] as int],
                forall|p: int| 0 <= p < m && #[trigger] next@[p] ==> next_work@.contains(p as usize),
                forall|p: int| 0 <= p < m && #[trigger] cur@[p] ==> leads_back(a, s, st, p, i as int),
                forall|p: int|
                    0 <= p < m && #[trigger] next@[p] ==> leads_back(a, s, st, p, i + 1),
                forall|p: int, x: int|
                    0 <= p < m && cur@[p] && !work@.contains(p as usize) && #[trigger] step(
                        a,
                        s,
                        p,
                        i as int,
                        x,
                        i as int,
                        n as int,
                    ) ==> cur@[x],
                forall|p: int, x: int|
                    0 <= p < m && cur@[p] && !work@.contains(p as usize) && #[trigger] step(
                        a,
                        s,
                        p,
                        i as int,
                        x,
                        i + 1,
                        n as int,
                    ) ==> next@[x],
                accepts_word(a, st, s) ==> exists|p: int|
                    0 <= p < m && #[trigger] cur@[p] && reaches(a, s, p, i as int, goal as int, n as int),
                marked.finite(),
                marked.len() <= m,
                forall|p: int| #[trigger] marked.contains(p) <==> 0 <= p < m && cur@[p],
            decreases m - marked.len() + work@.len(),
        {
            let ghost work_before = work@;
            let q = work.pop().unwrap();
            let ghost cur0 = cur@;
            let ghost next0 = next@;
            let ghost work0 = work@;
            assert(work_before == work0.push(q));
            assert(cur@[q as int]);
            assert(edges_below(a[q as int], m as int));
            match states[q] {
                State::Entry(x) => {
                    assert(step(a, s, q as int, i as int, x as int, i as int, n as int));
                    proof {
                        lemma_back_step(a, s, st, q as int, i as int, x as int, i as int);
                        if !cur@[x as int] {
                            marked = marked.insert(x as int);
                        }
                    }
                    mark(&mut cur, &mut work, x);
                    assert(cur@[x as int]);
                },
                State::MatchLiteral(c, x) => {
                    if i < n && input[i] == c {
                        assert(step(a, s, q as int, i as int, x as int, i + 1, n as int));
                        proof {
                            lemma_back_step(a, s, st, q as int, i as int, x as int, i + 1);
                        }
                        mark(&mut next, &mut next_work, x);
                        assert(next@[x as int]);
                    }
                },
                State::MatchAny(x) => {
                    if i < n {
                        assert(step(a, s, q as int, i as int, x as int, i + 1, n as int));
                        proof {
                            lemma_back_step(a, s, st, q as int, i as int, x as int, i + 1);
                        }
                        mark(&mut next, &mut next_work, x);
                        assert(next@[x as int]);
                    }
                },
                State::Split(x, y) => {
                    assert(step(a, s, q as int, i as int, x as int, i as int, n as int));
                    assert(step(a, s, q as int, i as int, y as int, i as int, n as int));
                    proof {
                        lemma_back_step(a, s, st, q as int, i as int, x as int, i as int);
                        lemma_back_step(a, s, st, q as int, i as int, y as int, i as int);
                        if !cur@[y as int] {
                            marked = marked.insert(y as int);
                        }
                    }
                    mark(&mut cur, &mut work, y);
                    proof {
                        if !cur@[x as int] {
                            marked = marked.insert(x as int);
                        }
                    }
                    mark(&mut cur, &mut work, x);
                    assert(cur@[x as int] && cur@[y as int]);
                },
                State::Accept => {},
            }
            assert(forall|x: int|
                #[trigger] step(a, s, q as int, i as int, x, i as int, n as int) ==> cur@[x]);
            assert(forall|x: int|
                #[trigger] step(a, s, q as int, i as int, x, i + 1, n as int) ==> next@[x]);
            assert(forall|p: int|
                0 <= p < m && #[trigger] cur@[p] && !cur0[p] ==> work@.contains(p as usize));
            assert(work@.take(work0.len() as int) =~= work0) by {
                assert(work@.len() >= work0.len());
            }
            proof {
                assert forall|p: int| 0 <= p < m && cur0[p] implies #[trigger] cur@[p] by {}
                assert forall|p: int| 0 <= p < m && next0[p] implies #[trigger] next@[p] by {}
                if accepts_word(a, st, s) {
                    let p = choose|p: int|
                        0 <= p < m && #[trigger] cur0[p] && reaches(a, s, p, i as int, goal as int, n as int);
                    assert(cur@[p]);
                }
                lemma_int_range(0, m as int);
                assert forall|p: int| #[trigger] marked.contains(p) implies set_int_range(
                    0,
                    m as int,
                ).contains(p) by {}
                lemma_len_subset(marked, set_int_range(0, m as int));
                assert forall|p: int| 0 <= p < m && #[trigger] cur@[p] implies leads_back(
                    a,
                    s,
                    st,
                    p,
                    i as int,
                ) by {
                    if !cur0[p] {
                    }
                }
                assert forall|p: int, x: int|
                    0 <= p < m && cur@[p] && !work@.contains(p as usize) && #[trigger] step(
                        a,
                        s,
                        p,
                        i as int,
                        x,
                        i as int,
                        n as int,
                    ) implies cur@[x] by {
                    if p != q as int {
                        if work0.contains(p as usize) {
                            let k = choose|k: int| 0 <= k < work0.len() && work0[k] == p as usize;
                            assert(work@.take(work0.len() as int)[k] == p as usize);
                        }
                        assert(!work0.contains(p as usize));
                        assert(!work_before.contains(p as usize));
                        assert(cur0[p]);
                        assert(edges_below(a[p], m as int));
                    }
                }
                assert forall|p: int, x: int|
                    0 <= p < m && cur@[p] && !work@.contains(p as usize) && #[trigger] step(
                        a,
                        s,
                        p,
                        i as int,
                        x,
                        i + 1,
                        n as int,
                    ) implies next@[x] by {
                    if p != q as int {
                        if work0.contains(p as usize) {
                            let k = choose|k: int| 0 <= k < work0.len() && work0[k] == p as usize;
                            assert(work@.take(work0.len() as int)[k] == p as usize);
                        }
                        assert(!work0.contains(p as usize));
                        assert(!work_before.contains(p as usize));
                        assert(cur0[p]);
                        assert(edges_below(a[p], m as int));
                    }
                }
            }
        }
        proof {
            if accepts_word(a, st, s) {
                let p = choose|p: int|
                    0 <= p < m && #[trigger] cur@[p] && reaches(a, s, p, i as int, goal as int, n as int);
                let k = choose|k: nat| reach(a, s, p, i as int, goal as int, n as int, k);
                lemma_layer(a, s, cur@, next@, i as int, p, k);
            }
        }
        if i == n {
            proof {
                if cur@[goal as int] {
                    assert(reach(a, s, goal as int, n as int, goal as int, n as int, 0));
                    assert(reaches(a, s, goal as int, n as int, goal as int, n as int));
                    assert(leads_back(a, s, st, goal as int, n as int));
                }
                assert(cur@[goal as int] == accepts_word(a, st, s));
            }
            return cur[goal];
        }
        cur = next;
        work = next_work;
        i = i + 1;
    }
}

} // verus!
