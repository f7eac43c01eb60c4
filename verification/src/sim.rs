//! The batched multi-seed simulator: one random trajectory per trial
//! serves every seed at once.  Each seed, when first drawn from the
//! pending pool or first stepped onto, opens an observation window;
//! while a window is open, every node the trajectory steps onto is
//! credited to that seed; a window closes once its elapsed time
//! exceeds the window length.  Trials are independent and their
//! credits add up.

use vstd::prelude::*;
use crate::graph::Graph;
use crate::graph::wf;
use crate::graph::remove_first;
use crate::graph::lemma_remove_first_at;
use crate::graph::lemma_remove_first_props;
use crate::reach::reach;
use crate::reach::lemma_reach_member;
use crate::reach::lemma_reach_mono;
use crate::reach::lemma_reach_step;
use crate::counts::PairCount;
use crate::counts::pcount;
use crate::counts::pkeys_unique;
use crate::counts::ppositive;
use crate::counts::bump_pair;
use crate::counts::filter_seed;
use crate::search::insert_unique;
use crate::walk::random_index;

verus! {

broadcast use vstd::std_specs::hash::group_hash_axioms;

/// One open observation window: the seed it belongs to and how many
/// ticks have passed since it opened.
pub struct Window {
    pub seed: u64,
    pub elapsed: usize,
}

/// Whether one of the first `j` windows belongs to `s`.
pub open spec fn prefix_has(a: Seq<Window>, j: int, s: u64) -> bool {
    exists|i: int| 0 <= i < j && (#[trigger] a[i]).seed == s
}

/// The window at position `p` of `na` is one of the first `bnd`
/// windows of `act`, advanced by one tick.
pub open spec fn advanced_entry(na: Seq<Window>, act: Seq<Window>, bnd: int, p: int) -> bool {
    exists|i: int|
        0 <= i < bnd && (#[trigger] act[i]).seed == na[p].seed && na[p].elapsed == act[i].elapsed
            + 1
}

/// Whether any open window belongs to `s`.
pub open spec fn active_has(a: Seq<Window>, s: u64) -> bool {
    prefix_has(a, a.len() as int, s)
}

/// Ticks a window can still stay open.
pub open spec fn win_rem(w: Window, window: nat) -> nat {
    if w.elapsed <= window {
        (window + 1 - w.elapsed) as nat
    } else {
        0
    }
}

/// The largest remaining open time among the windows.
pub open spec fn max_rem(a: Seq<Window>, window: nat) -> nat
    decreases a.len(),
{
    if a.len() == 0 {
        0
    } else {
        let m = max_rem(a.drop_last(), window);
        let r = win_rem(a.last(), window);
        if r > m {
            r
        } else {
            m
        }
    }
}

pub proof fn lemma_max_rem_ge(a: Seq<Window>, window: nat, i: int)
    requires
        0 <= i < a.len(),
    ensures
        win_rem(a[i], window) <= max_rem(a, window),
    decreases a.len(),
{
    if i == a.len() - 1 {
        assert(a.last() == a[i]);
    } else {
        assert(a.drop_last()[i] == a[i]);
        lemma_max_rem_ge(a.drop_last(), window, i);
    }
}

pub proof fn lemma_max_rem_le(a: Seq<Window>, window: nat, bnd: nat)
    requires
        forall|i: int| 0 <= i < a.len() ==> win_rem(#[trigger] a[i], window) <= bnd,
    ensures
        max_rem(a, window) <= bnd,
    decreases a.len(),
{
    if a.len() > 0 {
        assert forall|i: int| 0 <= i < a.drop_last().len() implies win_rem(
            #[trigger] a.drop_last()[i],
            window,
        ) <= bnd by {
            assert(a.drop_last()[i] == a[i]);
        }
        lemma_max_rem_le(a.drop_last(), window, bnd);
        assert(a.last() == a[a.len() - 1]);
    }
}

/// The seeds, each once: the pending pool a trial starts from.
pub(crate) fn dedup_seeds(seeds: &Vec<u64>) -> (r: Vec<u64>)
    ensures
        r@.no_duplicates(),
        forall|x: u64| #[trigger] r@.contains(x) <==> seeds@.contains(x),
{
    let mut r: Vec<u64> = Vec::new();
    let mut i: usize = 0;
    while i < seeds.len()
        invariant
            i <= seeds@.len(),
            r@.no_duplicates(),
            forall|x: u64| #[trigger] r@.contains(x) <==> seeds@.take(i as int).contains(x),
        decreases seeds@.len() - i,
    {
        let ghost before = r@;
        insert_unique(&mut r, seeds[i]);
        proof {
            assert forall|x: u64| #[trigger]
                r@.contains(x) <==> seeds@.take(i + 1).contains(x) by {
                assert(r@.to_set().contains(x) == before.to_set().insert(
                    seeds@[i as int],
                ).contains(x));
                assert(r@.to_set().contains(x) == r@.contains(x));
                assert(before.to_set().contains(x) == before.contains(x));
                if seeds@.take(i + 1).contains(x) {
                    let j = choose|j: int| 0 <= j < i + 1 && (#[trigger] seeds@.take(i + 1)[j]) == x;
                    if j < i {
                        assert(seeds@.take(i as int)[j] == x);
                        assert(seeds@.take(i as int).contains(x));
                    } else {
                        assert(x == seeds@[i as int]);
                    }
                }
                if before.contains(x) {
                    let j = choose|j: int| 0 <= j < i && (#[trigger] seeds@.take(i as int)[j]) == x;
                    assert(seeds@.take(i + 1)[j] == x);
                }
                if x == seeds@[i as int] {
                    assert(seeds@.take(i + 1)[i as int] == x);
                }
            }
        }
        i += 1;
    }
    proof {
        assert(seeds@.take(seeds@.len() as int) =~= seeds@);
    }
    r
}

/// First position of `x` in `v`, if any.
pub(crate) fn position_of(v: &Vec<u64>, x: u64) -> (r: Option<usize>)
    ensures
        match r {
            Some(p) => p < v@.len() && v@[p as int] == x && forall|j: int|
                0 <= j < p ==> v@[j] != x,
            None => !v@.contains(x),
        },
{
    let mut i: usize = 0;
    while i < v.len()
        invariant
            i <= v@.len(),
            forall|j: int| 0 <= j < i ==> v@[j] != x,
        decreases v@.len() - i,
    {
        if v[i] == x {
            return Some(i);
        }
        i += 1;
    }
    None
}

/// One tick of the simulation: every open window is advanced by one
/// tick and credited for the trajectory's new position `next`; windows
/// whose elapsed time now exceeds the window length are closed.
fn advance_windows(
    counter: &mut Vec<PairCount>,
    active: &Vec<Window>,
    next: u64,
    window: usize,
) -> (na: Vec<Window>)
    requires
        pkeys_unique(old(counter)@),
        ppositive(old(counter)@),
        window < usize::MAX,
        forall|i: int, j: int| #![trigger active@[i], active@[j]]
            0 <= i < j < active@.len() ==> active@[i].seed != active@[j].seed,
        forall|i: int| 0 <= i < active@.len() ==> (#[trigger] active@[i]).elapsed <= window,
        forall|i: int|
            0 <= i < active@.len() ==> pcount(old(counter)@, (#[trigger] active@[i]).seed, next)
                < usize::MAX,
    ensures
        pkeys_unique(final(counter)@),
        ppositive(final(counter)@),
        forall|x: u64, y: u64| #[trigger]
            pcount(final(counter)@, x, y) == pcount(old(counter)@, x, y) + (if y == next
                && active_has(active@, x) {
                1nat
            } else {
                0nat
            }),
        forall|p: int| 0 <= p < na@.len() ==> advanced_entry(na@, active@, active@.len() as int, p),
        forall|p: int| 0 <= p < na@.len() ==> 1 <= (#[trigger] na@[p]).elapsed <= window,
        forall|p: int, q: int| #![trigger na@[p], na@[q]]
            0 <= p < q < na@.len() ==> na@[p].seed != na@[q].seed,
{
    let mut na: Vec<Window> = Vec::new();
    let mut j: usize = 0;
    while j < active.len()
        invariant
            j <= active@.len(),
            pkeys_unique(counter@),
            ppositive(counter@),
            window < usize::MAX,
            forall|i2: int, j2: int| #![trigger active@[i2], active@[j2]]
                0 <= i2 < j2 < active@.len() ==> active@[i2].seed != active@[j2].seed,
            forall|i2: int| 0 <= i2 < active@.len() ==> (#[trigger] active@[i2]).elapsed <= window,
            forall|i2: int|
                0 <= i2 < active@.len() ==> pcount(
                    old(counter)@,
                    (#[trigger] active@[i2]).seed,
                    next,
                ) < usize::MAX,
            forall|x: u64, y: u64| #[trigger]
                pcount(counter@, x, y) == pcount(old(counter)@, x, y) + (if y == next
                    && prefix_has(active@, j as int, x) {
                    1nat
                } else {
                    0nat
                }),
            forall|p: int| 0 <= p < na@.len() ==> advanced_entry(na@, active@, j as int, p),
            forall|p: int| 0 <= p < na@.len() ==> 1 <= (#[trigger] na@[p]).elapsed <= window,
            forall|p: int, q: int| #![trigger na@[p], na@[q]]
                0 <= p < q < na@.len() ==> na@[p].seed != na@[q].seed,
        decreases active@.len() - j,
    {
        let w_seed = active[j].seed;
        let w_elapsed = active[j].elapsed;
        proof {
            assert(!prefix_has(active@, j as int, w_seed)) by {
                if prefix_has(active@, j as int, w_seed) {
                    let i = choose|i: int| 0 <= i < j && (#[trigger] active@[i]).seed == w_seed;
                    assert(active@[i].seed != active@[j as int].seed);
                }
            }
            assert(pcount(counter@, w_seed, next) == pcount(old(counter)@, w_seed, next));
        }
        let ghost mid = counter@;
        let ghost na_before = na@;
        bump_pair(counter, w_seed, next);
        if w_elapsed + 1 <= window {
            na.push(Window { seed: w_seed, elapsed: w_elapsed + 1 });
        }
        proof {
            assert forall|x: u64, y: u64| #[trigger]
                pcount(counter@, x, y) == pcount(old(counter)@, x, y) + (if y == next
                    && prefix_has(active@, j + 1, x) {
                    1nat
                } else {
                    0nat
                }) by {
                assert(pcount(counter@, x, y) == pcount(mid, x, y) + (if x == w_seed && y
                    == next {
                    1nat
                } else {
                    0nat
                }));
                if prefix_has(active@, j as int, x) {
                    let i = choose|i: int| 0 <= i < j && (#[trigger] active@[i]).seed == x;
                    assert(prefix_has(active@, j + 1, x));
                    assert(active@[i].seed != active@[j as int].seed);
                } else if x == w_seed {
                    assert((#[trigger] active@[j as int]).seed == x);
                    assert(prefix_has(active@, j + 1, x));
                } else {
                    if prefix_has(active@, j + 1, x) {
                        let i = choose|i: int| 0 <= i < j + 1 && (#[trigger] active@[i]).seed == x;
                        assert(i < j);
                        assert(prefix_has(active@, j as int, x));
                    }
                }
            }
            let ghost j1: int = j + 1;
            assert forall|p: int|
                0 <= p < na@.len() implies advanced_entry(na@, active@, j1, p) by {
                if p < na_before.len() {
                    assert(na@[p] == na_before[p]);
                    assert(advanced_entry(na_before, active@, j as int, p));
                    let i = choose|i: int|
                        0 <= i < j && (#[trigger] active@[i]).seed == na_before[p].seed
                            && na_before[p].elapsed == active@[i].elapsed + 1;
                    assert(0 <= i < j + 1 && active@[i].seed == na@[p].seed && na@[p].elapsed
                        == active@[i].elapsed + 1);
                } else {
                    assert((#[trigger] active@[j as int]).seed == na@[p].seed && na@[p].elapsed
                        == active@[j as int].elapsed + 1);
                }
            }
            assert forall|p: int, q: int| #![trigger na@[p], na@[q]]
                0 <= p < q < na@.len() implies na@[p].seed != na@[q].seed by {
                if q >= na_before.len() {
                    assert(na@[p] == na_before[p]);
                    assert(advanced_entry(na_before, active@, j as int, p));
                    let i = choose|i: int|
                        0 <= i < j && (#[trigger] active@[i]).seed == na_before[p].seed
                            && na_before[p].elapsed == active@[i].elapsed + 1;
                    assert(active@[i].seed != active@[j as int].seed);
                } else {
                    assert(na@[p] == na_before[p] && na@[q] == na_before[q]);
                }
            }
        }
        j += 1;
    }
    proof {
        assert forall|x: u64, y: u64| #[trigger]
            pcount(counter@, x, y) == pcount(old(counter)@, x, y) + (if y == next && active_has(
                active@,
                x,
            ) {
                1nat
            } else {
                0nat
            }) by {
            assert(prefix_has(active@, j as int, x) == active_has(active@, x));
        }
        assert forall|p: int|
            0 <= p < na@.len() implies advanced_entry(na@, active@, active@.len() as int, p) by {
            assert(advanced_entry(na@, active@, j as int, p));
        }
    }
    na
}

/// One full trial: a single random trajectory, restarted from
/// still-pending seeds whenever all windows have closed, crediting
/// every seed whose window is open.  Whatever the random choices,
/// each pair's credit grows by at most `window + 1`, and only pairs
/// whose node lies within `window + 1` steps of their seed grow at
/// all.
pub fn sim_trial(graph: &Graph, seeds: &Vec<u64>, window: usize, counter: &mut Vec<PairCount>)
    requires
        wf(graph@),
        window < usize::MAX,
        pkeys_unique(old(counter)@),
        ppositive(old(counter)@),
        forall|a: u64, b: u64| #[trigger] pcount(old(counter)@, a, b) + window + 1 <= usize::MAX,
    ensures
        pkeys_unique(final(counter)@),
        ppositive(final(counter)@),
        forall|a: u64, b: u64| #[trigger]
            pcount(final(counter)@, a, b) >= pcount(old(counter)@, a, b),
        forall|a: u64, b: u64| #[trigger]
            pcount(final(counter)@, a, b) <= pcount(old(counter)@, a, b) + window + 1,
        forall|a: u64, b: u64| #[trigger]
            pcount(final(counter)@, a, b) > pcount(old(counter)@, a, b) ==> seeds@.contains(a)
                && reach(graph@, a, (window + 1) as nat).contains(b),
        forall|s: u64| #![trigger seeds@.contains(s)]
            seeds@.contains(s) && graph@.contains_key(s) && graph@[s].len() > 0 ==> exists|b: u64|
                pcount(final(counter)@, s, b) > pcount(old(counter)@, s, b),
{
    let mut pending = dedup_seeds(seeds);
    let mut active: Vec<Window> = Vec::new();
    let mut cursor: u64 = 0;
    let ghost c0 = counter@;
    loop
        invariant
            wf(graph@),
            window < usize::MAX,
            pkeys_unique(counter@),
            ppositive(counter@),
            forall|a: u64, b: u64| #[trigger] pcount(c0, a, b) + window + 1 <= usize::MAX,
            c0 == old(counter)@,
            pending@.no_duplicates(),
            forall|x: u64| #[trigger] pending@.contains(x) ==> seeds@.contains(x),
            forall|i: int| 0 <= i < active@.len() ==> seeds@.contains((#[trigger] active@[i]).seed),
            forall|i: int, j: int| #![trigger active@[i], active@[j]]
                0 <= i < j < active@.len() ==> active@[i].seed != active@[j].seed,
            forall|i: int|
                0 <= i < active@.len() ==> !pending@.contains((#[trigger] active@[i]).seed),
            forall|i: int| 0 <= i < active@.len() ==> (#[trigger] active@[i]).elapsed <= window,
            forall|i: int|
                0 <= i < active@.len() ==> ((#[trigger] active@[i]).elapsed == 0 ==> active@[i].seed
                    == cursor),
            forall|i: int|
                0 <= i < active@.len() ==> ((#[trigger] active@[i]).elapsed > 0 ==> reach(
                    graph@,
                    active@[i].seed,
                    active@[i].elapsed as nat,
                ).contains(cursor)),
            active@.len() > 0 ==> ((graph@.contains_key(cursor) && graph@[cursor].len() > 0) || (
            active@.len() == 1 && active@[0].seed == cursor)),
            forall|a: u64, b: u64| #[trigger] pcount(counter@, a, b) >= pcount(c0, a, b),
            forall|a: u64, b: u64|
                pending@.contains(a) ==> #[trigger] pcount(counter@, a, b) == pcount(c0, a, b),
            forall|i: int, b: u64|
                0 <= i < active@.len() ==> #[trigger] pcount(counter@, active@[i].seed, b)
                    <= pcount(c0, active@[i].seed, b) + active@[i].elapsed,
            forall|a: u64, b: u64| #[trigger]
                pcount(counter@, a, b) <= pcount(c0, a, b) + window + 1,
            forall|a: u64, b: u64| #[trigger]
                pcount(counter@, a, b) > pcount(c0, a, b) ==> seeds@.contains(a) && reach(
                    graph@,
                    a,
                    (window + 1) as nat,
                ).contains(b),
            forall|s: u64| #![trigger seeds@.contains(s)]
                seeds@.contains(s) && graph@.contains_key(s) && graph@[s].len() > 0
                    ==> pending@.contains(s) || active_has(active@, s) || exists|b: u64|
                    pcount(counter@, s, b) > pcount(c0, s, b),
        ensures
            active@.len() == 0,
            pending@.len() == 0,
        decreases pending@.len(), max_rem(active@, window as nat),
    {
        let ghost head_pending = pending@;
        let ghost head_active = active@;
        if active.len() == 0 {
            if pending.len() == 0 {
                break ;
            }
            let s = match pending.pop() {
                Some(s) => s,
                None => 0,
            };
            proof {
                assert(head_pending[head_pending.len() - 1] == s);
                assert(head_pending.contains(s));
                assert forall|i2: int, j2: int| #![trigger pending@[i2], pending@[j2]]
                    0 <= i2 < j2 < pending@.len() implies pending@[i2] != pending@[j2] by {
                    assert(head_pending[i2] == pending@[i2]);
                    assert(head_pending[j2] == pending@[j2]);
                }
                assert(!pending@.contains(s)) by {
                    if pending@.contains(s) {
                        let i = choose|i: int| 0 <= i < pending@.len() && pending@[i] == s;
                        assert(head_pending[i] == s);
                    }
                }
                assert forall|x: u64| #[trigger] pending@.contains(x) implies head_pending.contains(
                    x,
                ) && seeds@.contains(x) by {
                    let i = choose|i: int| 0 <= i < pending@.len() && pending@[i] == x;
                    assert(head_pending[i] == x);
                }
                assert forall|x: u64|
                    head_pending.contains(x) && x != s implies #[trigger] pending@.contains(
                    x,
                ) by {
                    let i = choose|i: int| 0 <= i < head_pending.len() && head_pending[i] == x;
                    assert(i < head_pending.len() - 1);
                    assert(pending@[i] == x);
                }
            }
            cursor = s;
            active.push(Window { seed: s, elapsed: 0 });
            proof {
                assert(active@.len() == 1 && active@[0].seed == s && active@[0].elapsed == 0);
                assert(active_has(active@, s)) by {
                    assert((#[trigger] active@[0]).seed == s);
                }
                assert(seeds@.contains(s));
                assert forall|b: u64| #[trigger]
                    pcount(counter@, s, b) == pcount(c0, s, b) by {
                    assert(head_pending.contains(s));
                }
            }
        }
        // Whether or not a reseed just happened, every seed with a
        // usable adjacency list is still pending, has an open window,
        // or has already been credited.
        proof {
            assert forall|s2: u64| #![trigger seeds@.contains(s2)]
                seeds@.contains(s2) && graph@.contains_key(s2) && graph@[s2].len() > 0 implies
                pending@.contains(s2) || active_has(active@, s2) || exists|b: u64|
                    pcount(counter@, s2, b) > pcount(c0, s2, b) by {
                if !pending@.contains(s2) && !active_has(active@, s2) {
                    if head_pending.contains(s2) {
                        assert(active@.len() == 1 && s2 == active@[0].seed);
                        assert(active_has(active@, s2)) by {
                            assert((#[trigger] active@[0]).seed == s2);
                        }
                    }
                    if active_has(head_active, s2) {
                        let i = choose|i: int|
                            0 <= i < head_active.len() && (#[trigger] head_active[i]).seed == s2;
                        assert(active@[i].seed == s2);
                        assert(active_has(active@, s2));
                    }
                }
            }
        }
        // From here on the invariant clauses hold of the current state,
        // whether or not a reseed just happened.
        proof {
            assert forall|i: int, b: u64|
                0 <= i < active@.len() implies #[trigger] pcount(counter@, active@[i].seed, b)
                <= pcount(c0, active@[i].seed, b) + active@[i].elapsed by {
                if active@.len() == 1 && active@[0].elapsed == 0 {
                }
            }
        }
        let is_dead = match graph.nodes.get(&cursor) {
            Some(nei) => nei.len() == 0,
            None => true,
        };
        if is_dead {
            // The cursor is stranded; by the viability invariant its own
            // window is the only open one, so closing it empties the set.
            proof {
                assert(active@.len() == 1 && active@[0].seed == cursor);
                if head_pending.len() == pending@.len() {
                    assert(head_active == active@);
                    lemma_max_rem_ge(head_active, window as nat, 0);
                    assert(win_rem(head_active[0], window as nat) >= 1);
                }
            }
            let ghost mid_pending = pending@;
            let ghost mid_active = active@;
            active.clear();
            proof {
                // The closed window's seed has no usable list, so the
                // viable seeds keep their pending or credited standing.
                assert forall|s2: u64| #![trigger seeds@.contains(s2)]
                    seeds@.contains(s2) && graph@.contains_key(s2) && graph@[s2].len() > 0 implies
                    pending@.contains(s2) || active_has(active@, s2) || exists|b: u64|
                        pcount(counter@, s2, b) > pcount(c0, s2, b) by {
                    if !pending@.contains(s2) {
                        if active_has(mid_active, s2) {
                            let i = choose|i: int|
                                0 <= i < mid_active.len() && (#[trigger] mid_active[i]).seed
                                    == s2;
                            assert(s2 == cursor);
                        }
                    }
                }
            }
        } else {
            let idx = match graph.nodes.get(&cursor) {
                Some(nei) => random_index(nei.len()),
                None => 0,
            };
            let next = match graph.nodes.get(&cursor) {
                Some(nei) => nei[idx],
                None => 0,
            };
            proof {
                assert(graph@.contains_key(cursor));
                assert(graph@[cursor].contains(next));
                assert(graph@.contains_key(next) && graph@[next].contains(cursor));
                assert forall|i2: int|
                    0 <= i2 < active@.len() implies pcount(
                    counter@,
                    (#[trigger] active@[i2]).seed,
                    next,
                ) < usize::MAX by {
                    assert(pcount(counter@, active@[i2].seed, next) <= pcount(
                        c0,
                        active@[i2].seed,
                        next,
                    ) + active@[i2].elapsed);
                }
            }
            let ghost tick_counter = counter@;
            let ghost tick_active = active@;
            let ghost tick_pending = pending@;
            let na = advance_windows(counter, &active, next, window);
            active = na;
            proof {
                // distance bound for every surviving window
                assert forall|i2: int|
                    0 <= i2 < active@.len() implies ((#[trigger] active@[i2]).elapsed > 0 ==> reach(
                    graph@,
                    active@[i2].seed,
                    active@[i2].elapsed as nat,
                ).contains(next)) by {
                    assert(advanced_entry(active@, tick_active, tick_active.len() as int, i2));
                    let i = choose|i: int|
                        0 <= i < tick_active.len() && (#[trigger] tick_active[i]).seed
                            == active@[i2].seed && active@[i2].elapsed == tick_active[i].elapsed
                            + 1;
                    if tick_active[i].elapsed == 0 {
                        assert(tick_active[i].seed == cursor);
                        lemma_reach_member(graph@, cursor, next, 1nat);
                    } else {
                        lemma_reach_step(
                            graph@,
                            tick_active[i].seed,
                            tick_active[i].elapsed as nat,
                            cursor,
                            next,
                        );
                    }
                }
                // provenance of every credit
                assert forall|a: u64, b: u64| #[trigger]
                    pcount(counter@, a, b) > pcount(c0, a, b) implies seeds@.contains(a) && reach(
                    graph@,
                    a,
                    (window + 1) as nat,
                ).contains(b) by {
                    if pcount(tick_counter, a, b) > pcount(c0, a, b) {
                    } else {
                        assert(b == next && active_has(tick_active, a));
                        let i = choose|i: int|
                            0 <= i < tick_active.len() && (#[trigger] tick_active[i]).seed == a;
                        if tick_active[i].elapsed == 0 {
                            assert(tick_active[i].seed == cursor);
                            lemma_reach_member(graph@, cursor, next, (window + 1) as nat);
                        } else {
                            lemma_reach_step(
                                graph@,
                                a,
                                tick_active[i].elapsed as nat,
                                cursor,
                                next,
                            );
                            lemma_reach_mono(
                                graph@,
                                a,
                                (tick_active[i].elapsed + 1) as nat,
                                (window + 1) as nat,
                            );
                        }
                    }
                }
                // overall cap
                assert forall|a: u64, b: u64| #[trigger]
                    pcount(counter@, a, b) <= pcount(c0, a, b) + window + 1 by {
                    if b == next && active_has(tick_active, a) {
                        let i = choose|i: int|
                            0 <= i < tick_active.len() && (#[trigger] tick_active[i]).seed == a;
                        assert(pcount(tick_counter, a, b) <= pcount(c0, a, b)
                            + tick_active[i].elapsed);
                    }
                }
                // per-window cap
                assert forall|i2: int, b: u64|
                    0 <= i2 < active@.len() implies #[trigger] pcount(
                    counter@,
                    active@[i2].seed,
                    b,
                ) <= pcount(c0, active@[i2].seed, b) + active@[i2].elapsed by {
                    let a = active@[i2].seed;
                    assert(advanced_entry(active@, tick_active, tick_active.len() as int, i2));
                    let i = choose|i: int|
                        0 <= i < tick_active.len() && (#[trigger] tick_active[i]).seed
                            == active@[i2].seed && active@[i2].elapsed == tick_active[i].elapsed
                            + 1;
                    assert(pcount(tick_counter, a, b) <= pcount(c0, a, b)
                        + tick_active[i].elapsed);
                    assert(active_has(tick_active, a)) by {
                        assert((#[trigger] tick_active[i]).seed == a);
                    }
                }
                // pending seeds were never active, so their counts stand
                assert forall|a: u64, b: u64|
                    pending@.contains(a) implies #[trigger] pcount(counter@, a, b) == pcount(
                    c0,
                    a,
                    b,
                ) by {
                    if active_has(tick_active, a) {
                        let i = choose|i: int|
                            0 <= i < tick_active.len() && (#[trigger] tick_active[i]).seed == a;
                        assert(!pending@.contains(tick_active[i].seed));
                    }
                }
                // seed membership of surviving windows
                assert forall|i2: int|
                    0 <= i2 < active@.len() implies seeds@.contains(
                    (#[trigger] active@[i2]).seed,
                ) && !pending@.contains(active@[i2].seed) by {
                    assert(advanced_entry(active@, tick_active, tick_active.len() as int, i2));
                    let i = choose|i: int|
                        0 <= i < tick_active.len() && (#[trigger] tick_active[i]).seed
                            == active@[i2].seed && active@[i2].elapsed == tick_active[i].elapsed
                            + 1;
                    assert(seeds@.contains(tick_active[i].seed));
                    assert(!pending@.contains(tick_active[i].seed));
                }
            }
            cursor = next;
            match position_of(&pending, next) {
                Some(p) => {
                    let ghost pend_before = pending@;
                    let _removed = pending.remove(p);
                    proof {
                        lemma_remove_first_at(pend_before, next, p as int);
                        lemma_remove_first_props(pend_before, next);
                        assert(pending@ == remove_first(pend_before, next));
                        assert(!pending@.contains(next));
                        assert forall|x: u64| #[trigger]
                            pending@.contains(x) implies pend_before.contains(x)
                            && seeds@.contains(x) by {}
                        assert(pending@.no_duplicates());
                    }
                    active.push(Window { seed: next, elapsed: 0 });
                    proof {
                        let ghost full = active@;
                        let ghost kept = full.len() - 1;
                        assert(seeds@.contains(next)) by {
                            assert(pend_before.contains(next));
                        }
                        assert forall|i2: int, j2: int| #![trigger active@[i2], active@[j2]]
                            0 <= i2 < j2 < active@.len() implies active@[i2].seed
                            != active@[j2].seed by {
                            if j2 == active@.len() - 1 {
                                assert(!pend_before.contains(active@[i2].seed)) by {
                                    if pend_before.contains(active@[i2].seed) {
                                        assert(pending@.contains(active@[i2].seed) || active@[
                                            i2].seed == next);
                                    }
                                }
                            }
                        }
                        assert forall|i2: int|
                            0 <= i2 < active@.len() implies !pending@.contains(
                            (#[trigger] active@[i2]).seed,
                        ) by {
                            if i2 == active@.len() - 1 {
                                assert(active@[i2].seed == next);
                            }
                        }
                        assert forall|b: u64| #[trigger]
                            pcount(counter@, next, b) <= pcount(c0, next, b) + 0 by {
                            assert(!active_has(tick_active, next)) by {
                                if active_has(tick_active, next) {
                                    let i = choose|i: int|
                                        0 <= i < tick_active.len() && (#[trigger] tick_active[
                                        i]).seed == next;
                                    assert(!tick_pending.contains(tick_active[i].seed));
                                }
                            }
                            assert(pcount(counter@, next, b) == pcount(tick_counter, next, b));
                            assert(pcount(tick_counter, next, b) == pcount(c0, next, b)) by {
                                assert(tick_pending.contains(next));
                            }
                        }
                        assert forall|s2: u64| #![trigger seeds@.contains(s2)]
                            seeds@.contains(s2) && graph@.contains_key(s2) && graph@[s2].len()
                            > 0 implies pending@.contains(s2) || active_has(active@, s2)
                            || exists|b: u64| pcount(counter@, s2, b) > pcount(c0, s2, b) by {
                            if active_has(tick_active, s2) {
                                assert(pcount(counter@, s2, next) == pcount(
                                    tick_counter,
                                    s2,
                                    next,
                                ) + 1);
                                assert(pcount(tick_counter, s2, next) >= pcount(c0, s2, next));
                            } else if tick_pending.contains(s2) {
                                if s2 == next {
                                    assert((#[trigger] active@[active@.len() - 1]).seed == s2);
                                    assert(active_has(active@, s2));
                                } else {
                                    assert(pending@.contains(s2));
                                }
                            } else {
                                let b = choose|b: u64|
                                    pcount(tick_counter, s2, b) > pcount(c0, s2, b);
                                assert(pcount(counter@, s2, b) >= pcount(tick_counter, s2, b));
                            }
                        }
                    }
                },
                None => {
                    proof {
                        if head_pending.len() == pending@.len() && head_active.len() > 0 {
                            assert(head_active == tick_active);
                            lemma_max_rem_ge(head_active, window as nat, 0);
                            assert(win_rem(head_active[0], window as nat) >= 1);
                            assert forall|p2: int|
                                0 <= p2 < active@.len() implies win_rem(
                                #[trigger] active@[p2],
                                window as nat,
                            ) <= max_rem(head_active, window as nat) - 1 by {
                                assert(advanced_entry(active@, tick_active, tick_active.len() as int, p2));
                                let i = choose|i: int|
                                    0 <= i < tick_active.len() && (#[trigger] tick_active[i]).seed
                                        == active@[p2].seed && active@[p2].elapsed
                                        == tick_active[i].elapsed + 1;
                                lemma_max_rem_ge(head_active, window as nat, i);
                            }
                            lemma_max_rem_le(
                                active@,
                                window as nat,
                                (max_rem(head_active, window as nat) - 1) as nat,
                            );
                        }
                        assert forall|s2: u64| #![trigger seeds@.contains(s2)]
                            seeds@.contains(s2) && graph@.contains_key(s2) && graph@[s2].len()
                            > 0 implies pending@.contains(s2) || active_has(active@, s2)
                            || exists|b: u64| pcount(counter@, s2, b) > pcount(c0, s2, b) by {
                            if active_has(tick_active, s2) {
                                assert(pcount(counter@, s2, next) == pcount(
                                    tick_counter,
                                    s2,
                                    next,
                                ) + 1);
                                assert(pcount(tick_counter, s2, next) >= pcount(c0, s2, next));
                            } else if tick_pending.contains(s2) {
                            } else {
                                let b = choose|b: u64|
                                    pcount(tick_counter, s2, b) > pcount(c0, s2, b);
                                assert(pcount(counter@, s2, b) >= pcount(tick_counter, s2, b));
                            }
                        }
                    }
                },
            }
        }
    }
}

/// Runs `trials` independent trials, all crediting one counter.
/// Whatever the random choices, each pair's total stays within
/// `trials * (window + 1)`, and every credited pair joins a seed to a
/// node within `window + 1` steps of it.
pub fn simulate_visits(graph: &Graph, node_ids: &Vec<u64>, window: usize, trials: usize) -> (c:
    Vec<PairCount>)
    requires
        wf(graph@),
        window < usize::MAX,
        trials * (window + 1) <= usize::MAX,
    ensures
        pkeys_unique(c@),
        ppositive(c@),
        forall|a: u64, b: u64| #[trigger] pcount(c@, a, b) <= trials * (window + 1),
        forall|a: u64, b: u64| #[trigger]
            pcount(c@, a, b) > 0 ==> node_ids@.contains(a) && reach(
                graph@,
                a,
                (window + 1) as nat,
            ).contains(b),
        trials > 0 ==> forall|s: u64| #![trigger node_ids@.contains(s)]
            node_ids@.contains(s) && graph@.contains_key(s) && graph@[s].len() > 0 ==> exists|
                b: u64,
            | pcount(c@, s, b) > 0,
{
    let mut c: Vec<PairCount> = Vec::new();
    let mut t: usize = 0;
    while t < trials
        invariant
            wf(graph@),
            window < usize::MAX,
            trials * (window + 1) <= usize::MAX,
            t <= trials,
            pkeys_unique(c@),
            ppositive(c@),
            forall|a: u64, b: u64| #[trigger] pcount(c@, a, b) <= t * (window + 1),
            forall|a: u64, b: u64| #[trigger]
                pcount(c@, a, b) > 0 ==> node_ids@.contains(a) && reach(
                    graph@,
                    a,
                    (window + 1) as nat,
                ).contains(b),
            t > 0 ==> forall|s: u64| #![trigger node_ids@.contains(s)]
                node_ids@.contains(s) && graph@.contains_key(s) && graph@[s].len() > 0 ==> exists|
                    b: u64,
                | pcount(c@, s, b) > 0,
        decreases trials - t,
    {
        proof {
            assert forall|a: u64, b: u64| #[trigger]
                pcount(c@, a, b) + window + 1 <= usize::MAX by {
                assert(pcount(c@, a, b) <= t * (window + 1));
                assert(t * (window + 1) + (window + 1) <= trials * (window + 1))
                    by (nonlinear_arith)
                    requires
                        t < trials,
                        window < usize::MAX,
                {}
            }
        }
        let ghost cpre = c@;
        sim_trial(graph, node_ids, window, &mut c);
        proof {
            assert forall|a: u64, b: u64| #[trigger]
                pcount(c@, a, b) <= (t + 1) * (window + 1) by {
                assert(pcount(c@, a, b) <= pcount(cpre, a, b) + window + 1);
                assert(pcount(cpre, a, b) <= t * (window + 1));
                assert(t * (window + 1) + (window + 1) == (t + 1) * (window + 1))
                    by (nonlinear_arith);
            }
            assert forall|a: u64, b: u64| #[trigger]
                pcount(c@, a, b) > 0 implies node_ids@.contains(a) && reach(
                graph@,
                a,
                (window + 1) as nat,
            ).contains(b) by {
                if pcount(cpre, a, b) == 0 {
                    assert(pcount(c@, a, b) > pcount(cpre, a, b));
                }
            }
            assert forall|s: u64| #![trigger node_ids@.contains(s)]
                node_ids@.contains(s) && graph@.contains_key(s) && graph@[s].len() > 0 implies
                exists|b: u64| pcount(c@, s, b) > 0 by {
                let b = choose|b: u64| pcount(c@, s, b) > pcount(cpre, s, b);
                assert(pcount(c@, s, b) > 0);
            }
        }
        t += 1;
    }
    c
}

/// For each seed, in the given order, the set of nodes whose credit
/// strictly exceeds `member_portion`.
pub fn threshold_communities(
    counter: &Vec<PairCount>,
    node_ids: &Vec<u64>,
    member_portion: usize,
) -> (r: Vec<Vec<u64>>)
    requires
        pkeys_unique(counter@),
    ensures
        r@.len() == node_ids@.len(),
        forall|i: int| 0 <= i < r@.len() ==> (#[trigger] r@[i])@.no_duplicates(),
        forall|i: int, x: u64| #![trigger r@[i]@.contains(x)]
            0 <= i < r@.len() ==> (r@[i]@.contains(x) <==> pcount(counter@, node_ids@[i], x)
                > member_portion),
{
    let mut r: Vec<Vec<u64>> = Vec::new();
    let mut i: usize = 0;
    while i < node_ids.len()
        invariant
            i <= node_ids@.len(),
            r@.len() == i,
            pkeys_unique(counter@),
            forall|j: int| 0 <= j < i ==> (#[trigger] r@[j])@.no_duplicates(),
            forall|j: int, x: u64| #![trigger r@[j]@.contains(x)]
                0 <= j < i ==> (r@[j]@.contains(x) <==> pcount(counter@, node_ids@[j], x)
                    > member_portion),
        decreases node_ids@.len() - i,
    {
        let ghost rpre = r@;
        let ri = filter_seed(counter, node_ids[i], member_portion);
        r.push(ri);
        proof {
            assert forall|j: int, x: u64| #![trigger r@[j]@.contains(x)]
                0 <= j < i + 1 implies (r@[j]@.contains(x) <==> pcount(
                counter@,
                node_ids@[j],
                x,
            ) > member_portion) by {
                if j < i {
                    assert(r@[j] == rpre[j]);
                }
            }
        }
        i += 1;
    }
    r
}

/// The batched estimator: `trials` shared-trajectory trials over all
/// seeds at once, then one thresholded set per seed, in seed input
/// order.  Every member lies within `window_length + 1` steps of its
/// seed; a threshold of at least `trials * (window_length + 1)` (the
/// most one pair can ever be credited) leaves every set empty.
pub fn communities(
    graph: &Graph,
    node_ids: Vec<u64>,
    window_length: usize,
    trials: usize,
    member_portion: usize,
) -> (r: Vec<Vec<u64>>)
    requires
        wf(graph@),
        window_length < usize::MAX,
        trials * (window_length + 1) <= usize::MAX,
    ensures
        r@.len() == node_ids@.len(),
        forall|i: int| 0 <= i < r@.len() ==> (#[trigger] r@[i])@.no_duplicates(),
        forall|i: int, x: u64| #![trigger r@[i]@.contains(x)]
            0 <= i < r@.len() ==> (r@[i]@.contains(x) ==> reach(
                graph@,
                node_ids@[i],
                (window_length + 1) as nat,
            ).contains(x)),
        member_portion >= trials * (window_length + 1) ==> forall|i: int|
            0 <= i < r@.len() ==> (#[trigger] r@[i])@.len() == 0,
        trials > 0 && member_portion == 0 ==> forall|i: int|
            0 <= i < r@.len() && graph@.contains_key(node_ids@[i]) && graph@[node_ids@[i]].len()
                > 0 ==> (#[trigger] r@[i])@.len() > 0,
{
    let c = simulate_visits(graph, &node_ids, window_length, trials);
    let r = threshold_communities(&c, &node_ids, member_portion);
    proof {
        if trials > 0 && member_portion == 0 {
            assert forall|i: int|
                0 <= i < r@.len() && graph@.contains_key(node_ids@[i]) && graph@[
                node_ids@[i]].len() > 0 implies (#[trigger] r@[i])@.len() > 0 by {
                assert(node_ids@.contains(node_ids@[i]));
                let b = choose|b: u64| pcount(c@, node_ids@[i], b) > 0;
                assert(r@[i]@.contains(b));
            }
        }
        assert forall|i: int, x: u64| #![trigger r@[i]@.contains(x)]
            0 <= i < r@.len() implies (r@[i]@.contains(x) ==> reach(
            graph@,
            node_ids@[i],
            (window_length + 1) as nat,
        ).contains(x)) by {
            if r@[i]@.contains(x) {
                assert(pcount(c@, node_ids@[i], x) > member_portion);
                assert(pcount(c@, node_ids@[i], x) > 0);
            }
        }
        if member_portion >= trials * (window_length + 1) {
            assert forall|i: int| 0 <= i < r@.len() implies (#[trigger] r@[i])@.len() == 0 by {
                if r@[i]@.len() > 0 {
                    let x = r@[i]@[0];
                    assert(r@[i]@.contains(x));
                    assert(pcount(c@, node_ids@[i], x) > member_portion);
                    assert(pcount(c@, node_ids@[i], x) <= trials * (window_length + 1));
                }
            }
        }
    }
    r
}

} // verus!
