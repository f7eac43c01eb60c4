//! Reachability within a bounded number of steps, the notion in which
//! the random-walk results are specified: every node a walk of at most
//! `k` steps from `n` can stand on is in `reach(g, n, k)`.

use vstd::prelude::*;

verus! {

/// The nodes reachable from `n` along 1 to `k` edges of `g`.
pub open spec fn reach(g: Map<u64, Seq<u64>>, n: u64, k: nat) -> Set<u64>
    decreases k, 1nat, 0nat,
{
    if k == 0 {
        Set::empty()
    } else if g.contains_key(n) {
        reach_list(g, g[n], k)
    } else {
        Set::empty()
    }
}

/// The union, over the listed neighbours, of the neighbour itself and
/// whatever that neighbour reaches with one step fewer.
pub open spec fn reach_list(g: Map<u64, Seq<u64>>, list: Seq<u64>, k: nat) -> Set<u64>
    decreases k, 0nat, list.len(),
{
    if k == 0 || list.len() == 0 {
        Set::empty()
    } else {
        reach_list(g, list.drop_last(), k).insert(list.last()).union(
            reach(g, list.last(), (k - 1) as nat),
        )
    }
}

/// A listed neighbour is reachable, and whatever it reaches with one
/// step fewer is reachable too.
proof fn lemma_reach_list_includes(g: Map<u64, Seq<u64>>, list: Seq<u64>, k: nat, i: int)
    requires
        k >= 1,
        0 <= i < list.len(),
    ensures
        reach_list(g, list, k).contains(list[i]),
        forall|y: u64| #[trigger]
            reach(g, list[i], (k - 1) as nat).contains(y) ==> reach_list(g, list, k).contains(y),
    decreases list.len(),
{
    if i == list.len() - 1 {
        assert(list.last() == list[i]);
    } else {
        assert(list.drop_last()[i] == list[i]);
        lemma_reach_list_includes(g, list.drop_last(), k, i);
    }
}

/// A member of a reachability set from some neighbour of `n`, for one
/// of the listed neighbours.
proof fn lemma_reach_list_elim(g: Map<u64, Seq<u64>>, list: Seq<u64>, k: nat, y: u64)
    requires
        reach_list(g, list, k).contains(y),
    ensures
        exists|i: int|
            0 <= i < list.len() && ((#[trigger] list[i]) == y || reach(g, list[i], (k - 1) as nat).contains(y)),
    decreases list.len(),
{
    let b = list.last();
    if b == y || reach(g, b, (k - 1) as nat).contains(y) {
        assert(list[list.len() - 1] == b);
    } else {
        lemma_reach_list_elim(g, list.drop_last(), k, y);
        let i = choose|i: int|
            0 <= i < list.drop_last().len() && ((#[trigger] list.drop_last()[i]) == y || reach(
                g,
                list.drop_last()[i],
                (k - 1) as nat,
            ).contains(y));
        assert(list[i] == list.drop_last()[i]);
    }
}

/// Reachability only grows with the step budget.
pub proof fn lemma_reach_mono(g: Map<u64, Seq<u64>>, n: u64, j: nat, k: nat)
    requires
        j <= k,
    ensures
        forall|y: u64| #[trigger] reach(g, n, j).contains(y) ==> reach(g, n, k).contains(y),
    decreases j, 1nat, 0nat,
{
    if j >= 1 && g.contains_key(n) {
        lemma_reach_list_mono(g, g[n], j, k);
        assert forall|y: u64| #[trigger] reach(g, n, j).contains(y) implies reach(g, n, k).contains(
            y,
        ) by {
            assert(reach_list(g, g[n], j).contains(y));
            assert(reach_list(g, g[n], k).contains(y));
        }
    } else {
        assert(reach(g, n, j) =~= Set::empty());
    }
}

proof fn lemma_reach_list_mono(g: Map<u64, Seq<u64>>, list: Seq<u64>, j: nat, k: nat)
    requires
        1 <= j <= k,
    ensures
        forall|y: u64| #[trigger]
            reach_list(g, list, j).contains(y) ==> reach_list(g, list, k).contains(y),
    decreases j, 0nat, list.len(),
{
    if list.len() > 0 {
        lemma_reach_list_mono(g, list.drop_last(), j, k);
        lemma_reach_mono(g, list.last(), (j - 1) as nat, (k - 1) as nat);
        let b = list.last();
        assert forall|y: u64| #[trigger]
            reach_list(g, list, j).contains(y) implies reach_list(g, list, k).contains(y) by {
            if reach_list(g, list.drop_last(), j).contains(y) {
                assert(reach_list(g, list.drop_last(), k).contains(y));
            } else if y == b {
            } else {
                assert(reach(g, b, (j - 1) as nat).contains(y));
                assert(reach(g, b, (k - 1) as nat).contains(y));
            }
        }
    }
}

/// A listed neighbour of a present node is reachable from it.
pub proof fn lemma_reach_member(g: Map<u64, Seq<u64>>, n: u64, b: u64, k: nat)
    requires
        k >= 1,
        g.contains_key(n),
        g[n].contains(b),
    ensures
        reach(g, n, k).contains(b),
{
    let i = choose|i: int| 0 <= i < g[n].len() && g[n][i] == b;
    lemma_reach_list_includes(g, g[n], k, i);
}

/// Following one listed edge from a reachable node stays reachable,
/// with one more step of budget.
pub proof fn lemma_reach_step(g: Map<u64, Seq<u64>>, s: u64, j: nat, y: u64, z: u64)
    requires
        reach(g, s, j).contains(y),
        g.contains_key(y),
        g[y].contains(z),
    ensures
        reach(g, s, (j + 1) as nat).contains(z),
    decreases j,
{
    assert(j >= 1);
    assert(g.contains_key(s));
    assert(reach_list(g, g[s], j).contains(y));
    lemma_reach_list_elim(g, g[s], j, y);
    let i = choose|i: int|
        0 <= i < g[s].len() && ((#[trigger] g[s][i]) == y || reach(g, g[s][i], (j - 1) as nat).contains(
            y,
        ));
    let b = g[s][i];
    lemma_reach_list_includes(g, g[s], (j + 1) as nat, i);
    if b == y {
        lemma_reach_member(g, y, z, 1nat);
        lemma_reach_mono(g, b, 1nat, j);
        assert(reach(g, b, j).contains(z));
    } else {
        lemma_reach_step(g, b, (j - 1) as nat, y, z);
        assert(reach(g, b, j).contains(z));
    }
    assert(reach(g, s, (j + 1) as nat) == reach_list(g, g[s], (j + 1) as nat));
}

} // verus!
