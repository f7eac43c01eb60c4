//! The single-walk sampler: repeated independent random walks from one
//! seed, producing a visitation-frequency histogram, and its
//! thresholded form, a single community estimate.

use vstd::prelude::*;
use std::collections::HashMap;
use rand::Rng;
use crate::graph::Graph;
use crate::reach::reach;
use crate::reach::lemma_reach_member;
use crate::reach::lemma_reach_mono;
use crate::reach::lemma_reach_step;
use crate::counts::NodeCount;
use crate::counts::ncount;
use crate::counts::nkeys_unique;
use crate::counts::npositive;
use crate::counts::ntotal;
use crate::counts::bump_node;
use crate::counts::filter_counts;
use crate::counts::lemma_ncount_push;
use crate::counts::lemma_ntotal_pos;

verus! {

broadcast use vstd::std_specs::hash::group_hash_axioms;

/// Relies on rand::thread_rng and rand::Rng::gen_range: an index drawn
/// uniformly at random from `0..n`.  Nothing is promised beyond the
/// range; two calls with equal arguments may differ.
#[verifier::external_body]
pub(crate) fn random_index(n: usize) -> (r: usize)
    requires
        n > 0,
    ensures
        r < n,
{
    rand::thread_rng().gen_range(0..n)
}

/// Runs `trials` independent walks of up to `len` steps from
/// `node_id`, counting every node stepped onto.  A walk ends early at
/// a node with no neighbours; the start is only counted if revisited.
pub(crate) fn walk_counts(graph: &Graph, node_id: u64, len: usize, trials: usize) -> (v: Vec<
    NodeCount,
>)
    requires
        trials * len <= usize::MAX,
    ensures
        nkeys_unique(v@),
        npositive(v@),
        forall|x: u64| #[trigger] ncount(v@, x) <= trials * len,
        forall|x: u64| #[trigger] ncount(v@, x) > 0 ==> reach(graph@, node_id, len as nat).contains(
            x,
        ),
        ntotal(v@) <= trials * len,
        trials > 0 && len > 0 && graph@.contains_key(node_id) && graph@[node_id].len() > 0
            ==> ntotal(v@) >= trials,
        trials == 0 ==> v@.len() == 0,
{
    let mut v: Vec<NodeCount> = Vec::new();
    let mut t: usize = 0;
    while t < trials
        invariant
            t <= trials,
            trials * len <= usize::MAX,
            nkeys_unique(v@),
            npositive(v@),
            forall|x: u64| #[trigger] ncount(v@, x) <= t * len,
            forall|x: u64| #[trigger] ncount(v@, x) > 0 ==> reach(
                graph@,
                node_id,
                len as nat,
            ).contains(x),
            ntotal(v@) <= t * len,
            len > 0 && graph@.contains_key(node_id) && graph@[node_id].len() > 0 ==> ntotal(v@)
                >= t,
            t == 0 ==> v@.len() == 0,
        decreases trials - t,
    {
        let mut cur: u64 = node_id;
        let mut step: usize = 0;
        let ghost trial_start = v@;
        while step < len
            invariant_except_break
                step <= len,
                t < trials,
                trials * len <= usize::MAX,
                nkeys_unique(v@),
                npositive(v@),
                cur == node_id || reach(graph@, node_id, step as nat).contains(cur),
                step == 0 ==> cur == node_id,
                ntotal(v@) == ntotal(trial_start) + step,
                forall|x: u64| #[trigger] ncount(v@, x) <= t * len + step,
                forall|x: u64| #[trigger] ncount(v@, x) > 0 ==> reach(
                    graph@,
                    node_id,
                    len as nat,
                ).contains(x),
            ensures
                nkeys_unique(v@),
                npositive(v@),
                ntotal(v@) <= ntotal(trial_start) + len,
                len > 0 && graph@.contains_key(node_id) && graph@[node_id].len() > 0 ==> ntotal(
                    v@,
                ) >= ntotal(trial_start) + 1,
                forall|x: u64| #[trigger] ncount(v@, x) <= t * len + len,
                forall|x: u64| #[trigger] ncount(v@, x) > 0 ==> reach(
                    graph@,
                    node_id,
                    len as nat,
                ).contains(x),
            decreases len - step,
        {
            match graph.nodes.get(&cur) {
                Some(nei) => {
                    if nei.len() == 0 {
                        proof {
                            assert(graph@.contains_key(cur));
                            assert(graph@[cur] == nei@);
                            assert forall|x: u64| #[trigger]
                                ncount(v@, x) <= t * len + len by {}
                        }
                        break ;
                    }
                    let idx = random_index(nei.len());
                    let next = nei[idx];
                    proof {
                        assert(graph@.contains_key(cur));
                        assert(graph@[cur] == nei@);
                        assert(graph@[cur].contains(next));
                        if cur == node_id {
                            lemma_reach_member(graph@, node_id, next, (step + 1) as nat);
                        } else {
                            lemma_reach_step(graph@, node_id, step as nat, cur, next);
                        }
                        lemma_reach_mono(graph@, node_id, (step + 1) as nat, len as nat);
                        assert(reach(graph@, node_id, len as nat).contains(next));
                        assert(t * len + step < trials * len) by (nonlinear_arith)
                            requires
                                t < trials,
                                step < len,
                        {}
                    }
                    bump_node(&mut v, next);
                    cur = next;
                    step += 1;
                },
                None => {
                    proof {
                        assert(!graph@.contains_key(cur));
                        assert forall|x: u64| #[trigger] ncount(v@, x) <= t * len + len by {}
                    }
                    break ;
                },
            }
        }
        proof {
            assert(t * len + len == (t + 1) * len) by (nonlinear_arith);
        }
        t += 1;
    }
    v
}

/// Turns the histogram entries into a map from node to count.
fn counts_to_map(v: &Vec<NodeCount>) -> (m: HashMap<u64, usize>)
    requires
        nkeys_unique(v@),
        npositive(v@),
    ensures
        forall|x: u64| #[trigger] m@.contains_key(x) <==> ncount(v@, x) > 0,
        forall|x: u64| #[trigger] m@.contains_key(x) ==> m@[x] == ncount(v@, x),
{
    let mut m: HashMap<u64, usize> = HashMap::new();
    let mut i: usize = 0;
    while i < v.len()
        invariant
            i <= v@.len(),
            nkeys_unique(v@),
            npositive(v@),
            forall|x: u64| #[trigger]
                m@.contains_key(x) <==> ncount(v@.take(i as int), x) > 0,
            forall|x: u64| #[trigger]
                m@.contains_key(x) ==> m@[x] == ncount(v@.take(i as int), x),
        decreases v@.len() - i,
    {
        let node = v[i].node;
        let count = v[i].count;
        m.insert(node, count);
        proof {
            assert(v@.take(i + 1) =~= v@.take(i as int).push(v@[i as int]));
            assert forall|x: u64|
                (#[trigger] m@.contains_key(x) <==> ncount(v@.take(i + 1), x) > 0)
                    && (m@.contains_key(x) ==> m@[x] == ncount(v@.take(i + 1), x)) by {
                assert forall|j: int| 0 <= j < i implies (#[trigger] v@.take(i as int)[j]).node
                    != v@[i as int].node by {
                    assert(v@[j] == v@.take(i as int)[j]);
                }
                lemma_ncount_push(v@.take(i as int), v@[i as int], x);
            }
        }
        i += 1;
    }
    proof {
        assert(v@.take(v@.len() as int) =~= v@);
    }
    m
}

/// The map records exactly the counts of the entry list: same nodes,
/// same counts, no duplicate entries, no zero counts.
pub open spec fn walk_histogram(m: Map<u64, usize>, entries: Seq<NodeCount>) -> bool {
    &&& nkeys_unique(entries)
    &&& npositive(entries)
    &&& forall|x: u64| #[trigger] m.contains_key(x) <==> ncount(entries, x) > 0
    &&& forall|x: u64| #[trigger] m.contains_key(x) ==> m[x] == ncount(entries, x)
}

/// Executes `trials` independent random walks of up to `len` steps
/// from `node_id` and returns how often each node was stepped onto.
/// Every counted node is reachable from the start within `len` steps;
/// the counts total at most `trials * len` and, when the start has a
/// neighbour, at least `trials`, one credit per walk's first step.
pub fn random_walk(graph: &Graph, node_id: u64, len: usize, trials: usize) -> (visited: HashMap<
    u64,
    usize,
>)
    requires
        trials * len <= usize::MAX,
    ensures
        forall|x: u64| #[trigger]
            visited@.contains_key(x) ==> reach(graph@, node_id, len as nat).contains(x) && 1
                <= visited@[x] <= trials * len,
        exists|entries: Seq<NodeCount>| #[trigger]
            walk_histogram(visited@, entries) && ntotal(entries) <= trials * len && (trials > 0
                && len > 0 && graph@.contains_key(node_id) && graph@[node_id].len() > 0
                ==> ntotal(entries) >= trials),
        trials > 0 && len > 0 && graph@.contains_key(node_id) && graph@[node_id].len() > 0
            ==> visited@.dom().len() > 0,
        trials == 0 || len == 0 || !graph@.contains_key(node_id) || graph@[node_id].len() == 0
            ==> visited@ == Map::<u64, usize>::empty(),
{
    let v = walk_counts(graph, node_id, len, trials);
    let m = counts_to_map(&v);
    proof {
        assert(walk_histogram(m@, v@) && ntotal(v@) <= trials * len && (trials > 0 && len > 0
            && graph@.contains_key(node_id) && graph@[node_id].len() > 0 ==> ntotal(v@)
            >= trials));
        if trials > 0 && len > 0 && graph@.contains_key(node_id) && graph@[node_id].len() > 0 {
            lemma_ntotal_pos(v@);
            let x = choose|x: u64| (#[trigger] ncount(v@, x)) > 0;
            assert(m@.contains_key(x));
            if m@.dom().len() == 0 {
                m@.dom().lemma_len0_is_empty();
            }
        }
        if trials == 0 || len == 0 || !graph@.contains_key(node_id) || graph@[node_id].len()
            == 0 {
            assert forall|x: u64| !(#[trigger] m@.contains_key(x)) by {
                if m@.contains_key(x) {
                    assert(reach(graph@, node_id, len as nat).contains(x));
                }
            }
            assert(m@ =~= Map::<u64, usize>::empty());
        }
    }
    m
}

/// The community estimate from a single seed: the walk histogram of
/// `random_walk`, thresholded to the nodes whose count strictly
/// exceeds `member_portion`.
pub fn community(graph: &Graph, node_id: u64, len: usize, trials: usize, member_portion: usize) -> (r:
    Vec<u64>)
    requires
        trials * len <= usize::MAX,
    ensures
        r@.no_duplicates(),
        forall|x: u64| #[trigger] r@.contains(x) ==> reach(graph@, node_id, len as nat).contains(
            x,
        ),
        member_portion >= trials * len ==> r@.len() == 0,
        member_portion == 0 && trials > 0 && len > 0 && graph@.contains_key(node_id)
            && graph@[node_id].len() > 0 ==> r@.len() > 0,
{
    let v = walk_counts(graph, node_id, len, trials);
    let r = filter_counts(&v, member_portion);
    proof {
        if member_portion == 0 && trials > 0 && len > 0 && graph@.contains_key(node_id)
            && graph@[node_id].len() > 0 {
            lemma_ntotal_pos(v@);
            let x = choose|x: u64| (#[trigger] ncount(v@, x)) > 0;
            assert(r@.contains(x));
        }
        assert forall|x: u64| #[trigger] r@.contains(x) implies reach(
            graph@,
            node_id,
            len as nat,
        ).contains(x) by {
            assert(ncount(v@, x) > member_portion);
        }
        if member_portion >= trials * len {
            if r@.len() > 0 {
                assert(r@.contains(r@[0]));
                assert(ncount(v@, r@[0]) > member_portion);
                assert(ncount(v@, r@[0]) <= trials * len);
            }
        }
    }
    r
}

} // verus!
