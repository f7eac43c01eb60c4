//! The scale-binning layer: the same shared-trajectory simulation, but
//! a window stays open until its elapsed time exceeds the coarsest
//! scale, and every credit is tagged with a power-of-two bin, so one
//! simulation pass yields community estimates at several walk-length
//! scales.  Per seed, the per-bin counts are merged cumulatively in
//! increasing bin order before thresholding.

use vstd::prelude::*;
use vstd::pervasive::VecAdditionalExecFns;
use crate::counts::NodeCount;
use crate::counts::ncount;
use crate::counts::nkeys_unique;
use crate::counts::npositive;
use crate::counts::filter_counts;
use crate::counts::add_node_count;
use crate::graph::Graph;
use crate::graph::wf;
use crate::graph::remove_first;
use crate::graph::lemma_remove_first_at;
use crate::graph::lemma_remove_first_props;
use crate::reach::reach;
use crate::reach::lemma_reach_member;
use crate::reach::lemma_reach_mono;
use crate::reach::lemma_reach_step;
use crate::sim::Window;
use crate::sim::prefix_has;
use crate::sim::active_has;
use crate::sim::advanced_entry;
use crate::sim::win_rem;
use crate::sim::max_rem;
use crate::sim::lemma_max_rem_ge;
use crate::sim::lemma_max_rem_le;
use crate::sim::dedup_seeds;
use crate::sim::position_of;
use crate::walk::random_index;

verus! {

broadcast use vstd::std_specs::hash::group_hash_axioms;

/// One `(seed, bin, visited node)` triple and its credit.
pub struct ScaleCount {
    pub seed: u64,
    pub bin: usize,
    pub node: u64,
    pub count: usize,
}

/// The credit recorded for `(s, b, n)`: first match, or zero.
pub open spec fn tcount(c: Seq<ScaleCount>, s: u64, b: nat, n: u64) -> nat
    decreases c.len(),
{
    if c.len() == 0 {
        0
    } else if c[0].seed == s && c[0].bin == b && c[0].node == n {
        c[0].count as nat
    } else {
        tcount(c.drop_first(), s, b, n)
    }
}

/// No triple appears in two entries.
pub open spec fn tkeys_unique(c: Seq<ScaleCount>) -> bool {
    forall|i: int, j: int| #![trigger c[i], c[j]]
        0 <= i < j < c.len() ==> !(c[i].seed == c[j].seed && c[i].bin == c[j].bin && c[i].node
            == c[j].node)
}

/// Every entry's credit is at least one.
pub open spec fn tpositive(c: Seq<ScaleCount>) -> bool {
    forall|i: int| 0 <= i < c.len() ==> (#[trigger] c[i]).count >= 1
}

proof fn lemma_tcount_first(c: Seq<ScaleCount>, i: int)
    requires
        0 <= i < c.len(),
        forall|j: int|
            0 <= j < i ==> !((#[trigger] c[j]).seed == c[i].seed && c[j].bin == c[i].bin
                && c[j].node == c[i].node),
    ensures
        tcount(c, c[i].seed, c[i].bin as nat, c[i].node) == c[i].count as nat,
    decreases i,
{
    if i > 0 {
        assert forall|j: int|
            0 <= j < i - 1 implies !((#[trigger] c.drop_first()[j]).seed == c.drop_first()[i
            - 1].seed && c.drop_first()[j].bin == c.drop_first()[i - 1].bin
            && c.drop_first()[j].node == c.drop_first()[i - 1].node) by {
            assert(c.drop_first()[j] == c[j + 1]);
        }
        lemma_tcount_first(c.drop_first(), i - 1);
    }
}

/// With unique triples, any entry gives that triple's credit.
pub proof fn lemma_tcount_entry(c: Seq<ScaleCount>, i: int)
    requires
        tkeys_unique(c),
        0 <= i < c.len(),
    ensures
        tcount(c, c[i].seed, c[i].bin as nat, c[i].node) == c[i].count as nat,
{
    lemma_tcount_first(c, i);
}

pub proof fn lemma_tcount_absent(c: Seq<ScaleCount>, s: u64, b: nat, n: u64)
    requires
        forall|j: int|
            0 <= j < c.len() ==> !((#[trigger] c[j]).seed == s && c[j].bin == b && c[j].node == n),
    ensures
        tcount(c, s, b, n) == 0,
    decreases c.len(),
{
    if c.len() > 0 {
        assert forall|j: int|
            0 <= j < c.drop_first().len() implies !((#[trigger] c.drop_first()[j]).seed == s
            && c.drop_first()[j].bin == b && c.drop_first()[j].node == n) by {
            assert(c.drop_first()[j] == c[j + 1]);
        }
        lemma_tcount_absent(c.drop_first(), s, b, n);
    }
}

proof fn lemma_tcount_update(c: Seq<ScaleCount>, i: int, e: ScaleCount, s: u64, b: nat, n: u64)
    requires
        0 <= i < c.len(),
        c[i].seed == e.seed,
        c[i].bin == e.bin,
        c[i].node == e.node,
        forall|j: int|
            0 <= j < i ==> !((#[trigger] c[j]).seed == e.seed && c[j].bin == e.bin && c[j].node
                == e.node),
    ensures
        tcount(c.update(i, e), s, b, n) == if s == e.seed && b == e.bin && n == e.node {
            e.count as nat
        } else {
            tcount(c, s, b, n)
        },
    decreases i,
{
    let c2 = c.update(i, e);
    if i == 0 {
        assert(c2.drop_first() =~= c.drop_first());
    } else {
        assert forall|j: int|
            0 <= j < i - 1 implies !((#[trigger] c.drop_first()[j]).seed == e.seed
            && c.drop_first()[j].bin == e.bin && c.drop_first()[j].node == e.node) by {
            assert(c.drop_first()[j] == c[j + 1]);
        }
        lemma_tcount_update(c.drop_first(), i - 1, e, s, b, n);
        assert(c2.drop_first() =~= c.drop_first().update(i - 1, e));
        assert(c2[0] == c[0]);
    }
}

/// Appending an entry for a fresh triple leaves every other credit
/// alone.
pub proof fn lemma_tcount_push(c: Seq<ScaleCount>, e: ScaleCount, s: u64, b: nat, n: u64)
    requires
        forall|j: int|
            0 <= j < c.len() ==> !((#[trigger] c[j]).seed == e.seed && c[j].bin == e.bin
                && c[j].node == e.node),
    ensures
        tcount(c.push(e), s, b, n) == if s == e.seed && b == e.bin && n == e.node {
            e.count as nat
        } else {
            tcount(c, s, b, n)
        },
    decreases c.len(),
{
    let p = c.push(e);
    if c.len() == 0 {
        assert(p[0] == e);
        assert(p.drop_first() =~= Seq::<ScaleCount>::empty());
        assert(tcount(p.drop_first(), s, b, n) == 0);
        assert(tcount(p, s, b, n) == if p[0].seed == s && p[0].bin == b && p[0].node == n {
            p[0].count as nat
        } else {
            tcount(p.drop_first(), s, b, n)
        });
        assert(tcount(c, s, b, n) == 0);
    } else {
        assert forall|j: int|
            0 <= j < c.drop_first().len() implies !((#[trigger] c.drop_first()[j]).seed == e.seed
            && c.drop_first()[j].bin == e.bin && c.drop_first()[j].node == e.node) by {
            assert(c.drop_first()[j] == c[j + 1]);
        }
        lemma_tcount_push(c.drop_first(), e, s, b, n);
        assert(p.drop_first() =~= c.drop_first().push(e));
        assert(p[0] == c[0]);
        assert(!(c[0].seed == e.seed && c[0].bin == e.bin && c[0].node == e.node));
        assert(tcount(p, s, b, n) == if p[0].seed == s && p[0].bin == b && p[0].node == n {
            p[0].count as nat
        } else {
            tcount(p.drop_first(), s, b, n)
        });
        assert(tcount(c, s, b, n) == if c[0].seed == s && c[0].bin == b && c[0].node == n {
            c[0].count as nat
        } else {
            tcount(c.drop_first(), s, b, n)
        });
    }
}

/// Adds one to the credit of `(a, bin, b)`, touching nothing else.
fn bump_scale(v: &mut Vec<ScaleCount>, a: u64, bin: usize, b: u64)
    requires
        tkeys_unique(old(v)@),
        tpositive(old(v)@),
        tcount(old(v)@, a, bin as nat, b) < usize::MAX,
    ensures
        tkeys_unique(final(v)@),
        tpositive(final(v)@),
        forall|s: u64, bb: nat, n: u64| #[trigger]
            tcount(final(v)@, s, bb, n) == tcount(old(v)@, s, bb, n) + if s == a && bb == bin
                && n == b {
                1nat
            } else {
                0nat
            },
{
    let mut i: usize = 0;
    while i < v.len()
        invariant
            i <= v@.len(),
            v@ == old(v)@,
            tkeys_unique(old(v)@),
            tpositive(old(v)@),
            tcount(old(v)@, a, bin as nat, b) < usize::MAX,
            forall|j: int|
                0 <= j < i ==> !((#[trigger] v@[j]).seed == a && v@[j].bin == bin && v@[j].node
                    == b),
        decreases v@.len() - i,
    {
        if v[i].seed == a && v[i].bin == bin && v[i].node == b {
            proof {
                lemma_tcount_first(v@, i as int);
            }
            let c = v[i].count;
            assert(c < usize::MAX);
            v.set(i, ScaleCount { seed: a, bin, node: b, count: c + 1 });
            proof {
                assert forall|s: u64, bb: nat, n: u64| #[trigger]
                    tcount(v@, s, bb, n) == tcount(old(v)@, s, bb, n) + if s == a && bb == bin
                        && n == b {
                        1nat
                    } else {
                        0nat
                    } by {
                    lemma_tcount_update(old(v)@, i as int, v@[i as int], s, bb, n);
                }
                assert forall|p: int, q: int| #![trigger v@[p], v@[q]]
                    0 <= p < q < v@.len() implies !(v@[p].seed == v@[q].seed && v@[p].bin
                    == v@[q].bin && v@[p].node == v@[q].node) by {
                    assert(v@[p].seed == old(v)@[p].seed && v@[p].bin == old(v)@[p].bin
                        && v@[p].node == old(v)@[p].node);
                    assert(v@[q].seed == old(v)@[q].seed && v@[q].bin == old(v)@[q].bin
                        && v@[q].node == old(v)@[q].node);
                }
                assert forall|j: int| 0 <= j < v@.len() implies (#[trigger] v@[j]).count >= 1 by {
                    if j != i {
                        assert(v@[j] == old(v)@[j]);
                    }
                }
            }
            return ;
        }
        i += 1;
    }
    proof {
        lemma_tcount_absent(v@, a, bin as nat, b);
    }
    v.push(ScaleCount { seed: a, bin, node: b, count: 1 });
    proof {
        assert forall|s: u64, bb: nat, n: u64| #[trigger]
            tcount(v@, s, bb, n) == tcount(old(v)@, s, bb, n) + if s == a && bb == bin && n
                == b {
                1nat
            } else {
                0nat
            } by {
            lemma_tcount_push(old(v)@, ScaleCount { seed: a, bin, node: b, count: 1 }, s, bb, n);
        }
        assert forall|p: int, q: int| #![trigger v@[p], v@[q]]
            0 <= p < q < v@.len() implies !(v@[p].seed == v@[q].seed && v@[p].bin == v@[q].bin
            && v@[p].node == v@[q].node) by {
            if q == v@.len() - 1 {
                assert(!(old(v)@[p].seed == a && old(v)@[p].bin == bin && old(v)@[p].node == b));
            }
        }
    }
}

/// Adds `cnt` to the credit of `(a, bin, b)`, touching nothing else.
fn bump_scale_by(v: &mut Vec<ScaleCount>, a: u64, bin: usize, b: u64, cnt: usize)
    requires
        tkeys_unique(old(v)@),
        tpositive(old(v)@),
        cnt >= 1,
        tcount(old(v)@, a, bin as nat, b) + cnt <= usize::MAX,
    ensures
        tkeys_unique(final(v)@),
        tpositive(final(v)@),
        forall|s: u64, bb: nat, n: u64| #[trigger]
            tcount(final(v)@, s, bb, n) == tcount(old(v)@, s, bb, n) + if s == a && bb == bin
                && n == b {
                cnt as nat
            } else {
                0nat
            },
{
    let mut i: usize = 0;
    while i < v.len()
        invariant
            i <= v@.len(),
            v@ == old(v)@,
            tkeys_unique(old(v)@),
            tpositive(old(v)@),
            cnt >= 1,
            tcount(old(v)@, a, bin as nat, b) + cnt <= usize::MAX,
            forall|j: int|
                0 <= j < i ==> !((#[trigger] v@[j]).seed == a && v@[j].bin == bin && v@[j].node
                    == b),
        decreases v@.len() - i,
    {
        if v[i].seed == a && v[i].bin == bin && v[i].node == b {
            proof {
                lemma_tcount_first(v@, i as int);
            }
            let cur = v[i].count;
            assert(cur + cnt <= usize::MAX);
            v.set(i, ScaleCount { seed: a, bin, node: b, count: cur + cnt });
            proof {
                assert forall|s: u64, bb: nat, n: u64| #[trigger]
                    tcount(v@, s, bb, n) == tcount(old(v)@, s, bb, n) + if s == a && bb == bin
                        && n == b {
                        cnt as nat
                    } else {
                        0nat
                    } by {
                    lemma_tcount_update(old(v)@, i as int, v@[i as int], s, bb, n);
                }
                assert forall|p: int, q: int| #![trigger v@[p], v@[q]]
                    0 <= p < q < v@.len() implies !(v@[p].seed == v@[q].seed && v@[p].bin
                    == v@[q].bin && v@[p].node == v@[q].node) by {
                    assert(v@[p].seed == old(v)@[p].seed && v@[p].bin == old(v)@[p].bin
                        && v@[p].node == old(v)@[p].node);
                    assert(v@[q].seed == old(v)@[q].seed && v@[q].bin == old(v)@[q].bin
                        && v@[q].node == old(v)@[q].node);
                }
                assert forall|j: int| 0 <= j < v@.len() implies (#[trigger] v@[j]).count >= 1 by {
                    if j != i {
                        assert(v@[j] == old(v)@[j]);
                    }
                }
            }
            return ;
        }
        i += 1;
    }
    proof {
        lemma_tcount_absent(v@, a, bin as nat, b);
    }
    v.push(ScaleCount { seed: a, bin, node: b, count: cnt });
    proof {
        assert forall|s: u64, bb: nat, n: u64| #[trigger]
            tcount(v@, s, bb, n) == tcount(old(v)@, s, bb, n) + if s == a && bb == bin && n
                == b {
                cnt as nat
            } else {
                0nat
            } by {
            lemma_tcount_push(old(v)@, ScaleCount { seed: a, bin, node: b, count: cnt }, s, bb, n);
        }
        assert forall|p: int, q: int| #![trigger v@[p], v@[q]]
            0 <= p < q < v@.len() implies !(v@[p].seed == v@[q].seed && v@[p].bin == v@[q].bin
            && v@[p].node == v@[q].node) by {
            if q == v@.len() - 1 {
                assert(!(old(v)@[p].seed == a && old(v)@[p].bin == bin && old(v)@[p].node == b));
            }
        }
    }
}

/// Adds every credit of `src` into `dst`: the join-barrier step of
/// accumulating independently produced scaled counters by plain
/// addition.
pub fn merge_scale_counts(dst: &mut Vec<ScaleCount>, src: &Vec<ScaleCount>)
    requires
        tkeys_unique(old(dst)@),
        tpositive(old(dst)@),
        tkeys_unique(src@),
        tpositive(src@),
        forall|s: u64, bb: nat, n: u64| #[trigger]
            tcount(old(dst)@, s, bb, n) + tcount(src@, s, bb, n) <= usize::MAX,
    ensures
        tkeys_unique(final(dst)@),
        tpositive(final(dst)@),
        forall|s: u64, bb: nat, n: u64| #[trigger]
            tcount(final(dst)@, s, bb, n) == tcount(old(dst)@, s, bb, n) + tcount(src@, s, bb, n),
{
    let mut j: usize = 0;
    while j < src.len()
        invariant
            j <= src@.len(),
            tkeys_unique(dst@),
            tpositive(dst@),
            tkeys_unique(src@),
            tpositive(src@),
            forall|s: u64, bb: nat, n: u64| #[trigger]
                tcount(old(dst)@, s, bb, n) + tcount(src@, s, bb, n) <= usize::MAX,
            forall|s: u64, bb: nat, n: u64| #[trigger]
                tcount(dst@, s, bb, n) == tcount(old(dst)@, s, bb, n) + tcount(
                    src@.take(j as int),
                    s,
                    bb,
                    n,
                ),
        decreases src@.len() - j,
    {
        let e_seed = src[j].seed;
        let e_bin = src[j].bin;
        let e_node = src[j].node;
        let e_count = src[j].count;
        proof {
            lemma_tcount_entry(src@, j as int);
            assert forall|j2: int|
                0 <= j2 < src@.take(j as int).len() implies !((#[trigger] src@.take(j as int)[
            j2]).seed == e_seed && src@.take(j as int)[j2].bin == e_bin && src@.take(
                j as int,
            )[j2].node == e_node) by {
                assert(src@.take(j as int)[j2] == src@[j2]);
            }
            lemma_tcount_absent(src@.take(j as int), e_seed, e_bin as nat, e_node);
            assert(tcount(dst@, e_seed, e_bin as nat, e_node) == tcount(
                old(dst)@,
                e_seed,
                e_bin as nat,
                e_node,
            ));
            assert(tcount(dst@, e_seed, e_bin as nat, e_node) + e_count <= usize::MAX);
        }
        bump_scale_by(dst, e_seed, e_bin, e_node, e_count);
        proof {
            assert(src@.take(j + 1) =~= src@.take(j as int).push(src@[j as int]));
            assert forall|s: u64, bb: nat, n: u64| #[trigger]
                tcount(dst@, s, bb, n) == tcount(old(dst)@, s, bb, n) + tcount(
                src@.take(j + 1),
                s,
                bb,
                n,
            ) by {
                lemma_tcount_push(src@.take(j as int), src@[j as int], s, bb, n);
            }
        }
        j += 1;
    }
    proof {
        assert(src@.take(src@.len() as int) =~= src@);
    }
}

/// The credits for `(s, n)` accumulated over the `kk` bins starting at
/// `kmin`: what the cumulative merge has gathered after `kk` scales.
pub open spec fn cum(c: Seq<ScaleCount>, s: u64, kmin: nat, kk: nat, n: u64) -> nat
    decreases kk,
{
    if kk == 0 {
        0
    } else {
        cum(c, s, kmin, (kk - 1) as nat, n) + tcount(c, s, (kmin + kk - 1) as nat, n)
    }
}

/// The accumulated raw counts only grow as further scales are merged
/// in: the count gathered through `kk` bins never exceeds the count
/// gathered through `kk + 1`, for every seed, node and starting bin.
pub proof fn lemma_cum_monotone(c: Seq<ScaleCount>, s: u64, kmin: nat, kk: nat, n: u64)
    ensures
        cum(c, s, kmin, kk, n) <= cum(c, s, kmin, (kk + 1) as nat, n),
{
}

/// One credit at bin `b0` raises an accumulated count by one exactly
/// when that bin lies in the accumulated range.
proof fn lemma_cum_bump_one(
    cold: Seq<ScaleCount>,
    cnew: Seq<ScaleCount>,
    s0: u64,
    b0: nat,
    n0: u64,
    s: u64,
    kmin: nat,
    kk: nat,
    n: u64,
)
    requires
        forall|s2: u64, bb: nat, n2: u64| #[trigger]
            tcount(cnew, s2, bb, n2) == tcount(cold, s2, bb, n2) + (if s2 == s0 && bb == b0 && n2
                == n0 {
                1nat
            } else {
                0nat
            }),
    ensures
        cum(cnew, s, kmin, kk, n) == cum(cold, s, kmin, kk, n) + (if s == s0 && n == n0 && kmin
            <= b0 < kmin + kk {
            1nat
        } else {
            0nat
        }),
    decreases kk,
{
    if kk > 0 {
        lemma_cum_bump_one(cold, cnew, s0, b0, n0, s, kmin, (kk - 1) as nat, n);
        assert(tcount(cnew, s, (kmin + kk - 1) as nat, n) == tcount(
            cold,
            s,
            (kmin + kk - 1) as nat,
            n,
        ) + (if s == s0 && kmin + kk - 1 == b0 && n == n0 {
            1nat
        } else {
            0nat
        }));
    }
}

/// The quantified form of `lemma_cum_bump_one`.
proof fn lemma_cum_bump(cold: Seq<ScaleCount>, cnew: Seq<ScaleCount>, s0: u64, b0: nat, n0: u64)
    requires
        forall|s2: u64, bb: nat, n2: u64| #[trigger]
            tcount(cnew, s2, bb, n2) == tcount(cold, s2, bb, n2) + (if s2 == s0 && bb == b0 && n2
                == n0 {
                1nat
            } else {
                0nat
            }),
    ensures
        forall|s: u64, kmin: nat, kk: nat, n: u64| #[trigger]
            cum(cnew, s, kmin, kk, n) == cum(cold, s, kmin, kk, n) + (if s == s0 && n == n0
                && kmin <= b0 < kmin + kk {
                1nat
            } else {
                0nat
            }),
{
    assert forall|s: u64, kmin: nat, kk: nat, n: u64| #[trigger]
        cum(cnew, s, kmin, kk, n) == cum(cold, s, kmin, kk, n) + (if s == s0 && n == n0 && kmin
            <= b0 < kmin + kk {
            1nat
        } else {
            0nat
        }) by {
        lemma_cum_bump_one(cold, cnew, s0, b0, n0, s, kmin, kk, n);
    }
}

/// Two to the power `k`.
pub open spec fn pow2(k: nat) -> nat
    decreases k,
{
    if k == 0 {
        1
    } else {
        2 * pow2((k - 1) as nat)
    }
}

pub proof fn lemma_pow2_mono(j: nat, k: nat)
    requires
        j <= k,
    ensures
        1 <= pow2(j) <= pow2(k),
    decreases k,
{
    if k > 0 {
        if j == k {
            lemma_pow2_mono(0, (k - 1) as nat);
        } else {
            lemma_pow2_mono(j, (k - 1) as nat);
        }
    }
}

/// Computes two to the power `k`.
pub fn pow2_exec(k: usize) -> (r: usize)
    requires
        pow2(k as nat) < usize::MAX,
    ensures
        r as nat == pow2(k as nat),
{
    let mut i: usize = 0;
    let mut r: usize = 1;
    while i < k
        invariant
            i <= k,
            r as nat == pow2(i as nat),
            pow2(k as nat) < usize::MAX,
        decreases k - i,
    {
        proof {
            lemma_pow2_mono((i + 1) as nat, k as nat);
        }
        i += 1;
        r = r * 2;
    }
    r
}

/// The scale bin for a window whose elapsed time is `elapsed`: the
/// ceiling of the base-two logarithm, clamped below at `log2_min` and
/// above at `log2_max + 1`.  (A credit past the coarsest scale lands
/// in a bin the output never reads.)
fn bin_for(elapsed: usize, log2_min: usize, log2_max: usize) -> (r: usize)
    requires
        1 <= elapsed,
        log2_min <= log2_max,
        log2_max < usize::MAX,
        pow2(log2_max as nat) < usize::MAX,
    ensures
        log2_min <= r <= log2_max + 1,
        r > log2_min ==> pow2((r - 1) as nat) < elapsed as nat,
        r <= log2_max ==> elapsed as nat <= pow2(r as nat),
{
    let mut k: usize = 0;
    let mut p: usize = 1;
    while k < log2_max && p < elapsed
        invariant
            p as nat == pow2(k as nat),
            k <= log2_max,
            log2_max < usize::MAX,
            pow2(log2_max as nat) < usize::MAX,
            k > 0 ==> pow2((k - 1) as nat) < elapsed as nat,
        decreases log2_max - k,
    {
        proof {
            lemma_pow2_mono((k + 1) as nat, log2_max as nat);
        }
        k += 1;
        p = p * 2;
    }
    let kk = if p < elapsed {
        log2_max + 1
    } else {
        k
    };
    if kk < log2_min {
        proof {
            lemma_pow2_mono(kk as nat, log2_min as nat);
        }
        log2_min
    } else {
        kk
    }
}

/// One tick of the scaled simulation: every open window is advanced,
/// credited for the new position `next` under its own scale bin, and
/// closed once its elapsed time exceeds the coarsest window `wb`.
fn advance_scaled(
    counter: &mut Vec<ScaleCount>,
    active: &Vec<Window>,
    next: u64,
    log2_min: usize,
    log2_max: usize,
    wb: usize,
) -> (na: Vec<Window>)
    requires
        tkeys_unique(old(counter)@),
        tpositive(old(counter)@),
        log2_min <= log2_max,
        log2_max < usize::MAX,
        pow2(log2_max as nat) < usize::MAX,
        wb as nat == pow2(log2_max as nat),
        forall|i: int, j: int| #![trigger active@[i], active@[j]]
            0 <= i < j < active@.len() ==> active@[i].seed != active@[j].seed,
        forall|i: int| 0 <= i < active@.len() ==> (#[trigger] active@[i]).elapsed <= wb,
        forall|i: int, bb: nat|
            0 <= i < active@.len() ==> #[trigger] tcount(
                old(counter)@,
                active@[i].seed,
                bb,
                next,
            ) < usize::MAX,
    ensures
        tkeys_unique(final(counter)@),
        tpositive(final(counter)@),
        forall|s: u64, bb: nat, n: u64| #[trigger]
            tcount(final(counter)@, s, bb, n) >= tcount(old(counter)@, s, bb, n),
        forall|s: u64, bb: nat, n: u64| #[trigger]
            tcount(final(counter)@, s, bb, n) <= tcount(old(counter)@, s, bb, n) + 1,
        forall|s: u64, bb: nat, n: u64| #[trigger]
            tcount(final(counter)@, s, bb, n) > tcount(old(counter)@, s, bb, n) ==> n == next
                && active_has(active@, s) && log2_min <= bb <= log2_max + 1,
        forall|s: u64, bb: nat, n: u64|
            !active_has(active@, s) ==> #[trigger] tcount(final(counter)@, s, bb, n) == tcount(
                old(counter)@,
                s,
                bb,
                n,
            ),
        forall|s: u64, kmin: nat, kk: nat, n: u64| #[trigger]
            cum(final(counter)@, s, kmin, kk, n) >= cum(old(counter)@, s, kmin, kk, n),
        forall|s: u64, kmin: nat, kk: nat, n: u64| #[trigger]
            cum(final(counter)@, s, kmin, kk, n) <= cum(old(counter)@, s, kmin, kk, n) + (if n
                == next && active_has(active@, s) {
                1nat
            } else {
                0nat
            }),
        forall|i: int|
            0 <= i < active@.len() && (#[trigger] active@[i]).elapsed == 0 ==> tcount(
                final(counter)@,
                active@[i].seed,
                log2_min as nat,
                next,
            ) > tcount(old(counter)@, active@[i].seed, log2_min as nat, next),
        forall|p: int| 0 <= p < na@.len() ==> advanced_entry(na@, active@, active@.len() as int, p),
        forall|p: int| 0 <= p < na@.len() ==> 1 <= (#[trigger] na@[p]).elapsed <= wb,
        forall|p: int, q: int| #![trigger na@[p], na@[q]]
            0 <= p < q < na@.len() ==> na@[p].seed != na@[q].seed,
{
    let mut na: Vec<Window> = Vec::new();
    let mut j: usize = 0;
    while j < active.len()
        invariant
            j <= active@.len(),
            tkeys_unique(counter@),
            tpositive(counter@),
            log2_min <= log2_max,
            log2_max < usize::MAX,
            pow2(log2_max as nat) < usize::MAX,
            wb as nat == pow2(log2_max as nat),
            forall|i2: int, j2: int| #![trigger active@[i2], active@[j2]]
                0 <= i2 < j2 < active@.len() ==> active@[i2].seed != active@[j2].seed,
            forall|i2: int| 0 <= i2 < active@.len() ==> (#[trigger] active@[i2]).elapsed <= wb,
            forall|i2: int, bb: nat|
                0 <= i2 < active@.len() ==> #[trigger] tcount(
                    old(counter)@,
                    active@[i2].seed,
                    bb,
                    next,
                ) < usize::MAX,
            forall|s: u64, bb: nat, n: u64| #[trigger]
                tcount(counter@, s, bb, n) >= tcount(old(counter)@, s, bb, n),
            forall|s: u64, bb: nat, n: u64| #[trigger]
                tcount(counter@, s, bb, n) <= tcount(old(counter)@, s, bb, n) + 1,
            forall|s: u64, bb: nat, n: u64| #[trigger]
                tcount(counter@, s, bb, n) > tcount(old(counter)@, s, bb, n) ==> n == next
                    && prefix_has(active@, j as int, s) && log2_min <= bb <= log2_max + 1,
            forall|s: u64, bb: nat, n: u64|
                !prefix_has(active@, j as int, s) ==> #[trigger] tcount(counter@, s, bb, n)
                    == tcount(old(counter)@, s, bb, n),
            forall|s: u64, kmin: nat, kk: nat, n: u64| #[trigger]
                cum(counter@, s, kmin, kk, n) >= cum(old(counter)@, s, kmin, kk, n),
            forall|s: u64, kmin: nat, kk: nat, n: u64| #[trigger]
                cum(counter@, s, kmin, kk, n) <= cum(old(counter)@, s, kmin, kk, n) + (if n
                    == next && prefix_has(active@, j as int, s) {
                    1nat
                } else {
                    0nat
                }),
            forall|i2: int|
                0 <= i2 < j && (#[trigger] active@[i2]).elapsed == 0 ==> tcount(
                    counter@,
                    active@[i2].seed,
                    log2_min as nat,
                    next,
                ) > tcount(old(counter)@, active@[i2].seed, log2_min as nat, next),
            forall|p: int| 0 <= p < na@.len() ==> advanced_entry(na@, active@, j as int, p),
            forall|p: int| 0 <= p < na@.len() ==> 1 <= (#[trigger] na@[p]).elapsed <= wb,
            forall|p: int, q: int| #![trigger na@[p], na@[q]]
                0 <= p < q < na@.len() ==> na@[p].seed != na@[q].seed,
        decreases active@.len() - j,
    {
        let w_seed = active[j].seed;
        let w_elapsed = active[j].elapsed;
        proof {
            assert(!prefix_has(active@, j as int, w_seed)) by {
                if prefix_has(active@, j as int, w_seed) {
                    let i = choose|i: int| 0 <= i < j && (#[trigger] active@[i]).seed == w_seed;
                    assert(active@[i].seed != active@[j as int].seed);
                }
            }
            assert(w_elapsed + 1 <= wb + 1);
        }
        let bin = bin_for(w_elapsed + 1, log2_min, log2_max);
        proof {
            assert(tcount(counter@, w_seed, bin as nat, next) == tcount(
                old(counter)@,
                w_seed,
                bin as nat,
                next,
            ));
        }
        let ghost mid = counter@;
        let ghost na_before = na@;
        bump_scale(counter, w_seed, bin, next);
        if w_elapsed + 1 <= wb {
            na.push(Window { seed: w_seed, elapsed: w_elapsed + 1 });
        }
        proof {
            assert forall|s: u64, bb: nat, n: u64| #[trigger]
                tcount(counter@, s, bb, n) > tcount(old(counter)@, s, bb, n) implies n == next
                && prefix_has(active@, j + 1, s) && log2_min <= bb <= log2_max + 1 by {
                assert(tcount(counter@, s, bb, n) == tcount(mid, s, bb, n) + (if s == w_seed && bb
                    == bin && n == next {
                    1nat
                } else {
                    0nat
                }));
                if tcount(mid, s, bb, n) > tcount(old(counter)@, s, bb, n) {
                    assert(prefix_has(active@, j as int, s));
                    let i = choose|i: int| 0 <= i < j && (#[trigger] active@[i]).seed == s;
                    assert(prefix_has(active@, j + 1, s));
                } else {
                    assert(s == w_seed && bb == bin && n == next);
                    assert((#[trigger] active@[j as int]).seed == s);
                    assert(prefix_has(active@, j + 1, s));
                }
            }
            assert forall|s: u64, bb: nat, n: u64|
                !prefix_has(active@, j + 1, s) implies #[trigger] tcount(counter@, s, bb, n)
                == tcount(old(counter)@, s, bb, n) by {
                assert(!prefix_has(active@, j as int, s)) by {
                    if prefix_has(active@, j as int, s) {
                        let i = choose|i: int| 0 <= i < j && (#[trigger] active@[i]).seed == s;
                        assert(prefix_has(active@, j + 1, s));
                    }
                }
                assert(s != w_seed) by {
                    if s == w_seed {
                        assert((#[trigger] active@[j as int]).seed == s);
                        assert(prefix_has(active@, j + 1, s));
                    }
                }
            }
            assert forall|s: u64, bb: nat, n: u64| #[trigger]
                tcount(counter@, s, bb, n) <= tcount(old(counter)@, s, bb, n) + 1 by {
                if s == w_seed && bb == bin && n == next {
                    assert(tcount(mid, s, bb, n) == tcount(old(counter)@, s, bb, n));
                }
            }
            lemma_cum_bump(mid, counter@, w_seed, bin as nat, next);
            assert forall|s2: u64, kmin: nat, kk: nat, n: u64| #[trigger]
                cum(counter@, s2, kmin, kk, n) <= cum(old(counter)@, s2, kmin, kk, n) + (if n
                    == next && prefix_has(active@, j + 1, s2) {
                    1nat
                } else {
                    0nat
                }) by {
                if s2 == w_seed {
                    assert(cum(mid, s2, kmin, kk, n) <= cum(old(counter)@, s2, kmin, kk, n) + (
                    if n == next && prefix_has(active@, j as int, s2) {
                        1nat
                    } else {
                        0nat
                    }));
                    assert(!prefix_has(active@, j as int, s2));
                    if n == next {
                        assert((#[trigger] active@[j as int]).seed == s2);
                        assert(prefix_has(active@, j + 1, s2));
                    }
                } else {
                    if prefix_has(active@, j as int, s2) {
                        let i = choose|i: int| 0 <= i < j && (#[trigger] active@[i]).seed == s2;
                        assert(prefix_has(active@, j + 1, s2));
                    }
                }
            }
            if w_elapsed == 0 {
                assert(bin == log2_min) by {
                    if bin > log2_min {
                        lemma_pow2_mono(0, (bin - 1) as nat);
                    }
                }
                assert(tcount(counter@, w_seed, log2_min as nat, next) > tcount(
                    old(counter)@,
                    w_seed,
                    log2_min as nat,
                    next,
                ));
            }
            assert forall|i2: int|
                0 <= i2 < j + 1 && (#[trigger] active@[i2]).elapsed == 0 implies tcount(
                counter@,
                active@[i2].seed,
                log2_min as nat,
                next,
            ) > tcount(old(counter)@, active@[i2].seed, log2_min as nat, next) by {
                if i2 < j {
                    assert(tcount(counter@, active@[i2].seed, log2_min as nat, next) >= tcount(
                        mid,
                        active@[i2].seed,
                        log2_min as nat,
                        next,
                    ));
                }
            }
            let ghost j1: int = j + 1;
            assert forall|p: int|
                0 <= p < na@.len() implies advanced_entry(na@, active@, j1, p) by {
                if p < na_before.len() {
                    assert(na@[p] == na_before[p]);
                    assert(advanced_entry(na_before, active@, j as int, p));
                    let i = choose|i: int|
                        0 <= i < j && (#[trigger] active@[i]).seed == na_before[p].seed
                            && na_before[p].elapsed == active@[i].elapsed + 1;
                    assert(0 <= i < j + 1 && active@[i].seed == na@[p].seed && na@[p].elapsed
                        == active@[i].elapsed + 1);
                } else {
                    assert((#[trigger] active@[j as int]).seed == na@[p].seed && na@[p].elapsed
                        == active@[j as int].elapsed + 1);
                }
            }
            assert forall|p: int, q: int| #![trigger na@[p], na@[q]]
                0 <= p < q < na@.len() implies na@[p].seed != na@[q].seed by {
                if q >= na_before.len() {
                    assert(na@[p] == na_before[p]);
                    assert(advanced_entry(na_before, active@, j as int, p));
                    let i = choose|i: int|
                        0 <= i < j && (#[trigger] active@[i]).seed == na_before[p].seed
                            && na_before[p].elapsed == active@[i].elapsed + 1;
                    assert(active@[i].seed != active@[j as int].seed);
                } else {
                    assert(na@[p] == na_before[p] && na@[q] == na_before[q]);
                }
            }
        }
        j += 1;
    }
    proof {
        assert forall|s: u64, bb: nat, n: u64| #[trigger]
            tcount(counter@, s, bb, n) > tcount(old(counter)@, s, bb, n) implies n == next
            && active_has(active@, s) && log2_min <= bb <= log2_max + 1 by {
            assert(prefix_has(active@, j as int, s) == active_has(active@, s));
        }
        assert forall|s: u64, bb: nat, n: u64|
            !active_has(active@, s) implies #[trigger] tcount(counter@, s, bb, n) == tcount(
            old(counter)@,
            s,
            bb,
            n,
        ) by {
            assert(prefix_has(active@, j as int, s) == active_has(active@, s));
        }
        assert forall|s: u64, kmin: nat, kk: nat, n: u64| #[trigger]
            cum(counter@, s, kmin, kk, n) <= cum(old(counter)@, s, kmin, kk, n) + (if n == next
                && active_has(active@, s) {
                1nat
            } else {
                0nat
            }) by {
            assert(prefix_has(active@, j as int, s) == active_has(active@, s));
        }
        assert forall|p: int|
            0 <= p < na@.len() implies advanced_entry(na@, active@, active@.len() as int, p) by {
            assert(advanced_entry(na@, active@, j as int, p));
        }
    }
    na
}

/// One full scaled trial: as in the unscaled simulator, but a window
/// stays open until its elapsed time exceeds `wb`, the coarsest
/// window, and each credit carries a scale bin.  Whatever the random
/// choices, every per-bin credit grows by at most `wb + 1`, and only
/// triples whose bin lies in the produced range and whose node lies
/// within `wb + 1` steps of their seed grow at all.
pub fn scale_trial(
    graph: &Graph,
    seeds: &Vec<u64>,
    log2_min: usize,
    log2_max: usize,
    wb: usize,
    counter: &mut Vec<ScaleCount>,
)
    requires
        wf(graph@),
        log2_min <= log2_max,
        log2_max < usize::MAX,
        pow2(log2_max as nat) < usize::MAX,
        wb as nat == pow2(log2_max as nat),
        tkeys_unique(old(counter)@),
        tpositive(old(counter)@),
        forall|s: u64, bb: nat, n: u64| #[trigger]
            tcount(old(counter)@, s, bb, n) + wb + 1 <= usize::MAX,
    ensures
        tkeys_unique(final(counter)@),
        tpositive(final(counter)@),
        forall|s: u64, bb: nat, n: u64| #[trigger]
            tcount(final(counter)@, s, bb, n) >= tcount(old(counter)@, s, bb, n),
        forall|s: u64, bb: nat, n: u64| #[trigger]
            tcount(final(counter)@, s, bb, n) <= tcount(old(counter)@, s, bb, n) + wb + 1,
        forall|s: u64, bb: nat, n: u64| #[trigger]
            tcount(final(counter)@, s, bb, n) > tcount(old(counter)@, s, bb, n)
                ==> seeds@.contains(s) && reach(graph@, s, (wb + 1) as nat).contains(n) && log2_min
                <= bb <= log2_max + 1,
        forall|s: u64, kmin: nat, kk: nat, n: u64| #[trigger]
            cum(final(counter)@, s, kmin, kk, n) >= cum(old(counter)@, s, kmin, kk, n),
        forall|s: u64, kmin: nat, kk: nat, n: u64| #[trigger]
            cum(final(counter)@, s, kmin, kk, n) <= cum(old(counter)@, s, kmin, kk, n) + wb + 1,
        forall|s: u64| #![trigger seeds@.contains(s)]
            seeds@.contains(s) && graph@.contains_key(s) && graph@[s].len() > 0 ==> exists|n: u64|
                tcount(final(counter)@, s, log2_min as nat, n) > tcount(
                    old(counter)@,
                    s,
                    log2_min as nat,
                    n,
                ),
{
    let mut pending = dedup_seeds(seeds);
    let mut active: Vec<Window> = Vec::new();
    let mut cursor: u64 = 0;
    let ghost c0 = counter@;
    loop
        invariant
            wf(graph@),
            log2_min <= log2_max,
            log2_max < usize::MAX,
            pow2(log2_max as nat) < usize::MAX,
            wb as nat == pow2(log2_max as nat),
            tkeys_unique(counter@),
            tpositive(counter@),
            forall|s: u64, bb: nat, n: u64| #[trigger]
                tcount(c0, s, bb, n) + wb + 1 <= usize::MAX,
            c0 == old(counter)@,
            pending@.no_duplicates(),
            forall|x: u64| #[trigger] pending@.contains(x) ==> seeds@.contains(x),
            forall|i: int| 0 <= i < active@.len() ==> seeds@.contains((#[trigger] active@[i]).seed),
            forall|i: int, j: int| #![trigger active@[i], active@[j]]
                0 <= i < j < active@.len() ==> active@[i].seed != active@[j].seed,
            forall|i: int|
                0 <= i < active@.len() ==> !pending@.contains((#[trigger] active@[i]).seed),
            forall|i: int| 0 <= i < active@.len() ==> (#[trigger] active@[i]).elapsed <= wb,
            forall|i: int|
                0 <= i < active@.len() ==> ((#[trigger] active@[i]).elapsed == 0 ==> active@[i].seed
                    == cursor),
            forall|i: int|
                0 <= i < active@.len() ==> ((#[trigger] active@[i]).elapsed > 0 ==> reach(
                    graph@,
                    active@[i].seed,
                    active@[i].elapsed as nat,
                ).contains(cursor)),
            active@.len() > 0 ==> ((graph@.contains_key(cursor) && graph@[cursor].len() > 0) || (
            active@.len() == 1 && active@[0].seed == cursor)),
            forall|s: u64, bb: nat, n: u64| #[trigger]
                tcount(counter@, s, bb, n) >= tcount(c0, s, bb, n),
            forall|s: u64, bb: nat, n: u64|
                pending@.contains(s) ==> #[trigger] tcount(counter@, s, bb, n) == tcount(
                    c0,
                    s,
                    bb,
                    n,
                ),
            forall|i: int, bb: nat, n: u64|
                0 <= i < active@.len() ==> #[trigger] tcount(counter@, active@[i].seed, bb, n)
                    <= tcount(c0, active@[i].seed, bb, n) + active@[i].elapsed,
            forall|s: u64, bb: nat, n: u64| #[trigger]
                tcount(counter@, s, bb, n) <= tcount(c0, s, bb, n) + wb + 1,
            forall|s: u64, bb: nat, n: u64| #[trigger]
                tcount(counter@, s, bb, n) > tcount(c0, s, bb, n) ==> seeds@.contains(s) && reach(
                    graph@,
                    s,
                    (wb + 1) as nat,
                ).contains(n) && log2_min <= bb <= log2_max + 1,
            forall|s: u64, kmin: nat, kk: nat, n: u64| #[trigger]
                cum(counter@, s, kmin, kk, n) >= cum(c0, s, kmin, kk, n),
            forall|s: u64, kmin: nat, kk: nat, n: u64|
                pending@.contains(s) ==> #[trigger] cum(counter@, s, kmin, kk, n) == cum(
                    c0,
                    s,
                    kmin,
                    kk,
                    n,
                ),
            forall|i: int, kmin: nat, kk: nat, n: u64|
                0 <= i < active@.len() ==> #[trigger] cum(counter@, active@[i].seed, kmin, kk, n)
                    <= cum(c0, active@[i].seed, kmin, kk, n) + active@[i].elapsed,
            forall|s: u64, kmin: nat, kk: nat, n: u64| #[trigger]
                cum(counter@, s, kmin, kk, n) <= cum(c0, s, kmin, kk, n) + wb + 1,
            forall|s: u64| #![trigger seeds@.contains(s)]
                seeds@.contains(s) && graph@.contains_key(s) && graph@[s].len() > 0
                    ==> pending@.contains(s) || (exists|i: int|
                    0 <= i < active@.len() && (#[trigger] active@[i]).seed == s
                        && active@[i].elapsed == 0) || exists|n: u64|
                    tcount(counter@, s, log2_min as nat, n) > tcount(c0, s, log2_min as nat, n),
        ensures
            active@.len() == 0,
            pending@.len() == 0,
        decreases pending@.len(), max_rem(active@, wb as nat),
    {
        let ghost head_pending = pending@;
        let ghost head_active = active@;
        if active.len() == 0 {
            if pending.len() == 0 {
                break ;
            }
            let s = match pending.pop() {
                Some(s) => s,
                None => 0,
            };
            proof {
                assert(head_pending[head_pending.len() - 1] == s);
                assert(head_pending.contains(s));
                assert forall|i2: int, j2: int| #![trigger pending@[i2], pending@[j2]]
                    0 <= i2 < j2 < pending@.len() implies pending@[i2] != pending@[j2] by {
                    assert(head_pending[i2] == pending@[i2]);
                    assert(head_pending[j2] == pending@[j2]);
                }
                assert(!pending@.contains(s)) by {
                    if pending@.contains(s) {
                        let i = choose|i: int| 0 <= i < pending@.len() && pending@[i] == s;
                        assert(head_pending[i] == s);
                    }
                }
                assert forall|x: u64| #[trigger] pending@.contains(x) implies head_pending.contains(
                    x,
                ) && seeds@.contains(x) by {
                    let i = choose|i: int| 0 <= i < pending@.len() && pending@[i] == x;
                    assert(head_pending[i] == x);
                }
                assert forall|x: u64|
                    head_pending.contains(x) && x != s implies #[trigger] pending@.contains(
                    x,
                ) by {
                    let i = choose|i: int| 0 <= i < head_pending.len() && head_pending[i] == x;
                    assert(i < head_pending.len() - 1);
                    assert(pending@[i] == x);
                }
            }
            cursor = s;
            active.push(Window { seed: s, elapsed: 0 });
            proof {
                assert(active@.len() == 1 && active@[0].seed == s && active@[0].elapsed == 0);
                assert(seeds@.contains(s));
                assert forall|bb: nat, n: u64| #[trigger]
                    tcount(counter@, s, bb, n) == tcount(c0, s, bb, n) by {
                    assert(head_pending.contains(s));
                }
                assert forall|kmin: nat, kk: nat, n: u64| #[trigger]
                    cum(counter@, s, kmin, kk, n) == cum(c0, s, kmin, kk, n) by {
                    assert(head_pending.contains(s));
                }
            }
        }
        // Whether or not a reseed just happened, every seed with a
        // usable adjacency list is still pending, has a just-opened
        // window, or has already been credited at the finest bin.
        proof {
            assert forall|s2: u64| #![trigger seeds@.contains(s2)]
                seeds@.contains(s2) && graph@.contains_key(s2) && graph@[s2].len() > 0 implies
                pending@.contains(s2) || (exists|i: int|
                    0 <= i < active@.len() && (#[trigger] active@[i]).seed == s2
                        && active@[i].elapsed == 0) || exists|n: u64|
                    tcount(counter@, s2, log2_min as nat, n) > tcount(
                        c0,
                        s2,
                        log2_min as nat,
                        n,
                    ) by {
                if !pending@.contains(s2) {
                    if head_pending.contains(s2) {
                        assert((#[trigger] active@[0]).seed == s2 && active@[0].elapsed == 0);
                    } else if exists|i: int|
                        0 <= i < head_active.len() && (#[trigger] head_active[i]).seed == s2
                            && head_active[i].elapsed == 0 {
                        let i = choose|i: int|
                            0 <= i < head_active.len() && (#[trigger] head_active[i]).seed == s2
                                && head_active[i].elapsed == 0;
                        assert((#[trigger] active@[i]).seed == s2 && active@[i].elapsed == 0);
                    }
                }
            }
        }
        proof {
            assert forall|i: int, bb: nat, n: u64|
                0 <= i < active@.len() implies #[trigger] tcount(
                counter@,
                active@[i].seed,
                bb,
                n,
            ) <= tcount(c0, active@[i].seed, bb, n) + active@[i].elapsed by {
                if active@.len() == 1 && active@[0].elapsed == 0 {
                }
            }
            assert forall|i: int, kmin: nat, kk: nat, n: u64|
                0 <= i < active@.len() implies #[trigger] cum(
                counter@,
                active@[i].seed,
                kmin,
                kk,
                n,
            ) <= cum(c0, active@[i].seed, kmin, kk, n) + active@[i].elapsed by {
                if active@.len() == 1 && active@[0].elapsed == 0 {
                }
            }
        }
        let is_dead = match graph.nodes.get(&cursor) {
            Some(nei) => nei.len() == 0,
            None => true,
        };
        if is_dead {
            // The cursor is stranded; by the viability invariant its own
            // window is the only open one, so closing it empties the set.
            let ghost mid_pending = pending@;
            let ghost mid_active = active@;
            proof {
                assert(active@.len() == 1 && active@[0].seed == cursor);
                if head_pending.len() == pending@.len() {
                    assert(head_active == active@);
                    lemma_max_rem_ge(head_active, wb as nat, 0);
                    assert(win_rem(head_active[0], wb as nat) >= 1);
                }
            }
            active.clear();
            proof {
                // The closed window's seed has no usable list, so the
                // viable seeds keep their pending or credited standing.
                assert forall|s2: u64| #![trigger seeds@.contains(s2)]
                    seeds@.contains(s2) && graph@.contains_key(s2) && graph@[s2].len()
                    > 0 implies pending@.contains(s2) || (exists|i: int|
                    0 <= i < active@.len() && (#[trigger] active@[i]).seed == s2
                        && active@[i].elapsed == 0) || exists|n: u64|
                    tcount(counter@, s2, log2_min as nat, n) > tcount(
                        c0,
                        s2,
                        log2_min as nat,
                        n,
                    ) by {
                    if !pending@.contains(s2) {
                        if exists|i: int|
                            0 <= i < mid_active.len() && (#[trigger] mid_active[i]).seed == s2
                                && mid_active[i].elapsed == 0 {
                            let i = choose|i: int|
                                0 <= i < mid_active.len() && (#[trigger] mid_active[i]).seed
                                    == s2 && mid_active[i].elapsed == 0;
                            assert(s2 == cursor);
                        }
                    }
                }
            }
        } else {
            let idx = match graph.nodes.get(&cursor) {
                Some(nei) => random_index(nei.len()),
                None => 0,
            };
            let next = match graph.nodes.get(&cursor) {
                Some(nei) => nei[idx],
                None => 0,
            };
            proof {
                assert(graph@.contains_key(cursor));
                assert(graph@[cursor].contains(next));
                assert(graph@.contains_key(next) && graph@[next].contains(cursor));
                assert forall|i2: int, bb: nat|
                    0 <= i2 < active@.len() implies #[trigger] tcount(
                    counter@,
                    active@[i2].seed,
                    bb,
                    next,
                ) < usize::MAX by {
                    assert(tcount(counter@, active@[i2].seed, bb, next) <= tcount(
                        c0,
                        active@[i2].seed,
                        bb,
                        next,
                    ) + active@[i2].elapsed);
                }
            }
            let ghost tick_counter = counter@;
            let ghost tick_active = active@;
            let ghost tick_pending = pending@;
            let na = advance_scaled(counter, &active, next, log2_min, log2_max, wb);
            active = na;
            proof {
                assert forall|i2: int|
                    0 <= i2 < active@.len() implies ((#[trigger] active@[i2]).elapsed > 0 ==> reach(
                    graph@,
                    active@[i2].seed,
                    active@[i2].elapsed as nat,
                ).contains(next)) by {
                    assert(advanced_entry(active@, tick_active, tick_active.len() as int, i2));
                    let i = choose|i: int|
                        0 <= i < tick_active.len() && (#[trigger] tick_active[i]).seed
                            == active@[i2].seed && active@[i2].elapsed == tick_active[i].elapsed
                            + 1;
                    if tick_active[i].elapsed == 0 {
                        assert(tick_active[i].seed == cursor);
                        lemma_reach_member(graph@, cursor, next, 1nat);
                    } else {
                        lemma_reach_step(
                            graph@,
                            tick_active[i].seed,
                            tick_active[i].elapsed as nat,
                            cursor,
                            next,
                        );
                    }
                }
                assert forall|s: u64, bb: nat, n: u64| #[trigger]
                    tcount(counter@, s, bb, n) > tcount(c0, s, bb, n) implies seeds@.contains(s)
                    && reach(graph@, s, (wb + 1) as nat).contains(n) && log2_min <= bb <= log2_max
                    + 1 by {
                    if tcount(tick_counter, s, bb, n) > tcount(c0, s, bb, n) {
                    } else {
                        assert(tcount(counter@, s, bb, n) > tcount(tick_counter, s, bb, n));
                        assert(n == next && active_has(tick_active, s) && log2_min <= bb
                            <= log2_max + 1);
                        let i = choose|i: int|
                            0 <= i < tick_active.len() && (#[trigger] tick_active[i]).seed == s;
                        if tick_active[i].elapsed == 0 {
                            assert(tick_active[i].seed == cursor);
                            lemma_reach_member(graph@, cursor, next, (wb + 1) as nat);
                        } else {
                            lemma_reach_step(
                                graph@,
                                s,
                                tick_active[i].elapsed as nat,
                                cursor,
                                next,
                            );
                            lemma_reach_mono(
                                graph@,
                                s,
                                (tick_active[i].elapsed + 1) as nat,
                                (wb + 1) as nat,
                            );
                        }
                    }
                }
                assert forall|s: u64, bb: nat, n: u64| #[trigger]
                    tcount(counter@, s, bb, n) <= tcount(c0, s, bb, n) + wb + 1 by {
                    if tcount(counter@, s, bb, n) > tcount(tick_counter, s, bb, n) {
                        assert(n == next && active_has(tick_active, s));
                        let i = choose|i: int|
                            0 <= i < tick_active.len() && (#[trigger] tick_active[i]).seed == s;
                        assert(tcount(tick_counter, s, bb, n) <= tcount(c0, s, bb, n)
                            + tick_active[i].elapsed);
                    }
                }
                assert forall|i2: int, bb: nat, n: u64|
                    0 <= i2 < active@.len() implies #[trigger] tcount(
                    counter@,
                    active@[i2].seed,
                    bb,
                    n,
                ) <= tcount(c0, active@[i2].seed, bb, n) + active@[i2].elapsed by {
                    let s = active@[i2].seed;
                    assert(advanced_entry(active@, tick_active, tick_active.len() as int, i2));
                    let i = choose|i: int|
                        0 <= i < tick_active.len() && (#[trigger] tick_active[i]).seed
                            == active@[i2].seed && active@[i2].elapsed == tick_active[i].elapsed
                            + 1;
                    assert(tcount(tick_counter, s, bb, n) <= tcount(c0, s, bb, n)
                        + tick_active[i].elapsed);
                }
                assert forall|s: u64, bb: nat, n: u64|
                    pending@.contains(s) implies #[trigger] tcount(counter@, s, bb, n) == tcount(
                    c0,
                    s,
                    bb,
                    n,
                ) by {
                    assert(!active_has(tick_active, s)) by {
                        if active_has(tick_active, s) {
                            let i = choose|i: int|
                                0 <= i < tick_active.len() && (#[trigger] tick_active[i]).seed
                                    == s;
                            assert(!pending@.contains(tick_active[i].seed));
                        }
                    }
                }
                assert forall|i2: int|
                    0 <= i2 < active@.len() implies seeds@.contains((#[trigger] active@[i2]).seed)
                    && !pending@.contains(active@[i2].seed) by {
                    assert(advanced_entry(active@, tick_active, tick_active.len() as int, i2));
                    let i = choose|i: int|
                        0 <= i < tick_active.len() && (#[trigger] tick_active[i]).seed
                            == active@[i2].seed && active@[i2].elapsed == tick_active[i].elapsed
                            + 1;
                    assert(seeds@.contains(tick_active[i].seed));
                    assert(!pending@.contains(tick_active[i].seed));
                }
                // the accumulated counts obey the same caps
                assert forall|s2: u64, kmin: nat, kk: nat, n: u64| #[trigger]
                    cum(counter@, s2, kmin, kk, n) <= cum(c0, s2, kmin, kk, n) + wb + 1 by {
                    if cum(counter@, s2, kmin, kk, n) > cum(tick_counter, s2, kmin, kk, n) {
                        assert(n == next && active_has(tick_active, s2));
                        let i = choose|i: int|
                            0 <= i < tick_active.len() && (#[trigger] tick_active[i]).seed == s2;
                        assert(cum(tick_counter, s2, kmin, kk, n) <= cum(c0, s2, kmin, kk, n)
                            + tick_active[i].elapsed);
                    }
                }
                assert forall|i2: int, kmin: nat, kk: nat, n: u64|
                    0 <= i2 < active@.len() implies #[trigger] cum(
                    counter@,
                    active@[i2].seed,
                    kmin,
                    kk,
                    n,
                ) <= cum(c0, active@[i2].seed, kmin, kk, n) + active@[i2].elapsed by {
                    let s2 = active@[i2].seed;
                    assert(advanced_entry(active@, tick_active, tick_active.len() as int, i2));
                    let i = choose|i: int|
                        0 <= i < tick_active.len() && (#[trigger] tick_active[i]).seed
                            == active@[i2].seed && active@[i2].elapsed == tick_active[i].elapsed
                            + 1;
                    assert(cum(tick_counter, s2, kmin, kk, n) <= cum(c0, s2, kmin, kk, n)
                        + tick_active[i].elapsed);
                    assert(active_has(tick_active, s2)) by {
                        assert((#[trigger] tick_active[i]).seed == s2);
                    }
                    assert(cum(counter@, s2, kmin, kk, n) <= cum(tick_counter, s2, kmin, kk, n)
                        + 1);
                }
                assert forall|s2: u64, kmin: nat, kk: nat, n: u64|
                    pending@.contains(s2) implies #[trigger] cum(counter@, s2, kmin, kk, n)
                    == cum(c0, s2, kmin, kk, n) by {
                    assert(!active_has(tick_active, s2)) by {
                        if active_has(tick_active, s2) {
                            let i = choose|i: int|
                                0 <= i < tick_active.len() && (#[trigger] tick_active[i]).seed
                                    == s2;
                            assert(!pending@.contains(tick_active[i].seed));
                        }
                    }
                    assert(cum(counter@, s2, kmin, kk, n) <= cum(tick_counter, s2, kmin, kk, n)
                        + 0);
                    assert(cum(counter@, s2, kmin, kk, n) >= cum(tick_counter, s2, kmin, kk, n));
                }
            }
            cursor = next;
            match position_of(&pending, next) {
                Some(p) => {
                    let ghost pend_before = pending@;
                    let _removed = pending.remove(p);
                    proof {
                        lemma_remove_first_at(pend_before, next, p as int);
                        lemma_remove_first_props(pend_before, next);
                        assert(pending@ == remove_first(pend_before, next));
                        assert(!pending@.contains(next));
                        assert forall|x: u64| #[trigger]
                            pending@.contains(x) implies pend_before.contains(x)
                            && seeds@.contains(x) by {}
                        assert(pending@.no_duplicates());
                    }
                    active.push(Window { seed: next, elapsed: 0 });
                    proof {
                        assert(seeds@.contains(next)) by {
                            assert(pend_before.contains(next));
                        }
                        assert forall|i2: int, j2: int| #![trigger active@[i2], active@[j2]]
                            0 <= i2 < j2 < active@.len() implies active@[i2].seed
                            != active@[j2].seed by {
                            if j2 == active@.len() - 1 {
                                assert(!pend_before.contains(active@[i2].seed)) by {
                                    if pend_before.contains(active@[i2].seed) {
                                        assert(pending@.contains(active@[i2].seed) || active@[
                                            i2].seed == next);
                                    }
                                }
                            }
                        }
                        assert forall|i2: int|
                            0 <= i2 < active@.len() implies !pending@.contains(
                            (#[trigger] active@[i2]).seed,
                        ) by {
                            if i2 == active@.len() - 1 {
                                assert(active@[i2].seed == next);
                            }
                        }
                        assert forall|bb: nat, n: u64| #[trigger]
                            tcount(counter@, next, bb, n) <= tcount(c0, next, bb, n) + 0 by {
                            assert(!active_has(tick_active, next)) by {
                                if active_has(tick_active, next) {
                                    let i = choose|i: int|
                                        0 <= i < tick_active.len() && (#[trigger] tick_active[
                                        i]).seed == next;
                                    assert(!tick_pending.contains(tick_active[i].seed));
                                }
                            }
                            assert(tcount(counter@, next, bb, n) == tcount(
                                tick_counter,
                                next,
                                bb,
                                n,
                            ));
                            assert(tcount(tick_counter, next, bb, n) == tcount(c0, next, bb, n))
                                by {
                                assert(tick_pending.contains(next));
                            }
                        }
                        assert forall|kmin: nat, kk: nat, n: u64| #[trigger]
                            cum(counter@, next, kmin, kk, n) <= cum(c0, next, kmin, kk, n)
                            + 0 by {
                            assert(!active_has(tick_active, next)) by {
                                if active_has(tick_active, next) {
                                    let i = choose|i: int|
                                        0 <= i < tick_active.len() && (#[trigger] tick_active[
                                        i]).seed == next;
                                    assert(!tick_pending.contains(tick_active[i].seed));
                                }
                            }
                            assert(cum(counter@, next, kmin, kk, n) <= cum(
                                tick_counter,
                                next,
                                kmin,
                                kk,
                                n,
                            ) + 0);
                            assert(cum(tick_counter, next, kmin, kk, n) == cum(
                                c0,
                                next,
                                kmin,
                                kk,
                                n,
                            )) by {
                                assert(tick_pending.contains(next));
                            }
                        }
                        assert forall|s2: u64| #![trigger seeds@.contains(s2)]
                            seeds@.contains(s2) && graph@.contains_key(s2) && graph@[s2].len()
                            > 0 implies pending@.contains(s2) || (exists|i: int|
                            0 <= i < active@.len() && (#[trigger] active@[i]).seed == s2
                                && active@[i].elapsed == 0) || exists|n: u64|
                            tcount(counter@, s2, log2_min as nat, n) > tcount(
                                c0,
                                s2,
                                log2_min as nat,
                                n,
                            ) by {
                            if exists|i: int|
                                0 <= i < tick_active.len() && (#[trigger] tick_active[i]).seed
                                    == s2 && tick_active[i].elapsed == 0 {
                                let i = choose|i: int|
                                    0 <= i < tick_active.len() && (#[trigger] tick_active[
                                    i]).seed == s2 && tick_active[i].elapsed == 0;
                                assert(tcount(counter@, s2, log2_min as nat, next) > tcount(
                                    tick_counter,
                                    s2,
                                    log2_min as nat,
                                    next,
                                ));
                                assert(tcount(tick_counter, s2, log2_min as nat, next) >= tcount(
                                    c0,
                                    s2,
                                    log2_min as nat,
                                    next,
                                ));
                            } else if tick_pending.contains(s2) {
                                if s2 == next {
                                    assert((#[trigger] active@[active@.len() - 1]).seed == s2
                                        && active@[active@.len() - 1].elapsed == 0);
                                } else {
                                    assert(pending@.contains(s2));
                                }
                            } else {
                                let n0 = choose|n: u64|
                                    tcount(tick_counter, s2, log2_min as nat, n) > tcount(
                                        c0,
                                        s2,
                                        log2_min as nat,
                                        n,
                                    );
                                assert(tcount(counter@, s2, log2_min as nat, n0) >= tcount(
                                    tick_counter,
                                    s2,
                                    log2_min as nat,
                                    n0,
                                ));
                            }
                        }
                    }
                },
                None => {
                    proof {
                        if head_pending.len() == pending@.len() && head_active.len() > 0 {
                            assert(head_active == tick_active);
                            lemma_max_rem_ge(head_active, wb as nat, 0);
                            assert(win_rem(head_active[0], wb as nat) >= 1);
                            assert forall|p2: int|
                                0 <= p2 < active@.len() implies win_rem(
                                #[trigger] active@[p2],
                                wb as nat,
                            ) <= max_rem(head_active, wb as nat) - 1 by {
                                assert(advanced_entry(
                                    active@,
                                    tick_active,
                                    tick_active.len() as int,
                                    p2,
                                ));
                                let i = choose|i: int|
                                    0 <= i < tick_active.len() && (#[trigger] tick_active[i]).seed
                                        == active@[p2].seed && active@[p2].elapsed
                                        == tick_active[i].elapsed + 1;
                                lemma_max_rem_ge(head_active, wb as nat, i);
                            }
                            lemma_max_rem_le(
                                active@,
                                wb as nat,
                                (max_rem(head_active, wb as nat) - 1) as nat,
                            );
                        }
                        assert forall|s2: u64| #![trigger seeds@.contains(s2)]
                            seeds@.contains(s2) && graph@.contains_key(s2) && graph@[s2].len()
                            > 0 implies pending@.contains(s2) || (exists|i: int|
                            0 <= i < active@.len() && (#[trigger] active@[i]).seed == s2
                                && active@[i].elapsed == 0) || exists|n: u64|
                            tcount(counter@, s2, log2_min as nat, n) > tcount(
                                c0,
                                s2,
                                log2_min as nat,
                                n,
                            ) by {
                            if exists|i: int|
                                0 <= i < tick_active.len() && (#[trigger] tick_active[i]).seed
                                    == s2 && tick_active[i].elapsed == 0 {
                                let i = choose|i: int|
                                    0 <= i < tick_active.len() && (#[trigger] tick_active[
                                    i]).seed == s2 && tick_active[i].elapsed == 0;
                                assert(tcount(counter@, s2, log2_min as nat, next) > tcount(
                                    tick_counter,
                                    s2,
                                    log2_min as nat,
                                    next,
                                ));
                                assert(tcount(tick_counter, s2, log2_min as nat, next) >= tcount(
                                    c0,
                                    s2,
                                    log2_min as nat,
                                    next,
                                ));
                            } else if tick_pending.contains(s2) {
                            } else {
                                let n0 = choose|n: u64|
                                    tcount(tick_counter, s2, log2_min as nat, n) > tcount(
                                        c0,
                                        s2,
                                        log2_min as nat,
                                        n,
                                    );
                                assert(tcount(counter@, s2, log2_min as nat, n0) >= tcount(
                                    tick_counter,
                                    s2,
                                    log2_min as nat,
                                    n0,
                                ));
                            }
                        }
                    }
                },
            }
        }
    }
}

/// An empty counter accumulates nothing.
proof fn lemma_cum_zero(c: Seq<ScaleCount>, s: u64, kmin: nat, kk: nat, n: u64)
    requires
        c.len() == 0,
    ensures
        cum(c, s, kmin, kk, n) == 0,
    decreases kk,
{
    if kk > 0 {
        lemma_cum_zero(c, s, kmin, (kk - 1) as nat, n);
    }
}

/// Runs `trials` independent scaled trials into one counter.
pub fn simulate_scales(
    graph: &Graph,
    node_ids: &Vec<u64>,
    log2_min: usize,
    log2_max: usize,
    trials: usize,
) -> (c: Vec<ScaleCount>)
    requires
        wf(graph@),
        log2_min <= log2_max,
        log2_max < usize::MAX,
        pow2(log2_max as nat) < usize::MAX,
        trials * (pow2(log2_max as nat) + 1) <= usize::MAX,
    ensures
        tkeys_unique(c@),
        tpositive(c@),
        forall|s: u64, bb: nat, n: u64| #[trigger]
            tcount(c@, s, bb, n) <= trials * (pow2(log2_max as nat) + 1),
        forall|s: u64, bb: nat, n: u64| #[trigger]
            tcount(c@, s, bb, n) > 0 ==> node_ids@.contains(s) && reach(
                graph@,
                s,
                (pow2(log2_max as nat) + 1) as nat,
            ).contains(n) && log2_min <= bb <= log2_max + 1,
        forall|s: u64, kmin: nat, kk: nat, n: u64| #[trigger]
            cum(c@, s, kmin, kk, n) <= trials * (pow2(log2_max as nat) + 1),
        trials > 0 ==> forall|s: u64| #![trigger node_ids@.contains(s)]
            node_ids@.contains(s) && graph@.contains_key(s) && graph@[s].len() > 0 ==> exists|
                n: u64,
            | tcount(c@, s, log2_min as nat, n) > 0,
{
    let wb = pow2_exec(log2_max);
    let mut c: Vec<ScaleCount> = Vec::new();
    proof {
        assert forall|s: u64, kmin: nat, kk: nat, n: u64| #[trigger]
            cum(c@, s, kmin, kk, n) <= 0 * (wb + 1) by {
            lemma_cum_zero(c@, s, kmin, kk, n);
        }
    }
    let mut t: usize = 0;
    while t < trials
        invariant
            wf(graph@),
            log2_min <= log2_max,
            log2_max < usize::MAX,
            pow2(log2_max as nat) < usize::MAX,
            wb as nat == pow2(log2_max as nat),
            trials * (wb + 1) <= usize::MAX,
            t <= trials,
            tkeys_unique(c@),
            tpositive(c@),
            forall|s: u64, bb: nat, n: u64| #[trigger] tcount(c@, s, bb, n) <= t * (wb + 1),
            forall|s: u64, bb: nat, n: u64| #[trigger]
                tcount(c@, s, bb, n) > 0 ==> node_ids@.contains(s) && reach(
                    graph@,
                    s,
                    (wb + 1) as nat,
                ).contains(n) && log2_min <= bb <= log2_max + 1,
            forall|s: u64, kmin: nat, kk: nat, n: u64| #[trigger]
                cum(c@, s, kmin, kk, n) <= t * (wb + 1),
            t > 0 ==> forall|s: u64| #![trigger node_ids@.contains(s)]
                node_ids@.contains(s) && graph@.contains_key(s) && graph@[s].len() > 0 ==> exists|
                    n: u64,
                | tcount(c@, s, log2_min as nat, n) > 0,
        decreases trials - t,
    {
        proof {
            assert forall|s: u64, bb: nat, n: u64| #[trigger]
                tcount(c@, s, bb, n) + wb + 1 <= usize::MAX by {
                assert(tcount(c@, s, bb, n) <= t * (wb + 1));
                assert(t * (wb + 1) + (wb + 1) <= trials * (wb + 1)) by (nonlinear_arith)
                    requires
                        t < trials,
                {}
            }
        }
        let ghost cpre = c@;
        scale_trial(graph, node_ids, log2_min, log2_max, wb, &mut c);
        proof {
            assert forall|s: u64, bb: nat, n: u64| #[trigger]
                tcount(c@, s, bb, n) <= (t + 1) * (wb + 1) by {
                assert(tcount(c@, s, bb, n) <= tcount(cpre, s, bb, n) + wb + 1);
                assert(tcount(cpre, s, bb, n) <= t * (wb + 1));
                assert(t * (wb + 1) + (wb + 1) == (t + 1) * (wb + 1)) by (nonlinear_arith);
            }
            assert forall|s: u64, bb: nat, n: u64| #[trigger]
                tcount(c@, s, bb, n) > 0 implies node_ids@.contains(s) && reach(
                graph@,
                s,
                (wb + 1) as nat,
            ).contains(n) && log2_min <= bb <= log2_max + 1 by {
                if tcount(cpre, s, bb, n) == 0 {
                    assert(tcount(c@, s, bb, n) > tcount(cpre, s, bb, n));
                }
            }
            assert forall|s: u64, kmin: nat, kk: nat, n: u64| #[trigger]
                cum(c@, s, kmin, kk, n) <= (t + 1) * (wb + 1) by {
                assert(cum(c@, s, kmin, kk, n) <= cum(cpre, s, kmin, kk, n) + wb + 1);
                assert(cum(cpre, s, kmin, kk, n) <= t * (wb + 1));
                assert(t * (wb + 1) + (wb + 1) == (t + 1) * (wb + 1)) by (nonlinear_arith);
            }
            assert forall|s: u64| #![trigger node_ids@.contains(s)]
                node_ids@.contains(s) && graph@.contains_key(s) && graph@[s].len() > 0 implies
                exists|n: u64| tcount(c@, s, log2_min as nat, n) > 0 by {
                let n0 = choose|n: u64|
                    tcount(c@, s, log2_min as nat, n) > tcount(cpre, s, log2_min as nat, n);
                assert(tcount(c@, s, log2_min as nat, n0) > 0);
            }
        }
        t += 1;
    }
    c
}

/// Accumulated counts never exceed the count of bins times a per-bin
/// cap.
proof fn lemma_cum_bound(c: Seq<ScaleCount>, s: u64, kmin: nat, kk: nat, n: u64, cap: nat)
    requires
        forall|bb: nat| #[trigger] tcount(c, s, bb, n) <= cap,
    ensures
        cum(c, s, kmin, kk, n) <= kk * cap,
    decreases kk,
{
    if kk > 0 {
        lemma_cum_bound(c, s, kmin, (kk - 1) as nat, n, cap);
        assert(tcount(c, s, (kmin + kk - 1) as nat, n) <= cap);
        assert((kk - 1) * cap + cap == kk * cap) by (nonlinear_arith);
    }
}

/// Merging more scales only grows the accumulated counts.
proof fn lemma_cum_le(c: Seq<ScaleCount>, s: u64, kmin: nat, kk1: nat, kk2: nat, n: u64)
    requires
        kk1 <= kk2,
    ensures
        cum(c, s, kmin, kk1, n) <= cum(c, s, kmin, kk2, n),
    decreases kk2,
{
    if kk1 < kk2 {
        lemma_cum_le(c, s, kmin, kk1, (kk2 - 1) as nat, n);
    }
}

/// A positive accumulated count points at a positive per-bin credit.
proof fn lemma_cum_pos(c: Seq<ScaleCount>, s: u64, kmin: nat, kk: nat, n: u64)
    requires
        cum(c, s, kmin, kk, n) > 0,
    ensures
        exists|bb: nat| kmin <= bb < kmin + kk && #[trigger] tcount(c, s, bb, n) > 0,
    decreases kk,
{
    let last_bin = (kmin + kk - 1) as nat;
    if tcount(c, s, last_bin, n) > 0 {
        assert(kmin <= last_bin && last_bin < kmin + kk && tcount(c, s, last_bin, n) > 0);
    } else {
        lemma_cum_pos(c, s, kmin, (kk - 1) as nat, n);
        let bb = choose|bb: nat|
            kmin <= bb < kmin + (kk - 1) && #[trigger] tcount(c, s, bb, n) > 0;
        assert(kmin <= bb < kmin + kk && tcount(c, s, bb, n) > 0);
    }
}

/// For each seed, in the given order: one member set per scale, the
/// scales in increasing bin order, each produced by thresholding the
/// counts accumulated over all bins up to that scale.
pub fn threshold_scales(
    counter: &Vec<ScaleCount>,
    node_ids: &Vec<u64>,
    log2_min: usize,
    log2_max: usize,
    member_portion: usize,
) -> (r: Vec<Vec<Vec<u64>>>)
    requires
        tkeys_unique(counter@),
        tpositive(counter@),
        log2_min <= log2_max,
        log2_max < usize::MAX,
        forall|s: u64, n: u64| #[trigger]
            cum(counter@, s, log2_min as nat, (log2_max - log2_min + 1) as nat, n)
                <= usize::MAX,
    ensures
        r@.len() == node_ids@.len(),
        forall|i: int|
            0 <= i < r@.len() ==> (#[trigger] r@[i])@.len() == log2_max - log2_min + 1,
        forall|i: int, j: int|
            0 <= i < r@.len() && 0 <= j < r@[i]@.len() ==> (#[trigger] r@[i]@[j])@.no_duplicates(),
        forall|i: int, j: int, x: u64| #![trigger r@[i]@[j]@.contains(x)]
            0 <= i < r@.len() && 0 <= j < r@[i]@.len() ==> (r@[i]@[j]@.contains(x) <==> cum(
                counter@,
                node_ids@[i],
                log2_min as nat,
                (j + 1) as nat,
                x,
            ) > member_portion),
{
    let nscales = log2_max - log2_min + 1;
    proof {
        assert forall|s: u64, n: u64| #[trigger]
            cum(counter@, s, log2_min as nat, nscales as nat, n) <= usize::MAX by {
            assert(cum(counter@, s, log2_min as nat, (log2_max - log2_min + 1) as nat, n)
                <= usize::MAX);
        }
    }
    let mut r: Vec<Vec<Vec<u64>>> = Vec::new();
    let mut i: usize = 0;
    while i < node_ids.len()
        invariant
            i <= node_ids@.len(),
            r@.len() == i,
            tkeys_unique(counter@),
            tpositive(counter@),
            log2_min <= log2_max,
            log2_max < usize::MAX,
            nscales == log2_max - log2_min + 1,
            forall|s: u64, n: u64| #[trigger]
                cum(counter@, s, log2_min as nat, nscales as nat, n) <= usize::MAX,
            forall|i2: int| 0 <= i2 < i ==> (#[trigger] r@[i2])@.len() == nscales,
            forall|i2: int, j: int|
                0 <= i2 < i && 0 <= j < r@[i2]@.len() ==> (#[trigger] r@[i2]@[j])@.no_duplicates(),
            forall|i2: int, j: int, x: u64| #![trigger r@[i2]@[j]@.contains(x)]
                0 <= i2 < i && 0 <= j < r@[i2]@.len() ==> (r@[i2]@[j]@.contains(x) <==> cum(
                    counter@,
                    node_ids@[i2],
                    log2_min as nat,
                    (j + 1) as nat,
                    x,
                ) > member_portion),
        decreases node_ids@.len() - i,
    {
        let seed = node_ids[i];
        let mut acc: Vec<NodeCount> = Vec::new();
        let mut per_seed: Vec<Vec<u64>> = Vec::new();
        let mut sc: usize = 0;
        while sc < nscales
            invariant
                sc <= nscales,
                tkeys_unique(counter@),
                tpositive(counter@),
                log2_min <= log2_max,
                log2_max < usize::MAX,
                nscales == log2_max - log2_min + 1,
                seed == node_ids@[i as int],
                i < node_ids@.len(),
                forall|s: u64, n: u64| #[trigger]
                    cum(counter@, s, log2_min as nat, nscales as nat, n) <= usize::MAX,
                nkeys_unique(acc@),
                npositive(acc@),
                forall|n: u64| #[trigger]
                    ncount(acc@, n) == cum(counter@, seed, log2_min as nat, sc as nat, n),
                per_seed@.len() == sc,
                forall|j: int| 0 <= j < sc ==> (#[trigger] per_seed@[j])@.no_duplicates(),
                forall|j: int, x: u64| #![trigger per_seed@[j]@.contains(x)]
                    0 <= j < sc ==> (per_seed@[j]@.contains(x) <==> cum(
                        counter@,
                        seed,
                        log2_min as nat,
                        (j + 1) as nat,
                        x,
                    ) > member_portion),
            decreases nscales - sc,
        {
            let bin_k = log2_min + sc;
            let mut j: usize = 0;
            while j < counter.len()
                invariant
                    j <= counter@.len(),
                    tkeys_unique(counter@),
                    tpositive(counter@),
                    log2_min <= log2_max,
                    log2_max < usize::MAX,
                    nscales == log2_max - log2_min + 1,
                    sc < nscales,
                    bin_k == log2_min + sc,
                    forall|s: u64, n: u64| #[trigger]
                        cum(counter@, s, log2_min as nat, nscales as nat, n) <= usize::MAX,
                    nkeys_unique(acc@),
                    npositive(acc@),
                    forall|n: u64| #[trigger]
                        ncount(acc@, n) == cum(counter@, seed, log2_min as nat, sc as nat, n)
                            + tcount(counter@.take(j as int), seed, bin_k as nat, n),
                decreases counter@.len() - j,
            {
                proof {
                    assert(counter@.take(j + 1) =~= counter@.take(j as int).push(
                        counter@[j as int],
                    ));
                    assert forall|j2: int|
                        0 <= j2 < counter@.take(j as int).len() implies !((#[trigger] counter@.take(
                        j as int,
                    )[j2]).seed == counter@[j as int].seed && counter@.take(j as int)[j2].bin
                        == counter@[j as int].bin && counter@.take(j as int)[j2].node
                        == counter@[j as int].node) by {
                        assert(counter@.take(j as int)[j2] == counter@[j2]);
                    }
                }
                let matches_bin = counter[j].seed == seed && counter[j].bin == bin_k;
                if matches_bin {
                    let e_node = counter[j].node;
                    let e_count = counter[j].count;
                    proof {
                        lemma_tcount_entry(counter@, j as int);
                        assert forall|j2: int|
                            0 <= j2 < counter@.take(j as int).len() implies !((
                            #[trigger] counter@.take(j as int)[j2]).seed == seed
                            && counter@.take(j as int)[j2].bin == bin_k
                            && counter@.take(j as int)[j2].node == e_node) by {
                            assert(counter@.take(j as int)[j2] == counter@[j2]);
                        }
                        lemma_tcount_absent(counter@.take(j as int), seed, bin_k as nat, e_node);
                        assert(ncount(acc@, e_node) == cum(
                            counter@,
                            seed,
                            log2_min as nat,
                            sc as nat,
                            e_node,
                        ));
                        assert(cum(counter@, seed, log2_min as nat, (sc + 1) as nat, e_node)
                            == cum(counter@, seed, log2_min as nat, sc as nat, e_node) + tcount(
                            counter@,
                            seed,
                            bin_k as nat,
                            e_node,
                        ));
                        lemma_cum_le(
                            counter@,
                            seed,
                            log2_min as nat,
                            (sc + 1) as nat,
                            nscales as nat,
                            e_node,
                        );
                        assert(ncount(acc@, e_node) + e_count <= usize::MAX);
                    }
                    add_node_count(&mut acc, e_node, e_count);
                    proof {
                        assert forall|n: u64| #[trigger]
                            ncount(acc@, n) == cum(counter@, seed, log2_min as nat, sc as nat, n)
                                + tcount(counter@.take(j + 1), seed, bin_k as nat, n) by {
                            lemma_tcount_push(
                                counter@.take(j as int),
                                counter@[j as int],
                                seed,
                                bin_k as nat,
                                n,
                            );
                        }
                    }
                } else {
                    proof {
                        assert forall|n: u64| #[trigger]
                            ncount(acc@, n) == cum(counter@, seed, log2_min as nat, sc as nat, n)
                                + tcount(counter@.take(j + 1), seed, bin_k as nat, n) by {
                            lemma_tcount_push(
                                counter@.take(j as int),
                                counter@[j as int],
                                seed,
                                bin_k as nat,
                                n,
                            );
                        }
                    }
                }
                j += 1;
            }
            proof {
                assert(counter@.take(counter@.len() as int) =~= counter@);
                assert forall|n: u64| #[trigger]
                    ncount(acc@, n) == cum(counter@, seed, log2_min as nat, (sc + 1) as nat, n) by {
                    assert(cum(counter@, seed, log2_min as nat, (sc + 1) as nat, n) == cum(
                        counter@,
                        seed,
                        log2_min as nat,
                        sc as nat,
                        n,
                    ) + tcount(counter@, seed, (log2_min + sc) as nat, n));
                }
            }
            let members = filter_counts(&acc, member_portion);
            let ghost per_pre = per_seed@;
            per_seed.push(members);
            proof {
                assert forall|j2: int, x: u64| #![trigger per_seed@[j2]@.contains(x)]
                    0 <= j2 < sc + 1 implies (per_seed@[j2]@.contains(x) <==> cum(
                    counter@,
                    seed,
                    log2_min as nat,
                    (j2 + 1) as nat,
                    x,
                ) > member_portion) by {
                    if j2 < sc {
                        assert(per_seed@[j2] == per_pre[j2]);
                    } else {
                        assert(per_seed@[j2] == members);
                        assert(members@.contains(x) <==> ncount(acc@, x) > member_portion);
                    }
                }
                assert forall|j2: int|
                    0 <= j2 < sc + 1 implies (#[trigger] per_seed@[j2])@.no_duplicates() by {
                    if j2 < sc {
                        assert(per_seed@[j2] == per_pre[j2]);
                    }
                }
            }
            sc += 1;
        }
        let ghost rpre = r@;
        r.push(per_seed);
        proof {
            assert forall|i2: int, j: int, x: u64| #![trigger r@[i2]@[j]@.contains(x)]
                0 <= i2 < i + 1 && 0 <= j < r@[i2]@.len() implies (r@[i2]@[j]@.contains(x) <==> cum(
                counter@,
                node_ids@[i2],
                log2_min as nat,
                (j + 1) as nat,
                x,
            ) > member_portion) by {
                if i2 < i {
                    assert(r@[i2] == rpre[i2]);
                }
            }
            assert forall|i2: int, j: int|
                0 <= i2 < i + 1 && 0 <= j < r@[i2]@.len() implies (#[trigger] r@[i2]@[j])@.no_duplicates() by {
                if i2 < i {
                    assert(r@[i2] == rpre[i2]);
                }
            }
        }
        i += 1;
    }
    r
}

/// The multi-scale estimator: one simulation pass over all seeds,
/// credits binned by power-of-two elapsed time, then, per seed in
/// input order, one thresholded set per scale from `log2_min_len` to
/// `log2_max_len`, each scale merging in all finer bins first.  Every
/// member lies within `pow2(log2_max_len) + 1` steps of its seed.
pub fn communities_range(
    graph: &Graph,
    node_ids: Vec<u64>,
    log2_min_len: usize,
    log2_max_len: usize,
    trials: usize,
    member_portion: usize,
) -> (r: Vec<Vec<Vec<u64>>>)
    requires
        wf(graph@),
        log2_min_len <= log2_max_len,
        log2_max_len < usize::MAX,
        pow2(log2_max_len as nat) < usize::MAX,
        trials * (pow2(log2_max_len as nat) + 1) <= usize::MAX,
        (log2_max_len - log2_min_len + 1) * (trials * (pow2(log2_max_len as nat) + 1))
            <= usize::MAX,
    ensures
        r@.len() == node_ids@.len(),
        forall|i: int|
            0 <= i < r@.len() ==> (#[trigger] r@[i])@.len() == log2_max_len - log2_min_len + 1,
        forall|i: int, j: int|
            0 <= i < r@.len() && 0 <= j < r@[i]@.len() ==> (#[trigger] r@[i]@[j])@.no_duplicates(),
        forall|i: int, j: int, x: u64| #![trigger r@[i]@[j]@.contains(x)]
            0 <= i < r@.len() && 0 <= j < r@[i]@.len() ==> (r@[i]@[j]@.contains(x) ==> reach(
                graph@,
                node_ids@[i],
                (pow2(log2_max_len as nat) + 1) as nat,
            ).contains(x)),
        member_portion >= trials * (pow2(log2_max_len as nat) + 1) ==> forall|i: int, j: int|
            0 <= i < r@.len() && 0 <= j < r@[i]@.len() ==> (#[trigger] r@[i]@[j])@.len() == 0,
        trials > 0 && member_portion == 0 ==> forall|i: int, j: int|
            0 <= i < r@.len() && 0 <= j < r@[i]@.len() && graph@.contains_key(node_ids@[i])
                && graph@[node_ids@[i]].len() > 0 ==> (#[trigger] r@[i]@[j])@.len() > 0,
{
    let c = simulate_scales(graph, &node_ids, log2_min_len, log2_max_len, trials);
    proof {
        let cap = (trials * (pow2(log2_max_len as nat) + 1)) as nat;
        let nsc = (log2_max_len - log2_min_len + 1) as nat;
        assert forall|s: u64, n: u64| #[trigger]
            cum(c@, s, log2_min_len as nat, nsc, n) <= usize::MAX by {
            assert forall|bb: nat| #[trigger] tcount(c@, s, bb, n) <= cap by {}
            lemma_cum_bound(c@, s, log2_min_len as nat, nsc, n, cap);
            assert(nsc * cap <= usize::MAX);
        }
    }
    let r = threshold_scales(&c, &node_ids, log2_min_len, log2_max_len, member_portion);
    proof {
        assert forall|i: int, j: int, x: u64| #![trigger r@[i]@[j]@.contains(x)]
            0 <= i < r@.len() && 0 <= j < r@[i]@.len() implies (r@[i]@[j]@.contains(x) ==> reach(
            graph@,
            node_ids@[i],
            (pow2(log2_max_len as nat) + 1) as nat,
        ).contains(x)) by {
            if r@[i]@[j]@.contains(x) {
                assert(cum(c@, node_ids@[i], log2_min_len as nat, (j + 1) as nat, x)
                    > member_portion);
                lemma_cum_pos(c@, node_ids@[i], log2_min_len as nat, (j + 1) as nat, x);
                let bb = choose|bb: nat|
                    log2_min_len <= bb < log2_min_len + (j + 1) && #[trigger] tcount(
                        c@,
                        node_ids@[i],
                        bb,
                        x,
                    ) > 0;
            }
        }
        if member_portion >= trials * (pow2(log2_max_len as nat) + 1) {
            assert forall|i: int, j: int|
                0 <= i < r@.len() && 0 <= j < r@[i]@.len() implies (#[trigger] r@[i]@[j])@.len()
                == 0 by {
                if r@[i]@[j]@.len() > 0 {
                    let x = r@[i]@[j]@[0];
                    assert(r@[i]@[j]@.contains(x));
                    assert(cum(c@, node_ids@[i], log2_min_len as nat, (j + 1) as nat, x)
                        > member_portion);
                    assert(cum(c@, node_ids@[i], log2_min_len as nat, (j + 1) as nat, x)
                        <= trials * (pow2(log2_max_len as nat) + 1));
                }
            }
        }
        if trials > 0 && member_portion == 0 {
            assert forall|i: int, j: int|
                0 <= i < r@.len() && 0 <= j < r@[i]@.len() && graph@.contains_key(node_ids@[i])
                    && graph@[node_ids@[i]].len() > 0 implies (#[trigger] r@[i]@[j])@.len()
                > 0 by {
                assert(node_ids@.contains(node_ids@[i]));
                let n0 = choose|n: u64| tcount(c@, node_ids@[i], log2_min_len as nat, n) > 0;
                assert(cum(c@, node_ids@[i], log2_min_len as nat, 0nat, n0) == 0);
                assert(cum(c@, node_ids@[i], log2_min_len as nat, 1nat, n0) == tcount(
                    c@,
                    node_ids@[i],
                    log2_min_len as nat,
                    n0,
                ));
                lemma_cum_le(c@, node_ids@[i], log2_min_len as nat, 1nat, (j + 1) as nat, n0);
                assert(cum(c@, node_ids@[i], log2_min_len as nat, (j + 1) as nat, n0)
                    > member_portion);
                assert(r@[i]@[j]@.contains(n0));
            }
        }
    }
    r
}

} // verus!
