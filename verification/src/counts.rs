//! Visitation counters kept as association lists with unique keys and
//! strictly positive counts, looked up by first match.

use vstd::prelude::*;
use vstd::pervasive::VecAdditionalExecFns;

verus! {

/// One visited node and how often it was visited.
pub struct NodeCount {
    pub node: u64,
    pub count: usize,
}

/// The count recorded for `k`: the first matching entry, or zero.
pub open spec fn ncount(s: Seq<NodeCount>, k: u64) -> nat
    decreases s.len(),
{
    if s.len() == 0 {
        0
    } else if s[0].node == k {
        s[0].count as nat
    } else {
        ncount(s.drop_first(), k)
    }
}

/// No node appears in two entries.
pub open spec fn nkeys_unique(s: Seq<NodeCount>) -> bool {
    forall|i: int, j: int| #![trigger s[i], s[j]] 0 <= i < j < s.len() ==> s[i].node != s[j].node
}

/// Every entry's count is at least one.
pub open spec fn npositive(s: Seq<NodeCount>) -> bool {
    forall|i: int| 0 <= i < s.len() ==> (#[trigger] s[i]).count >= 1
}

/// The sum of all recorded counts: the histogram's total.
pub open spec fn ntotal(s: Seq<NodeCount>) -> nat
    decreases s.len(),
{
    if s.len() == 0 {
        0
    } else {
        s[0].count as nat + ntotal(s.drop_first())
    }
}

proof fn lemma_ntotal_update(s: Seq<NodeCount>, i: int, e: NodeCount)
    requires
        0 <= i < s.len(),
    ensures
        ntotal(s.update(i, e)) + s[i].count == ntotal(s) + e.count,
    decreases i,
{
    let s2 = s.update(i, e);
    if i == 0 {
        assert(s2.drop_first() =~= s.drop_first());
    } else {
        lemma_ntotal_update(s.drop_first(), i - 1, e);
        assert(s2.drop_first() =~= s.drop_first().update(i - 1, e));
        assert(s2[0] == s[0]);
    }
}

proof fn lemma_ntotal_push(s: Seq<NodeCount>, e: NodeCount)
    ensures
        ntotal(s.push(e)) == ntotal(s) + e.count,
    decreases s.len(),
{
    let p = s.push(e);
    if s.len() == 0 {
        assert(p[0] == e);
        assert(p.drop_first() =~= Seq::<NodeCount>::empty());
        assert(ntotal(p.drop_first()) == 0);
    } else {
        lemma_ntotal_push(s.drop_first(), e);
        assert(p.drop_first() =~= s.drop_first().push(e));
        assert(p[0] == s[0]);
    }
}

/// A histogram with a positive total holds some node with a positive
/// count.
pub proof fn lemma_ntotal_pos(s: Seq<NodeCount>)
    requires
        nkeys_unique(s),
        npositive(s),
        ntotal(s) > 0,
    ensures
        exists|x: u64| (#[trigger] ncount(s, x)) > 0,
{
    assert(s.len() > 0);
    lemma_ncount_first(s, 0);
    assert(ncount(s, s[0].node) > 0);
}

/// The recorded count of the entry at a first-match position.
proof fn lemma_ncount_first(s: Seq<NodeCount>, i: int)
    requires
        0 <= i < s.len(),
        forall|j: int| 0 <= j < i ==> (#[trigger] s[j]).node != s[i].node,
    ensures
        ncount(s, s[i].node) == s[i].count as nat,
    decreases i,
{
    if i > 0 {
        assert forall|j: int| 0 <= j < i - 1 implies (#[trigger] s.drop_first()[j]).node
            != s.drop_first()[i - 1].node by {
            assert(s.drop_first()[j] == s[j + 1]);
        }
        lemma_ncount_first(s.drop_first(), i - 1);
    }
}

/// Updating the first matching entry changes that node's count and no
/// other.
proof fn lemma_ncount_update(s: Seq<NodeCount>, i: int, e: NodeCount, x: u64)
    requires
        0 <= i < s.len(),
        s[i].node == e.node,
        forall|j: int| 0 <= j < i ==> (#[trigger] s[j]).node != e.node,
    ensures
        ncount(s.update(i, e), x) == if x == e.node {
            e.count as nat
        } else {
            ncount(s, x)
        },
    decreases i,
{
    let s2 = s.update(i, e);
    if i == 0 {
        assert(s2.drop_first() =~= s.drop_first());
    } else {
        assert forall|j: int| 0 <= j < i - 1 implies (#[trigger] s.drop_first()[j]).node
            != e.node by {
            assert(s.drop_first()[j] == s[j + 1]);
        }
        lemma_ncount_update(s.drop_first(), i - 1, e, x);
        assert(s2.drop_first() =~= s.drop_first().update(i - 1, e));
        assert(s2[0] == s[0]);
    }
}

/// Appending an entry for a fresh node leaves all other counts alone.
pub proof fn lemma_ncount_push(s: Seq<NodeCount>, e: NodeCount, x: u64)
    requires
        forall|j: int| 0 <= j < s.len() ==> (#[trigger] s[j]).node != e.node,
    ensures
        ncount(s.push(e), x) == if x == e.node {
            e.count as nat
        } else {
            ncount(s, x)
        },
    decreases s.len(),
{
    let p = s.push(e);
    if s.len() == 0 {
        assert(p[0] == e);
        assert(p.drop_first() =~= Seq::<NodeCount>::empty());
        assert(ncount(p.drop_first(), x) == 0);
        assert(ncount(p, x) == if p[0].node == x {
            p[0].count as nat
        } else {
            ncount(p.drop_first(), x)
        });
        assert(ncount(s, x) == 0);
    } else {
        assert forall|j: int| 0 <= j < s.drop_first().len() implies (#[trigger] s.drop_first()[j]).node
            != e.node by {
            assert(s.drop_first()[j] == s[j + 1]);
        }
        lemma_ncount_push(s.drop_first(), e, x);
        assert(p.drop_first() =~= s.drop_first().push(e));
        assert(p[0] == s[0]);
        assert(s[0].node != e.node);
        assert(ncount(p, x) == if p[0].node == x {
            p[0].count as nat
        } else {
            ncount(p.drop_first(), x)
        });
        assert(ncount(s, x) == if s[0].node == x {
            s[0].count as nat
        } else {
            ncount(s.drop_first(), x)
        });
    }
}

/// With unique keys, any entry gives that node's count.
pub proof fn lemma_ncount_entry(s: Seq<NodeCount>, i: int)
    requires
        nkeys_unique(s),
        0 <= i < s.len(),
    ensures
        ncount(s, s[i].node) == s[i].count as nat,
{
    lemma_ncount_first(s, i);
}

/// A node without an entry counts zero.
pub proof fn lemma_ncount_absent(s: Seq<NodeCount>, x: u64)
    requires
        forall|j: int| 0 <= j < s.len() ==> (#[trigger] s[j]).node != x,
    ensures
        ncount(s, x) == 0,
    decreases s.len(),
{
    if s.len() > 0 {
        assert forall|j: int| 0 <= j < s.drop_first().len() implies (#[trigger] s.drop_first()[j]).node
            != x by {
            assert(s.drop_first()[j] == s[j + 1]);
        }
        lemma_ncount_absent(s.drop_first(), x);
    }
}

/// Adds one to `k`'s count, touching nothing else.
pub fn bump_node(v: &mut Vec<NodeCount>, k: u64)
    requires
        nkeys_unique(old(v)@),
        npositive(old(v)@),
        ncount(old(v)@, k) < usize::MAX,
    ensures
        nkeys_unique(final(v)@),
        npositive(final(v)@),
        ntotal(final(v)@) == ntotal(old(v)@) + 1,
        forall|x: u64| #[trigger]
            ncount(final(v)@, x) == ncount(old(v)@, x) + if x == k {
                1nat
            } else {
                0nat
            },
{
    let mut i: usize = 0;
    while i < v.len()
        invariant
            i <= v@.len(),
            v@ == old(v)@,
            nkeys_unique(old(v)@),
            npositive(old(v)@),
            ncount(old(v)@, k) < usize::MAX,
            forall|j: int| 0 <= j < i ==> (#[trigger] v@[j]).node != k,
        decreases v@.len() - i,
    {
        if v[i].node == k {
            proof {
                lemma_ncount_first(v@, i as int);
            }
            let c = v[i].count;
            assert(c < usize::MAX);
            v.set(i, NodeCount { node: k, count: c + 1 });
            proof {
                lemma_ntotal_update(old(v)@, i as int, v@[i as int]);
                assert forall|x: u64| #[trigger]
                    ncount(v@, x) == ncount(old(v)@, x) + if x == k {
                        1nat
                    } else {
                        0nat
                    } by {
                    lemma_ncount_update(old(v)@, i as int, v@[i as int], x);
                }
                assert forall|a: int, b: int| #![trigger v@[a], v@[b]]
                    0 <= a < b < v@.len() implies v@[a].node != v@[b].node by {
                    assert(v@[a].node == old(v)@[a].node);
                    assert(v@[b].node == old(v)@[b].node);
                }
                assert forall|j: int| 0 <= j < v@.len() implies (#[trigger] v@[j]).count >= 1 by {
                    if j != i {
                        assert(v@[j] == old(v)@[j]);
                    }
                }
            }
            return ;
        }
        i += 1;
    }
    proof {
        lemma_ncount_absent(v@, k);
    }
    v.push(NodeCount { node: k, count: 1 });
    proof {
        lemma_ntotal_push(old(v)@, NodeCount { node: k, count: 1 });
        assert forall|x: u64| #[trigger]
            ncount(v@, x) == ncount(old(v)@, x) + if x == k {
                1nat
            } else {
                0nat
            } by {
            lemma_ncount_push(old(v)@, NodeCount { node: k, count: 1 }, x);
        }
        assert(nkeys_unique(v@)) by {
            assert forall|a: int, b: int| #![trigger v@[a], v@[b]]
                0 <= a < b < v@.len() implies v@[a].node != v@[b].node by {
                if b == v@.len() - 1 {
                    assert(old(v)@[a].node != k);
                }
            }
        }
    }
}

/// Adds `c` to `k`'s count, touching nothing else.
pub fn add_node_count(v: &mut Vec<NodeCount>, k: u64, c: usize)
    requires
        nkeys_unique(old(v)@),
        npositive(old(v)@),
        c >= 1,
        ncount(old(v)@, k) + c <= usize::MAX,
    ensures
        nkeys_unique(final(v)@),
        npositive(final(v)@),
        forall|x: u64| #[trigger]
            ncount(final(v)@, x) == ncount(old(v)@, x) + if x == k {
                c as nat
            } else {
                0nat
            },
{
    let mut i: usize = 0;
    while i < v.len()
        invariant
            i <= v@.len(),
            v@ == old(v)@,
            nkeys_unique(old(v)@),
            npositive(old(v)@),
            c >= 1,
            ncount(old(v)@, k) + c <= usize::MAX,
            forall|j: int| 0 <= j < i ==> (#[trigger] v@[j]).node != k,
        decreases v@.len() - i,
    {
        if v[i].node == k {
            proof {
                lemma_ncount_first(v@, i as int);
            }
            let cur = v[i].count;
            assert(cur + c <= usize::MAX);
            v.set(i, NodeCount { node: k, count: cur + c });
            proof {
                assert forall|x: u64| #[trigger]
                    ncount(v@, x) == ncount(old(v)@, x) + if x == k {
                        c as nat
                    } else {
                        0nat
                    } by {
                    lemma_ncount_update(old(v)@, i as int, v@[i as int], x);
                }
                assert forall|a: int, b: int| #![trigger v@[a], v@[b]]
                    0 <= a < b < v@.len() implies v@[a].node != v@[b].node by {
                    assert(v@[a].node == old(v)@[a].node);
                    assert(v@[b].node == old(v)@[b].node);
                }
                assert forall|j: int| 0 <= j < v@.len() implies (#[trigger] v@[j]).count >= 1 by {
                    if j != i {
                        assert(v@[j] == old(v)@[j]);
                    }
                }
            }
            return ;
        }
        i += 1;
    }
    proof {
        lemma_ncount_absent(v@, k);
    }
    v.push(NodeCount { node: k, count: c });
    proof {
        assert forall|x: u64| #[trigger]
            ncount(v@, x) == ncount(old(v)@, x) + if x == k {
                c as nat
            } else {
                0nat
            } by {
            lemma_ncount_push(old(v)@, NodeCount { node: k, count: c }, x);
        }
        assert forall|a: int, b: int| #![trigger v@[a], v@[b]]
            0 <= a < b < v@.len() implies v@[a].node != v@[b].node by {
            if b == v@.len() - 1 {
                assert(old(v)@[a].node != k);
            }
        }
    }
}

/// The nodes whose count strictly exceeds `portion`, each once.
pub fn filter_counts(v: &Vec<NodeCount>, portion: usize) -> (r: Vec<u64>)
    requires
        nkeys_unique(v@),
    ensures
        r@.no_duplicates(),
        forall|x: u64| #[trigger] r@.contains(x) <==> ncount(v@, x) > portion,
{
    let mut r: Vec<u64> = Vec::new();
    let mut i: usize = 0;
    while i < v.len()
        invariant
            i <= v@.len(),
            nkeys_unique(v@),
            r@.no_duplicates(),
            forall|x: u64| #[trigger]
                r@.contains(x) <==> exists|j: int|
                    0 <= j < i && (#[trigger] v@[j]).node == x && v@[j].count > portion,
        decreases v@.len() - i,
    {
        if v[i].count > portion {
            let ghost before = r@;
            r.push(v[i].node);
            proof {
                assert forall|x: u64| #[trigger]
                    r@.contains(x) <==> exists|j: int|
                        0 <= j < i + 1 && (#[trigger] v@[j]).node == x && v@[j].count
                            > portion by {
                    if r@.contains(x) {
                        let p = choose|p: int| 0 <= p < r@.len() && r@[p] == x;
                        if p < before.len() {
                            assert(before[p] == x);
                            assert(before.contains(x));
                        } else {
                            assert(x == v@[i as int].node);
                        }
                    }
                    if exists|j: int|
                        0 <= j < i + 1 && (#[trigger] v@[j]).node == x && v@[j].count > portion {
                        let j = choose|j: int|
                            0 <= j < i + 1 && (#[trigger] v@[j]).node == x && v@[j].count
                                > portion;
                        if j < i {
                            assert(before.contains(x));
                            let p = choose|p: int| 0 <= p < before.len() && before[p] == x;
                            assert(r@[p] == x);
                        } else {
                            assert(r@[r@.len() - 1] == x);
                        }
                    }
                }
                assert(r@.no_duplicates()) by {
                    assert forall|a: int, b: int| 0 <= a < b < r@.len() implies r@[a] != r@[b] by {
                        if b == r@.len() - 1 {
                            assert(before.contains(r@[a]));
                            if r@[a] == v@[i as int].node {
                                let j = choose|j: int|
                                    0 <= j < i && (#[trigger] v@[j]).node == r@[a] && v@[j].count
                                        > portion;
                                assert(v@[j].node != v@[i as int].node);
                            }
                        }
                    }
                }
            }
        } else {
            proof {
                assert forall|x: u64| #[trigger]
                    r@.contains(x) <==> exists|j: int|
                        0 <= j < i + 1 && (#[trigger] v@[j]).node == x && v@[j].count
                            > portion by {
                    if exists|j: int|
                        0 <= j < i + 1 && (#[trigger] v@[j]).node == x && v@[j].count > portion {
                        let j = choose|j: int|
                            0 <= j < i + 1 && (#[trigger] v@[j]).node == x && v@[j].count
                                > portion;
                        assert(j < i);
                    }
                }
            }
        }
        i += 1;
    }
    proof {
        assert forall|x: u64| #[trigger] r@.contains(x) <==> ncount(v@, x) > portion by {
            if r@.contains(x) {
                let j = choose|j: int|
                    0 <= j < v@.len() && (#[trigger] v@[j]).node == x && v@[j].count > portion;
                lemma_ncount_entry(v@, j);
            } else {
                if ncount(v@, x) > portion {
                    assert(exists|j: int| 0 <= j < v@.len() && (#[trigger] v@[j]).node == x) by {
                        if forall|j: int| 0 <= j < v@.len() ==> (#[trigger] v@[j]).node != x {
                            lemma_ncount_absent(v@, x);
                        }
                    }
                    let j = choose|j: int| 0 <= j < v@.len() && (#[trigger] v@[j]).node == x;
                    lemma_ncount_entry(v@, j);
                }
            }
        }
    }
    r
}

/// One `(seed, visited node)` pair and how often the shared trajectory
/// was credited to that seed while standing on that node.
pub struct PairCount {
    pub seed: u64,
    pub node: u64,
    pub count: usize,
}

/// The count recorded for the pair `(a, b)`: first match, or zero.
pub open spec fn pcount(s: Seq<PairCount>, a: u64, b: u64) -> nat
    decreases s.len(),
{
    if s.len() == 0 {
        0
    } else if s[0].seed == a && s[0].node == b {
        s[0].count as nat
    } else {
        pcount(s.drop_first(), a, b)
    }
}

/// No pair appears in two entries.
pub open spec fn pkeys_unique(s: Seq<PairCount>) -> bool {
    forall|i: int, j: int| #![trigger s[i], s[j]]
        0 <= i < j < s.len() ==> !(s[i].seed == s[j].seed && s[i].node == s[j].node)
}

/// Every entry's count is at least one.
pub open spec fn ppositive(s: Seq<PairCount>) -> bool {
    forall|i: int| 0 <= i < s.len() ==> (#[trigger] s[i]).count >= 1
}

/// The recorded count of the entry at a first-match position.
proof fn lemma_pcount_first(s: Seq<PairCount>, i: int)
    requires
        0 <= i < s.len(),
        forall|j: int|
            0 <= j < i ==> !((#[trigger] s[j]).seed == s[i].seed && s[j].node == s[i].node),
    ensures
        pcount(s, s[i].seed, s[i].node) == s[i].count as nat,
    decreases i,
{
    if i > 0 {
        assert forall|j: int|
            0 <= j < i - 1 implies !((#[trigger] s.drop_first()[j]).seed == s.drop_first()[i
            - 1].seed && s.drop_first()[j].node == s.drop_first()[i - 1].node) by {
            assert(s.drop_first()[j] == s[j + 1]);
        }
        lemma_pcount_first(s.drop_first(), i - 1);
    }
}

/// With unique pairs, any entry gives that pair's count.
pub proof fn lemma_pcount_entry(s: Seq<PairCount>, i: int)
    requires
        pkeys_unique(s),
        0 <= i < s.len(),
    ensures
        pcount(s, s[i].seed, s[i].node) == s[i].count as nat,
{
    lemma_pcount_first(s, i);
}

/// A pair without an entry counts zero.
pub proof fn lemma_pcount_absent(s: Seq<PairCount>, a: u64, b: u64)
    requires
        forall|j: int| 0 <= j < s.len() ==> !((#[trigger] s[j]).seed == a && s[j].node == b),
    ensures
        pcount(s, a, b) == 0,
    decreases s.len(),
{
    if s.len() > 0 {
        assert forall|j: int|
            0 <= j < s.drop_first().len() implies !((#[trigger] s.drop_first()[j]).seed == a
            && s.drop_first()[j].node == b) by {
            assert(s.drop_first()[j] == s[j + 1]);
        }
        lemma_pcount_absent(s.drop_first(), a, b);
    }
}

/// Updating the first matching entry changes that pair's count and no
/// other.
proof fn lemma_pcount_update(s: Seq<PairCount>, i: int, e: PairCount, a: u64, b: u64)
    requires
        0 <= i < s.len(),
        s[i].seed == e.seed,
        s[i].node == e.node,
        forall|j: int| 0 <= j < i ==> !((#[trigger] s[j]).seed == e.seed && s[j].node == e.node),
    ensures
        pcount(s.update(i, e), a, b) == if a == e.seed && b == e.node {
            e.count as nat
        } else {
            pcount(s, a, b)
        },
    decreases i,
{
    let s2 = s.update(i, e);
    if i == 0 {
        assert(s2.drop_first() =~= s.drop_first());
    } else {
        assert forall|j: int|
            0 <= j < i - 1 implies !((#[trigger] s.drop_first()[j]).seed == e.seed
            && s.drop_first()[j].node == e.node) by {
            assert(s.drop_first()[j] == s[j + 1]);
        }
        lemma_pcount_update(s.drop_first(), i - 1, e, a, b);
        assert(s2.drop_first() =~= s.drop_first().update(i - 1, e));
        assert(s2[0] == s[0]);
    }
}

/// Appending an entry for a fresh pair leaves all other counts alone.
proof fn lemma_pcount_push(s: Seq<PairCount>, e: PairCount, a: u64, b: u64)
    requires
        forall|j: int| 0 <= j < s.len() ==> !((#[trigger] s[j]).seed == e.seed && s[j].node == e.node),
    ensures
        pcount(s.push(e), a, b) == if a == e.seed && b == e.node {
            e.count as nat
        } else {
            pcount(s, a, b)
        },
    decreases s.len(),
{
    let p = s.push(e);
    if s.len() == 0 {
        assert(p[0] == e);
        assert(p.drop_first() =~= Seq::<PairCount>::empty());
        assert(pcount(p.drop_first(), a, b) == 0);
        assert(pcount(p, a, b) == if p[0].seed == a && p[0].node == b {
            p[0].count as nat
        } else {
            pcount(p.drop_first(), a, b)
        });
        assert(pcount(s, a, b) == 0);
    } else {
        assert forall|j: int|
            0 <= j < s.drop_first().len() implies !((#[trigger] s.drop_first()[j]).seed == e.seed
            && s.drop_first()[j].node == e.node) by {
            assert(s.drop_first()[j] == s[j + 1]);
        }
        lemma_pcount_push(s.drop_first(), e, a, b);
        assert(p.drop_first() =~= s.drop_first().push(e));
        assert(p[0] == s[0]);
        assert(!(s[0].seed == e.seed && s[0].node == e.node));
        assert(pcount(p, a, b) == if p[0].seed == a && p[0].node == b {
            p[0].count as nat
        } else {
            pcount(p.drop_first(), a, b)
        });
        assert(pcount(s, a, b) == if s[0].seed == a && s[0].node == b {
            s[0].count as nat
        } else {
            pcount(s.drop_first(), a, b)
        });
    }
}

/// Adds one to the count of `(a, b)`, touching nothing else.
pub fn bump_pair(v: &mut Vec<PairCount>, a: u64, b: u64)
    requires
        pkeys_unique(old(v)@),
        ppositive(old(v)@),
        pcount(old(v)@, a, b) < usize::MAX,
    ensures
        pkeys_unique(final(v)@),
        ppositive(final(v)@),
        forall|x: u64, y: u64| #[trigger]
            pcount(final(v)@, x, y) == pcount(old(v)@, x, y) + if x == a && y == b {
                1nat
            } else {
                0nat
            },
{
    let mut i: usize = 0;
    while i < v.len()
        invariant
            i <= v@.len(),
            v@ == old(v)@,
            pkeys_unique(old(v)@),
            ppositive(old(v)@),
            pcount(old(v)@, a, b) < usize::MAX,
            forall|j: int| 0 <= j < i ==> !((#[trigger] v@[j]).seed == a && v@[j].node == b),
        decreases v@.len() - i,
    {
        if v[i].seed == a && v[i].node == b {
            proof {
                lemma_pcount_first(v@, i as int);
            }
            let c = v[i].count;
            assert(c < usize::MAX);
            v.set(i, PairCount { seed: a, node: b, count: c + 1 });
            proof {
                assert forall|x: u64, y: u64| #[trigger]
                    pcount(v@, x, y) == pcount(old(v)@, x, y) + if x == a && y == b {
                        1nat
                    } else {
                        0nat
                    } by {
                    lemma_pcount_update(old(v)@, i as int, v@[i as int], x, y);
                }
                assert forall|p: int, q: int| #![trigger v@[p], v@[q]]
                    0 <= p < q < v@.len() implies !(v@[p].seed == v@[q].seed && v@[p].node
                    == v@[q].node) by {
                    assert(v@[p].seed == old(v)@[p].seed && v@[p].node == old(v)@[p].node);
                    assert(v@[q].seed == old(v)@[q].seed && v@[q].node == old(v)@[q].node);
                }
                assert forall|j: int| 0 <= j < v@.len() implies (#[trigger] v@[j]).count >= 1 by {
                    if j != i {
                        assert(v@[j] == old(v)@[j]);
                    }
                }
            }
            return ;
        }
        i += 1;
    }
    proof {
        lemma_pcount_absent(v@, a, b);
    }
    v.push(PairCount { seed: a, node: b, count: 1 });
    proof {
        assert forall|x: u64, y: u64| #[trigger]
            pcount(v@, x, y) == pcount(old(v)@, x, y) + if x == a && y == b {
                1nat
            } else {
                0nat
            } by {
            lemma_pcount_push(old(v)@, PairCount { seed: a, node: b, count: 1 }, x, y);
        }
        assert forall|p: int, q: int| #![trigger v@[p], v@[q]]
            0 <= p < q < v@.len() implies !(v@[p].seed == v@[q].seed && v@[p].node
            == v@[q].node) by {
            if q == v@.len() - 1 {
                assert(!(old(v)@[p].seed == a && old(v)@[p].node == b));
            }
        }
    }
}

/// Adds `c` to the count of `(a, b)`, touching nothing else.
fn bump_pair_by(v: &mut Vec<PairCount>, a: u64, b: u64, c: usize)
    requires
        pkeys_unique(old(v)@),
        ppositive(old(v)@),
        c >= 1,
        pcount(old(v)@, a, b) + c <= usize::MAX,
    ensures
        pkeys_unique(final(v)@),
        ppositive(final(v)@),
        forall|x: u64, y: u64| #[trigger]
            pcount(final(v)@, x, y) == pcount(old(v)@, x, y) + if x == a && y == b {
                c as nat
            } else {
                0nat
            },
{
    let mut i: usize = 0;
    while i < v.len()
        invariant
            i <= v@.len(),
            v@ == old(v)@,
            pkeys_unique(old(v)@),
            ppositive(old(v)@),
            c >= 1,
            pcount(old(v)@, a, b) + c <= usize::MAX,
            forall|j: int| 0 <= j < i ==> !((#[trigger] v@[j]).seed == a && v@[j].node == b),
        decreases v@.len() - i,
    {
        if v[i].seed == a && v[i].node == b {
            proof {
                lemma_pcount_first(v@, i as int);
            }
            let cur = v[i].count;
            assert(cur + c <= usize::MAX);
            v.set(i, PairCount { seed: a, node: b, count: cur + c });
            proof {
                assert forall|x: u64, y: u64| #[trigger]
                    pcount(v@, x, y) == pcount(old(v)@, x, y) + if x == a && y == b {
                        c as nat
                    } else {
                        0nat
                    } by {
                    lemma_pcount_update(old(v)@, i as int, v@[i as int], x, y);
                }
                assert forall|p: int, q: int| #![trigger v@[p], v@[q]]
                    0 <= p < q < v@.len() implies !(v@[p].seed == v@[q].seed && v@[p].node
                    == v@[q].node) by {
                    assert(v@[p].seed == old(v)@[p].seed && v@[p].node == old(v)@[p].node);
                    assert(v@[q].seed == old(v)@[q].seed && v@[q].node == old(v)@[q].node);
                }
                assert forall|j: int| 0 <= j < v@.len() implies (#[trigger] v@[j]).count >= 1 by {
                    if j != i {
                        assert(v@[j] == old(v)@[j]);
                    }
                }
            }
            return ;
        }
        i += 1;
    }
    proof {
        lemma_pcount_absent(v@, a, b);
    }
    v.push(PairCount { seed: a, node: b, count: c });
    proof {
        assert forall|x: u64, y: u64| #[trigger]
            pcount(v@, x, y) == pcount(old(v)@, x, y) + if x == a && y == b {
                c as nat
            } else {
                0nat
            } by {
            lemma_pcount_push(old(v)@, PairCount { seed: a, node: b, count: c }, x, y);
        }
        assert forall|p: int, q: int| #![trigger v@[p], v@[q]]
            0 <= p < q < v@.len() implies !(v@[p].seed == v@[q].seed && v@[p].node
            == v@[q].node) by {
            if q == v@.len() - 1 {
                assert(!(old(v)@[p].seed == a && old(v)@[p].node == b));
            }
        }
    }
}

/// Adds every credit of `src` into `dst`: the join-barrier step of
/// accumulating independently produced counters by plain addition.
pub fn merge_pair_counts(dst: &mut Vec<PairCount>, src: &Vec<PairCount>)
    requires
        pkeys_unique(old(dst)@),
        ppositive(old(dst)@),
        pkeys_unique(src@),
        ppositive(src@),
        forall|a: u64, b: u64| #[trigger]
            pcount(old(dst)@, a, b) + pcount(src@, a, b) <= usize::MAX,
    ensures
        pkeys_unique(final(dst)@),
        ppositive(final(dst)@),
        forall|a: u64, b: u64| #[trigger]
            pcount(final(dst)@, a, b) == pcount(old(dst)@, a, b) + pcount(src@, a, b),
{
    let mut j: usize = 0;
    while j < src.len()
        invariant
            j <= src@.len(),
            pkeys_unique(dst@),
            ppositive(dst@),
            pkeys_unique(src@),
            ppositive(src@),
            forall|a: u64, b: u64| #[trigger]
                pcount(old(dst)@, a, b) + pcount(src@, a, b) <= usize::MAX,
            forall|a: u64, b: u64| #[trigger]
                pcount(dst@, a, b) == pcount(old(dst)@, a, b) + pcount(
                    src@.take(j as int),
                    a,
                    b,
                ),
        decreases src@.len() - j,
    {
        let e_seed = src[j].seed;
        let e_node = src[j].node;
        let e_count = src[j].count;
        proof {
            lemma_pcount_entry(src@, j as int);
            assert forall|j2: int|
                0 <= j2 < src@.take(j as int).len() implies !((#[trigger] src@.take(j as int)[
            j2]).seed == e_seed && src@.take(j as int)[j2].node == e_node) by {
                assert(src@.take(j as int)[j2] == src@[j2]);
            }
            lemma_pcount_absent(src@.take(j as int), e_seed, e_node);
            assert(pcount(dst@, e_seed, e_node) == pcount(old(dst)@, e_seed, e_node));
            assert(pcount(dst@, e_seed, e_node) + e_count <= usize::MAX);
        }
        bump_pair_by(dst, e_seed, e_node, e_count);
        proof {
            assert(src@.take(j + 1) =~= src@.take(j as int).push(src@[j as int]));
            assert forall|a: u64, b: u64| #[trigger]
                pcount(dst@, a, b) == pcount(old(dst)@, a, b) + pcount(
                src@.take(j + 1),
                a,
                b,
            ) by {
                lemma_pcount_push(src@.take(j as int), src@[j as int], a, b);
            }
        }
        j += 1;
    }
    proof {
        assert(src@.take(src@.len() as int) =~= src@);
    }
}

/// The nodes whose count for `seed` strictly exceeds `portion`, each
/// once.
pub fn filter_seed(v: &Vec<PairCount>, seed: u64, portion: usize) -> (r: Vec<u64>)
    requires
        pkeys_unique(v@),
    ensures
        r@.no_duplicates(),
        forall|x: u64| #[trigger] r@.contains(x) <==> pcount(v@, seed, x) > portion,
{
    let mut r: Vec<u64> = Vec::new();
    let mut i: usize = 0;
    while i < v.len()
        invariant
            i <= v@.len(),
            pkeys_unique(v@),
            r@.no_duplicates(),
            forall|x: u64| #[trigger]
                r@.contains(x) <==> exists|j: int|
                    0 <= j < i && (#[trigger] v@[j]).seed == seed && v@[j].node == x && v@[j].count
                        > portion,
        decreases v@.len() - i,
    {
        if v[i].seed == seed && v[i].count > portion {
            let ghost before = r@;
            r.push(v[i].node);
            proof {
                assert forall|x: u64| #[trigger]
                    r@.contains(x) <==> exists|j: int|
                        0 <= j < i + 1 && (#[trigger] v@[j]).seed == seed && v@[j].node == x
                            && v@[j].count > portion by {
                    if r@.contains(x) {
                        let p = choose|p: int| 0 <= p < r@.len() && r@[p] == x;
                        if p < before.len() {
                            assert(before[p] == x);
                            assert(before.contains(x));
                        } else {
                            assert(x == v@[i as int].node);
                        }
                    }
                    if exists|j: int|
                        0 <= j < i + 1 && (#[trigger] v@[j]).seed == seed && v@[j].node == x
                            && v@[j].count > portion {
                        let j = choose|j: int|
                            0 <= j < i + 1 && (#[trigger] v@[j]).seed == seed && v@[j].node == x
                                && v@[j].count > portion;
                        if j < i {
                            assert(before.contains(x));
                            let p = choose|p: int| 0 <= p < before.len() && before[p] == x;
                            assert(r@[p] == x);
                        } else {
                            assert(r@[r@.len() - 1] == x);
                        }
                    }
                }
                assert(r@.no_duplicates()) by {
                    assert forall|p: int, q: int| 0 <= p < q < r@.len() implies r@[p] != r@[q] by {
                        if q == r@.len() - 1 {
                            assert(before.contains(r@[p]));
                            if r@[p] == v@[i as int].node {
                                let j = choose|j: int|
                                    0 <= j < i && (#[trigger] v@[j]).seed == seed && v@[j].node
                                        == r@[p] && v@[j].count > portion;
                                assert(!(v@[j].seed == v@[i as int].seed && v@[j].node
                                    == v@[i as int].node));
                            }
                        }
                    }
                }
            }
        } else {
            proof {
                assert forall|x: u64| #[trigger]
                    r@.contains(x) <==> exists|j: int|
                        0 <= j < i + 1 && (#[trigger] v@[j]).seed == seed && v@[j].node == x
                            && v@[j].count > portion by {
                    if exists|j: int|
                        0 <= j < i + 1 && (#[trigger] v@[j]).seed == seed && v@[j].node == x
                            && v@[j].count > portion {
                        let j = choose|j: int|
                            0 <= j < i + 1 && (#[trigger] v@[j]).seed == seed && v@[j].node == x
                                && v@[j].count > portion;
                        assert(j < i);
                    }
                }
            }
        }
        i += 1;
    }
    proof {
        assert forall|x: u64| #[trigger] r@.contains(x) <==> pcount(v@, seed, x) > portion by {
            if r@.contains(x) {
                let j = choose|j: int|
                    0 <= j < v@.len() && (#[trigger] v@[j]).seed == seed && v@[j].node == x
                        && v@[j].count > portion;
                lemma_pcount_entry(v@, j);
            } else {
                if pcount(v@, seed, x) > portion {
                    assert(exists|j: int|
                        0 <= j < v@.len() && (#[trigger] v@[j]).seed == seed && v@[j].node
                            == x) by {
                        if forall|j: int|
                            0 <= j < v@.len() ==> !((#[trigger] v@[j]).seed == seed && v@[j].node
                                == x) {
                            lemma_pcount_absent(v@, seed, x);
                        }
                    }
                    let j = choose|j: int|
                        0 <= j < v@.len() && (#[trigger] v@[j]).seed == seed && v@[j].node == x;
                    lemma_pcount_entry(v@, j);
                }
            }
        }
    }
    r
}

} // verus!
