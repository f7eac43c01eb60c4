//! The graph store: an adjacency-list undirected graph keyed by 64-bit
//! node identifiers, with all of its mutation primitives.
//!
//! The store is modelled as a map from node id to the ordered sequence
//! of its neighbours' ids.  A well-formed store is symmetric (if `b`
//! appears in `a`'s list then `a` appears in `b`'s) and free of
//! duplicate neighbours.  Every mutation except `add_node` preserves
//! well-formedness; `add_node` deliberately resets an existing node's
//! adjacency list and may therefore break symmetry (see its contract).

use vstd::prelude::*;
use std::collections::HashMap;

verus! {

broadcast use vstd::std_specs::hash::group_hash_axioms;

/// An undirected graph: each present node id owns the ordered list of
/// its neighbours' ids.  A node with an empty list is present but
/// isolated, which is distinct from an absent node.
pub struct Graph {
    pub nodes: HashMap<u64, Vec<u64>>,
}

impl View for Graph {
    type V = Map<u64, Seq<u64>>;

    open spec fn view(&self) -> Map<u64, Seq<u64>> {
        Map::new(
            |k: u64| self.nodes@.contains_key(k),
            |k: u64| self.nodes@[k]@,
        )
    }
}

/// A well-formed store: no duplicate neighbours in any list, and
/// adjacency is symmetric.
pub open spec fn wf(g: Map<u64, Seq<u64>>) -> bool {
    &&& forall|a: u64| g.contains_key(a) ==> (#[trigger] g[a]).no_duplicates()
    &&& forall|a: u64, b: u64|
        #![trigger g[a].contains(b)]
        g.contains_key(a) && g[a].contains(b) ==> g.contains_key(b) && g[b].contains(a)
}

pub fn new_graph() -> (g: Graph)
    ensures
        g@ == Map::<u64, Seq<u64>>::empty(),
        wf(g@),
{
    let g = Graph { nodes: HashMap::new() };
    proof {
        assert(g@ =~= Map::<u64, Seq<u64>>::empty());
    }
    g
}

/// The number of nodes currently present in the store.
pub fn len(graph: &Graph) -> (n: usize)
    ensures
        n == graph@.dom().len(),
{
    proof {
        assert(graph@.dom() =~= graph.nodes@.dom());
    }
    graph.nodes.len()
}

/// Inserts `node_id` with an empty adjacency list.  If the node already
/// existed its list is overwritten: an idempotent reset, not a merge.
/// The reset can break symmetry when the node had edges; the final
/// clause says exactly when well-formedness survives.
pub fn add_node(graph: &mut Graph, node_id: u64)
    ensures
        final(graph)@ == old(graph)@.insert(node_id, Seq::<u64>::empty()),
        wf(old(graph)@) && (!old(graph)@.contains_key(node_id) || old(graph)@[node_id].len()
            == 0) ==> wf(final(graph)@),
{
    graph.nodes.insert(node_id, Vec::new());
    proof {
        assert(graph@ =~= old(graph)@.insert(node_id, Seq::<u64>::empty()));
        if wf(old(graph)@) && (!old(graph)@.contains_key(node_id) || old(graph)@[node_id].len()
            == 0) {
            lemma_add_isolated_wf(old(graph)@, node_id);
        }
    }
}

/// Adding a node that no adjacency list mentions keeps the store
/// well-formed; under well-formedness, a node with an empty list is
/// mentioned by no one.
proof fn lemma_add_isolated_wf(g: Map<u64, Seq<u64>>, id: u64)
    requires
        wf(g),
        !g.contains_key(id) || g[id].len() == 0,
    ensures
        wf(g.insert(id, Seq::<u64>::empty())),
{
    let g2 = g.insert(id, Seq::<u64>::empty());
    assert forall|a: u64, b: u64|
        g2.contains_key(a) && #[trigger] g2[a].contains(b) implies g2.contains_key(b)
        && g2[b].contains(a) by {
        assert(a != id);
        assert(g[a].contains(b));
        if b == id {
            assert(g[id].contains(a));
        }
    }
}

/// How many times `x` occurs in `s`.
pub open spec fn occ(s: Seq<u64>, x: u64) -> nat
    decreases s.len(),
{
    if s.len() == 0 {
        0
    } else {
        (if s[0] == x {
            1nat
        } else {
            0nat
        }) + occ(s.drop_first(), x)
    }
}

/// `s` with its first occurrence of `x` (if any) deleted.
pub open spec fn remove_first(s: Seq<u64>, x: u64) -> Seq<u64>
    decreases s.len(),
{
    if s.len() == 0 {
        s
    } else if s[0] == x {
        s.drop_first()
    } else {
        seq![s[0]] + remove_first(s.drop_first(), x)
    }
}

proof fn lemma_no_dup_drop_first(s: Seq<u64>)
    requires
        s.len() > 0,
        s.no_duplicates(),
    ensures
        s.drop_first().no_duplicates(),
        !s.drop_first().contains(s[0]),
{
    assert forall|i: int, j: int|
        0 <= i < j < s.drop_first().len() implies s.drop_first()[i] != s.drop_first()[j] by {
        assert(s[i + 1] != s[j + 1]);
    }
    if s.drop_first().contains(s[0]) {
        let i = choose|i: int| 0 <= i < s.drop_first().len() && s.drop_first()[i] == s[0];
        assert(s[i + 1] == s[0]);
    }
}

proof fn lemma_occ_no_dup(s: Seq<u64>, x: u64)
    requires
        s.no_duplicates(),
    ensures
        occ(s, x) == if s.contains(x) {
            1nat
        } else {
            0nat
        },
    decreases s.len(),
{
    if s.len() == 0 {
        assert(!s.contains(x));
    } else {
        lemma_no_dup_drop_first(s);
        lemma_occ_no_dup(s.drop_first(), x);
        if s[0] == x {
            assert(s.contains(x));
            assert(!s.drop_first().contains(x));
        } else {
            if s.contains(x) {
                let i = choose|i: int| 0 <= i < s.len() && s[i] == x;
                assert(s.drop_first()[i - 1] == x);
                assert(s.drop_first().contains(x));
            } else {
                if s.drop_first().contains(x) {
                    let i = choose|i: int|
                        0 <= i < s.drop_first().len() && s.drop_first()[i] == x;
                    assert(s[i + 1] == x);
                }
            }
        }
    }
}

/// What deleting the first occurrence does to membership and
/// duplicate-freedom, when the sequence had no duplicates.
pub proof fn lemma_remove_first_props(s: Seq<u64>, x: u64)
    requires
        s.no_duplicates(),
    ensures
        remove_first(s, x).no_duplicates(),
        forall|y: u64| #[trigger]
            remove_first(s, x).contains(y) <==> (s.contains(y) && y != x),
    decreases s.len(),
{
    let r = remove_first(s, x);
    if s.len() == 0 {
        assert forall|y: u64| #[trigger] r.contains(y) <==> (s.contains(y) && y != x) by {
            assert(!r.contains(y));
            assert(!s.contains(y));
        }
    } else {
        lemma_no_dup_drop_first(s);
        if s[0] == x {
            assert forall|y: u64| #[trigger] r.contains(y) <==> (s.contains(y) && y != x) by {
                if r.contains(y) {
                    let i = choose|i: int| 0 <= i < r.len() && r[i] == y;
                    assert(s[i + 1] == y);
                    assert(s.contains(y));
                }
                if s.contains(y) && y != x {
                    let i = choose|i: int| 0 <= i < s.len() && s[i] == y;
                    assert(i > 0);
                    assert(r[i - 1] == y);
                }
            }
        } else {
            lemma_remove_first_props(s.drop_first(), x);
            let rd = remove_first(s.drop_first(), x);
            assert(r =~= seq![s[0]] + rd);
            assert forall|y: u64| #[trigger] r.contains(y) <==> (s.contains(y) && y != x) by {
                if r.contains(y) {
                    let i = choose|i: int| 0 <= i < r.len() && r[i] == y;
                    if i == 0 {
                        assert(y == s[0]);
                        assert(s.contains(y));
                    } else {
                        assert(rd[i - 1] == y);
                        assert(rd.contains(y));
                        assert(s.drop_first().contains(y));
                        let j = choose|j: int|
                            0 <= j < s.drop_first().len() && s.drop_first()[j] == y;
                        assert(s[j + 1] == y);
                        assert(s.contains(y));
                    }
                }
                if s.contains(y) && y != x {
                    let i = choose|i: int| 0 <= i < s.len() && s[i] == y;
                    if i == 0 {
                        assert(r[0] == y);
                    } else {
                        assert(s.drop_first()[i - 1] == y);
                        assert(s.drop_first().contains(y));
                        assert(rd.contains(y));
                        let j = choose|j: int| 0 <= j < rd.len() && rd[j] == y;
                        assert(r[j + 1] == y);
                    }
                }
            }
            assert forall|i: int, j: int| 0 <= i < j < r.len() implies r[i] != r[j] by {
                if i == 0 {
                    assert(r[j] == rd[j - 1]);
                    assert(rd.contains(rd[j - 1]));
                    assert(s.drop_first().contains(r[j]));
                    assert(!s.drop_first().contains(s[0]));
                } else {
                    assert(r[i] == rd[i - 1] && r[j] == rd[j - 1]);
                }
            }
        }
    }
}

proof fn lemma_remove_first_absent(s: Seq<u64>, x: u64)
    requires
        !s.contains(x),
    ensures
        remove_first(s, x) == s,
    decreases s.len(),
{
    if s.len() > 0 {
        assert(s[0] != x);
        assert forall|i: int| 0 <= i < s.drop_first().len() implies s.drop_first()[i] != x by {
            assert(s[i + 1] != x);
        }
        lemma_remove_first_absent(s.drop_first(), x);
        assert(remove_first(s, x) =~= s);
    }
}

pub proof fn lemma_remove_first_at(s: Seq<u64>, x: u64, i: int)
    requires
        0 <= i < s.len(),
        s[i] == x,
        forall|j: int| 0 <= j < i ==> s[j] != x,
    ensures
        remove_first(s, x) == s.remove(i),
    decreases i,
{
    if i == 0 {
        assert(remove_first(s, x) =~= s.remove(0));
    } else {
        assert(s.drop_first()[i - 1] == x);
        assert forall|j: int| 0 <= j < i - 1 implies s.drop_first()[j] != x by {
            assert(s[j + 1] != x);
        }
        lemma_remove_first_at(s.drop_first(), x, i - 1);
        assert(remove_first(s, x) =~= s.remove(i));
    }
}

/// Whether `x` occurs in `v`.
fn vec_contains(v: &Vec<u64>, x: u64) -> (r: bool)
    ensures
        r == v@.contains(x),
{
    let mut i: usize = 0;
    while i < v.len()
        invariant
            i <= v@.len(),
            forall|j: int| 0 <= j < i ==> v@[j] != x,
        decreases v@.len() - i,
    {
        if v[i] == x {
            return true;
        }
        i += 1;
    }
    false
}

/// Deletes the first occurrence of `x` from `v`, if any.
fn vec_remove_first(v: &mut Vec<u64>, x: u64)
    ensures
        final(v)@ == remove_first(old(v)@, x),
{
    let mut i: usize = 0;
    while i < v.len()
        invariant
            i <= v@.len(),
            v@ == old(v)@,
            forall|j: int| 0 <= j < i ==> v@[j] != x,
        decreases v@.len() - i,
    {
        if v[i] == x {
            v.remove(i);
            proof {
                lemma_remove_first_at(old(v)@, x, i as int);
            }
            return ;
        }
        i += 1;
    }
    proof {
        lemma_remove_first_absent(old(v)@, x);
    }
}

/// The graph after `add_edge(a, b)`: both endpoints are made present,
/// then each is appended to the other's list unless already there.
pub open spec fn spec_add_edge(g: Map<u64, Seq<u64>>, a: u64, b: u64) -> Map<u64, Seq<u64>> {
    let g1 = if g.contains_key(a) {
        g
    } else {
        g.insert(a, Seq::empty())
    };
    let g2 = if g1.contains_key(b) {
        g1
    } else {
        g1.insert(b, Seq::empty())
    };
    let g3 = if g2[a].contains(b) {
        g2
    } else {
        g2.insert(a, g2[a].push(b))
    };
    let g4 = if g3[b].contains(a) {
        g3
    } else {
        g3.insert(b, g3[b].push(a))
    };
    g4
}

/// Ensures both endpoints exist (creating them if absent), then records
/// the edge on both sides unless already present.  Absent nodes are
/// never an error.  Under well-formedness each endpoint ends up in the
/// other's list exactly once, so calling this twice changes nothing.
pub fn add_edge(graph: &mut Graph, node_id_a: u64, node_id_b: u64)
    ensures
        final(graph)@ == spec_add_edge(old(graph)@, node_id_a, node_id_b),
        wf(old(graph)@) ==> wf(final(graph)@),
        wf(old(graph)@) ==> {
            &&& final(graph)@.contains_key(node_id_a)
            &&& final(graph)@.contains_key(node_id_b)
            &&& occ(final(graph)@[node_id_a], node_id_b) == 1
            &&& occ(final(graph)@[node_id_b], node_id_a) == 1
        },
        old(graph)@.contains_key(node_id_a) && old(graph)@[node_id_a].contains(node_id_b)
            && old(graph)@.contains_key(node_id_b) && old(graph)@[node_id_b].contains(node_id_a)
            ==> final(graph)@ == old(graph)@,
{
    if !graph.nodes.contains_key(&node_id_a) {
        add_node(graph, node_id_a);
    }
    if !graph.nodes.contains_key(&node_id_b) {
        add_node(graph, node_id_b);
    }
    let ghost g2 = graph@;
    let mut list_a = match graph.nodes.remove(&node_id_a) {
        Some(l) => l,
        None => Vec::new(),
    };
    if !vec_contains(&list_a, node_id_b) {
        list_a.push(node_id_b);
    }
    graph.nodes.insert(node_id_a, list_a);
    let ghost g3 = graph@;
    proof {
        assert(g3 =~= if g2[node_id_a].contains(node_id_b) {
            g2
        } else {
            g2.insert(node_id_a, g2[node_id_a].push(node_id_b))
        });
    }
    let mut list_b = match graph.nodes.remove(&node_id_b) {
        Some(l) => l,
        None => Vec::new(),
    };
    if !vec_contains(&list_b, node_id_a) {
        list_b.push(node_id_a);
    }
    graph.nodes.insert(node_id_b, list_b);
    proof {
        assert(graph@ =~= if g3[node_id_b].contains(node_id_a) {
            g3
        } else {
            g3.insert(node_id_b, g3[node_id_b].push(node_id_a))
        });
        assert(final(graph)@ == spec_add_edge(old(graph)@, node_id_a, node_id_b));
        if wf(old(graph)@) {
            lemma_add_edge_wf(old(graph)@, node_id_a, node_id_b);
            lemma_occ_no_dup(final(graph)@[node_id_a], node_id_b);
            lemma_occ_no_dup(final(graph)@[node_id_b], node_id_a);
        }
        if old(graph)@.contains_key(node_id_a) && old(graph)@[node_id_a].contains(node_id_b)
            && old(graph)@.contains_key(node_id_b) && old(graph)@[node_id_b].contains(
            node_id_a,
        ) {
            assert(final(graph)@ =~= old(graph)@);
        }
    }
}

/// `add_edge` keeps the store well-formed, and leaves each endpoint
/// listed by the other.
proof fn lemma_add_edge_wf(g: Map<u64, Seq<u64>>, a: u64, b: u64)
    requires
        wf(g),
    ensures
        wf(spec_add_edge(g, a, b)),
        spec_add_edge(g, a, b).contains_key(a),
        spec_add_edge(g, a, b).contains_key(b),
        spec_add_edge(g, a, b)[a].contains(b),
        spec_add_edge(g, a, b)[b].contains(a),
{
    let g1 = if g.contains_key(a) {
        g
    } else {
        g.insert(a, Seq::empty())
    };
    let g2 = if g1.contains_key(b) {
        g1
    } else {
        g1.insert(b, Seq::empty())
    };
    if !g.contains_key(a) {
        lemma_add_isolated_wf(g, a);
    }
    if !g1.contains_key(b) {
        lemma_add_isolated_wf(g1, b);
    }
    assert(wf(g2));
    let g3 = if g2[a].contains(b) {
        g2
    } else {
        g2.insert(a, g2[a].push(b))
    };
    let g4 = if g3[b].contains(a) {
        g3
    } else {
        g3.insert(b, g3[b].push(a))
    };
    assert(g3[b].contains(a) ==> g4 == g3);
    assert(g4[a].contains(b)) by {
        if !g2[a].contains(b) {
            assert(g3[a] == g2[a].push(b));
            assert(g3[a][g3[a].len() - 1] == b);
            assert(g3[a].contains(b));
        }
        if !g3[b].contains(a) {
            if a == b {
                assert(g4[a] == g3[a].push(a));
                assert(g4[a][g4[a].len() - 1] == a);
            } else {
                assert(g4[a] == g3[a]);
            }
        }
    }
    assert(g4[b].contains(a)) by {
        if !g3[b].contains(a) {
            assert(g4[b] == g3[b].push(a));
            assert(g4[b][g4[b].len() - 1] == a);
        }
    }
    assert forall|x: u64| g4.contains_key(x) implies (#[trigger] g4[x]).no_duplicates() by {
        if x == a && !g2[a].contains(b) && (a != b || g3[b].contains(a)) {
            assert(g3[a] == g2[a].push(b));
            assert forall|i: int, j: int| 0 <= i < j < g3[a].len() implies g3[a][i]
                != g3[a][j] by {
                if j == g3[a].len() - 1 {
                    assert(g2[a][i] == g3[a][i]);
                    assert(g2[a].contains(g2[a][i]) ==> true);
                    assert(!g2[a].contains(b));
                    assert(g2[a][i] != b) by {
                        if g2[a][i] == b {
                            assert(g2[a].contains(b));
                        }
                    }
                }
            }
            if g3[b].contains(a) || x != b {
                assert(g4[x] == g3[a]);
            }
        }
        if x == b && !g3[b].contains(a) {
            assert(g4[b] == g3[b].push(a));
            assert forall|i: int, j: int| 0 <= i < j < g4[b].len() implies g4[b][i]
                != g4[b][j] by {
                if j == g4[b].len() - 1 {
                    assert(g3[b][i] == g4[b][i]);
                    assert(g3[b][i] != a) by {
                        if g3[b][i] == a {
                            assert(g3[b].contains(a));
                        }
                    }
                }
            }
        }
    }
    assert forall|x: u64, y: u64|
        g4.contains_key(x) && #[trigger] g4[x].contains(y) implies g4.contains_key(y)
        && g4[y].contains(x) by {
        lemma_add_edge_wf_sym(g2, a, b, x, y);
    }
}

/// The symmetry half of `lemma_add_edge_wf`, for one pair `(x, y)`,
/// starting from the graph in which both endpoints already exist.
proof fn lemma_add_edge_wf_sym(g2: Map<u64, Seq<u64>>, a: u64, b: u64, x: u64, y: u64)
    requires
        wf(g2),
        g2.contains_key(a),
        g2.contains_key(b),
    ensures
        ({
            let g3 = if g2[a].contains(b) {
                g2
            } else {
                g2.insert(a, g2[a].push(b))
            };
            let g4 = if g3[b].contains(a) {
                g3
            } else {
                g3.insert(b, g3[b].push(a))
            };
            g4.contains_key(x) && g4[x].contains(y) ==> g4.contains_key(y) && g4[y].contains(x)
        }),
{
    let g3 = if g2[a].contains(b) {
        g2
    } else {
        g2.insert(a, g2[a].push(b))
    };
    let g4 = if g3[b].contains(a) {
        g3
    } else {
        g3.insert(b, g3[b].push(a))
    };
    if g4.contains_key(x) && g4[x].contains(y) {
        // Membership in g4[x] is membership in g2[x], or the freshly
        // pushed endpoint.
        let old_has = g2[x].contains(y);
        if !old_has {
            // y was pushed: (x, y) is (a, b) or (b, a).
            assert((x == a && y == b) || (x == b && y == a)) by {
                if !(x == b && y == a) {
                    lemma_push_contains(g2, g3, g4, a, b, x, y);
                }
            }
            // The other direction was pushed too, or was already there.
            if x == a && y == b {
                assert(g4[b].contains(a)) by {
                    if !g3[b].contains(a) {
                        assert(g4[b] == g3[b].push(a));
                        assert(g4[b][g4[b].len() - 1] == a);
                    }
                }
            } else {
                assert(g4[a].contains(b)) by {
                    if !g2[a].contains(b) {
                        assert(g3[a] == g2[a].push(b));
                        assert(g3[a][g3[a].len() - 1] == b);
                        assert(g3[a].contains(b));
                    }
                    if !g3[b].contains(a) && a == b {
                        assert(g4[a] == g3[a].push(a));
                        assert forall|i: int|
                            0 <= i < g3[a].len() implies g4[a][i] == g3[a][i] by {}
                        let i = choose|i: int| 0 <= i < g3[a].len() && g3[a][i] == b;
                        assert(g4[a][i] == b);
                    }
                }
            }
        } else {
            // The edge was already recorded in g2, so symmetry in g2
            // carries over: lists only grow.
            assert(g2.contains_key(x));
            assert(g2[y].contains(x));
            assert(g4.contains_key(y));
            assert(g4[y].contains(x)) by {
                lemma_grow_contains(g2, g3, g4, a, b, y, x);
            }
        }
    }
}

/// Every list of the post-`add_edge` graph extends the corresponding
/// pre-graph list, so membership is preserved.
proof fn lemma_grow_contains(
    g2: Map<u64, Seq<u64>>,
    g3: Map<u64, Seq<u64>>,
    g4: Map<u64, Seq<u64>>,
    a: u64,
    b: u64,
    y: u64,
    x: u64,
)
    requires
        g2.contains_key(a),
        g2.contains_key(b),
        g3 == if g2[a].contains(b) {
            g2
        } else {
            g2.insert(a, g2[a].push(b))
        },
        g4 == if g3[b].contains(a) {
            g3
        } else {
            g3.insert(b, g3[b].push(a))
        },
        g2.contains_key(y),
        g2[y].contains(x),
    ensures
        g4[y].contains(x),
{
    assert(g3[y].contains(x)) by {
        if y == a && !g2[a].contains(b) {
            let i = choose|i: int| 0 <= i < g2[y].len() && g2[y][i] == x;
            assert(g3[y][i] == x);
        }
    }
    if y == b && !g3[b].contains(a) {
        let i = choose|i: int| 0 <= i < g3[y].len() && g3[y][i] == x;
        assert(g4[y][i] == x);
    }
}

/// If `y` is in `g4[x]` but was not in `g2[x]`, then it was pushed
/// there by one of the two appends, so `(x, y)` is `(a, b)` or
/// `(b, a)`.
proof fn lemma_push_contains(
    g2: Map<u64, Seq<u64>>,
    g3: Map<u64, Seq<u64>>,
    g4: Map<u64, Seq<u64>>,
    a: u64,
    b: u64,
    x: u64,
    y: u64,
)
    requires
        g2.contains_key(a),
        g2.contains_key(b),
        g3 == if g2[a].contains(b) {
            g2
        } else {
            g2.insert(a, g2[a].push(b))
        },
        g4 == if g3[b].contains(a) {
            g3
        } else {
            g3.insert(b, g3[b].push(a))
        },
        g4.contains_key(x),
        g4[x].contains(y),
        !g2[x].contains(y),
    ensures
        (x == a && y == b) || (x == b && y == a),
{
    if x != a && x != b {
        assert(g4[x] == g2[x]);
        assert(false);
    }
    let i = choose|i: int| 0 <= i < g4[x].len() && g4[x][i] == y;
    if x == b && !g3[b].contains(a) {
        // g4[x] is g3[b] plus a pushed `a`.
        if i < g3[b].len() {
            assert(g3[b][i] == y);
            if x == a && !g2[a].contains(b) {
                if i < g2[x].len() {
                    assert(g2[x][i] == y);
                    assert(g2[x].contains(y));
                    assert(false);
                } else {
                    assert(y == b);
                }
            } else {
                assert(g3[x] == g2[x]);
                assert(g2[x].contains(y));
                assert(false);
            }
        } else {
            assert(y == a);
        }
    } else {
        assert(g4[x] == g3[x]);
        assert(x == a && !g2[a].contains(b));
        if i < g2[x].len() {
            assert(g2[x][i] == y);
            assert(g2[x].contains(y));
            assert(false);
        } else {
            assert(y == b);
        }
    }
}

/// `add_edge` applied a second time with the same endpoints changes
/// nothing, and each endpoint's list holds the other exactly once.
pub proof fn lemma_add_edge_twice(g: Map<u64, Seq<u64>>, a: u64, b: u64)
    requires
        wf(g),
    ensures
        spec_add_edge(spec_add_edge(g, a, b), a, b) == spec_add_edge(g, a, b),
        occ(spec_add_edge(g, a, b)[a], b) == 1,
        occ(spec_add_edge(g, a, b)[b], a) == 1,
{
    let g4 = spec_add_edge(g, a, b);
    lemma_add_edge_wf(g, a, b);
    assert(spec_add_edge(g4, a, b) =~= g4);
    lemma_occ_no_dup(g4[a], b);
    lemma_occ_no_dup(g4[b], a);
}

/// The graph after `remove_edge(a, b)`: the first occurrence of `b` is
/// deleted from `a`'s list, then the first occurrence of `a` from
/// `b`'s list; an absent node or reference is a harmless no-op.
pub open spec fn spec_remove_edge(g: Map<u64, Seq<u64>>, a: u64, b: u64) -> Map<u64, Seq<u64>> {
    let g1 = if g.contains_key(a) {
        g.insert(a, remove_first(g[a], b))
    } else {
        g
    };
    let g2 = if g1.contains_key(b) {
        g1.insert(b, remove_first(g1[b], a))
    } else {
        g1
    };
    g2
}

/// Deletes the edge between `a` and `b`, each side independently and
/// only if present; unknown identifiers are no-ops, never errors.
pub fn remove_edge(graph: &mut Graph, node_id_a: u64, node_id_b: u64)
    ensures
        final(graph)@ == spec_remove_edge(old(graph)@, node_id_a, node_id_b),
        wf(old(graph)@) ==> wf(final(graph)@),
        wf(old(graph)@) ==> {
            &&& final(graph)@.contains_key(node_id_a) ==> !final(graph)@[node_id_a].contains(
                node_id_b,
            )
            &&& final(graph)@.contains_key(node_id_b) ==> !final(graph)@[node_id_b].contains(
                node_id_a,
            )
        },
{
    match graph.nodes.remove(&node_id_a) {
        Some(mut list_a) => {
            vec_remove_first(&mut list_a, node_id_b);
            graph.nodes.insert(node_id_a, list_a);
        },
        None => {},
    }
    let ghost g1 = graph@;
    proof {
        assert(g1 =~= if old(graph)@.contains_key(node_id_a) {
            old(graph)@.insert(node_id_a, remove_first(old(graph)@[node_id_a], node_id_b))
        } else {
            old(graph)@
        });
    }
    match graph.nodes.remove(&node_id_b) {
        Some(mut list_b) => {
            vec_remove_first(&mut list_b, node_id_a);
            graph.nodes.insert(node_id_b, list_b);
        },
        None => {},
    }
    proof {
        assert(graph@ =~= if g1.contains_key(node_id_b) {
            g1.insert(node_id_b, remove_first(g1[node_id_b], node_id_a))
        } else {
            g1
        });
        assert(final(graph)@ == spec_remove_edge(old(graph)@, node_id_a, node_id_b));
        if wf(old(graph)@) {
            lemma_remove_edge_wf(old(graph)@, node_id_a, node_id_b);
        }
    }
}

/// `remove_edge` keeps the store well-formed and leaves neither
/// endpoint listing the other.
proof fn lemma_remove_edge_wf(g: Map<u64, Seq<u64>>, a: u64, b: u64)
    requires
        wf(g),
    ensures
        wf(spec_remove_edge(g, a, b)),
        spec_remove_edge(g, a, b).contains_key(a) ==> !spec_remove_edge(g, a, b)[a].contains(b),
        spec_remove_edge(g, a, b).contains_key(b) ==> !spec_remove_edge(g, a, b)[b].contains(a),
{
    let g2 = spec_remove_edge(g, a, b);
    if g.contains_key(a) {
        lemma_remove_first_props(g[a], b);
    }
    let g1 = if g.contains_key(a) {
        g.insert(a, remove_first(g[a], b))
    } else {
        g
    };
    if g1.contains_key(b) {
        assert(g1[b].no_duplicates());
        lemma_remove_first_props(g1[b], a);
    }
    // Pointwise: g2[x] keeps exactly the members of g[x] other than the
    // deleted endpoint, so symmetry carries over.
    assert forall|x: u64, y: u64|
        g2.contains_key(x) && #[trigger] g2[x].contains(y) implies g2.contains_key(y)
        && g2[y].contains(x) by {
        assert(g.contains_key(x));
        assert(g[x].contains(y)) by {
            lemma_member_after_remove_edge(g, g1, g2, a, b, x, y);
        }
        assert(g.contains_key(y) && g[y].contains(x));
        assert(!(x == a && y == b) && !(x == b && y == a)) by {
            lemma_member_after_remove_edge(g, g1, g2, a, b, x, y);
        }
        assert(g2[y].contains(x)) by {
            if y == a {
                // x != b here, so x survives the deletion from a's list.
                assert(g1[a] == remove_first(g[a], b));
                assert(g1[a].contains(x));
                if a == b {
                    assert(g2[a] == remove_first(g1[a], a));
                    lemma_remove_first_props(g1[a], a);
                } else {
                    assert(g2[a] == g1[a]);
                }
            } else if y == b {
                assert(g1[b] == g[b]);
                assert(g2[b] == remove_first(g1[b], a));
                assert(g2[b].contains(x));
            } else {
                assert(g2[y] == g[y]);
            }
        }
    }
    assert forall|x: u64| g2.contains_key(x) implies (#[trigger] g2[x]).no_duplicates() by {
        if x == b && g1.contains_key(b) {
            assert(g2[b] == remove_first(g1[b], a));
        } else if x == a && g.contains_key(a) {
            assert(g2[a] == g1[a]);
        } else {
            assert(g2[x] == g[x]);
        }
    }
    if g2.contains_key(a) {
        assert(!g2[a].contains(b)) by {
            if a == b {
                lemma_remove_first_props(g1[a], a);
            } else {
                assert(g2[a] == remove_first(g[a], b));
            }
        }
    }
    if g2.contains_key(b) {
        assert(!g2[b].contains(a)) by {
            assert(g2[b] == remove_first(g1[b], a));
            lemma_remove_first_props(g1[b], a);
        }
    }
}

/// After `remove_edge`, membership implies prior membership, and the
/// deleted pair itself is gone (in both orientations).
proof fn lemma_member_after_remove_edge(
    g: Map<u64, Seq<u64>>,
    g1: Map<u64, Seq<u64>>,
    g2: Map<u64, Seq<u64>>,
    a: u64,
    b: u64,
    x: u64,
    y: u64,
)
    requires
        wf(g),
        g1 == if g.contains_key(a) {
            g.insert(a, remove_first(g[a], b))
        } else {
            g
        },
        g2 == if g1.contains_key(b) {
            g1.insert(b, remove_first(g1[b], a))
        } else {
            g1
        },
        g2.contains_key(x),
        g2[x].contains(y),
    ensures
        g[x].contains(y),
        !(x == a && y == b),
        !(x == b && y == a),
{
    if g.contains_key(a) {
        lemma_remove_first_props(g[a], b);
    }
    if g1.contains_key(b) {
        assert(g1[b].no_duplicates()) by {
            if b == a && g.contains_key(a) {
                assert(g1[b] == remove_first(g[a], b));
            }
        }
        lemma_remove_first_props(g1[b], a);
    }
    if x == b && g1.contains_key(b) {
        assert(g2[b] == remove_first(g1[b], a));
        assert(g1[b].contains(y) && y != a);
        if b == a && g.contains_key(a) {
            assert(g1[b] == remove_first(g[a], b));
        }
    } else if x == a && g.contains_key(a) {
        assert(g2[x] == remove_first(g[a], b));
        assert(g[a].contains(y) && y != b);
    } else {
        assert(g2[x] == g[x]);
        if x == a {
            assert(!g.contains_key(a));
            assert(false);
        }
        if x == b {
            assert(!g1.contains_key(b));
            assert(false);
        }
    }
}

/// One pruning step of `remove_node`: delete the first occurrence of
/// `id` from `b`'s list, if `b` is present.
pub open spec fn prune_one(g: Map<u64, Seq<u64>>, id: u64, b: u64) -> Map<u64, Seq<u64>> {
    if g.contains_key(b) {
        g.insert(b, remove_first(g[b], id))
    } else {
        g
    }
}

/// The pruning steps of `remove_node`, applied for each recorded
/// neighbour of `id` in list order.
pub open spec fn prune(g: Map<u64, Seq<u64>>, id: u64, list: Seq<u64>) -> Map<u64, Seq<u64>>
    decreases list.len(),
{
    if list.len() == 0 {
        g
    } else {
        prune_one(prune(g, id, list.drop_last()), id, list.last())
    }
}

/// The graph after `remove_node(id)`: `id`'s entry is removed, and
/// every neighbour recorded in its (now-removed) list has `id` deleted
/// from its own list; a no-op if `id` is absent.
pub open spec fn spec_remove_node(g: Map<u64, Seq<u64>>, id: u64) -> Map<u64, Seq<u64>> {
    if g.contains_key(id) {
        prune(g.remove(id), id, g[id])
    } else {
        g
    }
}

/// Removes `id` and prunes all back-references to it from its former
/// neighbours; an unknown id is a harmless no-op.  On a well-formed
/// store, no adjacency list mentions `id` afterwards.
pub fn remove_node(graph: &mut Graph, node_id: u64)
    ensures
        final(graph)@ == spec_remove_node(old(graph)@, node_id),
        wf(old(graph)@) ==> wf(final(graph)@),
        !final(graph)@.contains_key(node_id),
        final(graph)@.dom() == old(graph)@.dom().remove(node_id),
        wf(old(graph)@) ==> forall|x: u64|
            final(graph)@.contains_key(x) ==> !(#[trigger] final(graph)@[x]).contains(node_id),
{
    let ghost g0 = old(graph)@;
    match graph.nodes.remove(&node_id) {
        None => {
            proof {
                assert(graph@ =~= spec_remove_node(g0, node_id));
                assert(graph@.dom() =~= g0.dom().remove(node_id));
            }
        },
        Some(edge_list) => {
            let ghost g1 = g0.remove(node_id);
            proof {
                assert(graph@ =~= g1);
            }
            let mut i: usize = 0;
            while i < edge_list.len()
                invariant
                    i <= edge_list@.len(),
                    graph@ == prune(g1, node_id, edge_list@.take(i as int)),
                decreases edge_list@.len() - i,
            {
                let b = edge_list[i];
                let ghost before = graph@;
                match graph.nodes.remove(&b) {
                    Some(mut list_b) => {
                        vec_remove_first(&mut list_b, node_id);
                        graph.nodes.insert(b, list_b);
                        proof {
                            assert(graph@ =~= prune_one(before, node_id, b));
                        }
                    },
                    None => {
                        proof {
                            assert(graph@ =~= prune_one(before, node_id, b));
                        }
                    },
                }
                proof {
                    assert(edge_list@.take(i + 1).drop_last() =~= edge_list@.take(i as int));
                    assert(edge_list@.take(i + 1).last() == edge_list@[i as int]);
                }
                i += 1;
            }
            proof {
                assert(edge_list@.take(edge_list@.len() as int) =~= edge_list@);
                assert(graph@ == spec_remove_node(g0, node_id));
            }
        },
    }
    proof {
        lemma_prune_dom(old(graph)@, node_id);
        if wf(old(graph)@) {
            lemma_remove_node_wf(old(graph)@, node_id);
        }
    }
}

/// Pruning never changes which nodes are present.
proof fn lemma_prune_dom_step(g: Map<u64, Seq<u64>>, id: u64, list: Seq<u64>)
    ensures
        prune(g, id, list).dom() == g.dom(),
    decreases list.len(),
{
    if list.len() > 0 {
        lemma_prune_dom_step(g, id, list.drop_last());
        assert(prune(g, id, list).dom() =~= g.dom());
    }
}

proof fn lemma_prune_dom(g: Map<u64, Seq<u64>>, id: u64)
    ensures
        !spec_remove_node(g, id).contains_key(id),
        spec_remove_node(g, id).dom() == g.dom().remove(id),
{
    if g.contains_key(id) {
        lemma_prune_dom_step(g.remove(id), id, g[id]);
    } else {
        assert(spec_remove_node(g, id).dom() =~= g.dom().remove(id));
    }
}

/// Pointwise description of pruning when the neighbour list has no
/// duplicates: a listed, present node has the first `id` deleted from
/// its list; every other list is untouched.
proof fn lemma_prune_pointwise(g: Map<u64, Seq<u64>>, id: u64, list: Seq<u64>)
    requires
        list.no_duplicates(),
    ensures
        forall|x: u64| #[trigger]
            prune(g, id, list).contains_key(x) ==> prune(g, id, list)[x] == (if list.contains(x) {
                remove_first(g[x], id)
            } else {
                g[x]
            }),
    decreases list.len(),
{
    lemma_prune_dom_step(g, id, list);
    if list.len() > 0 {
        let l2 = list.drop_last();
        let b = list.last();
        assert forall|i: int, j: int| 0 <= i < j < l2.len() implies l2[i] != l2[j] by {
            assert(list[i] != list[j]);
        }
        assert(!l2.contains(b)) by {
            if l2.contains(b) {
                let i = choose|i: int| 0 <= i < l2.len() && l2[i] == b;
                assert(list[i] == list[list.len() - 1]);
            }
        }
        lemma_prune_pointwise(g, id, l2);
        lemma_prune_dom_step(g, id, l2);
        let p = prune(g, id, l2);
        assert forall|x: u64| #[trigger]
            prune(g, id, list).contains_key(x) implies prune(g, id, list)[x] == (
        if list.contains(x) {
            remove_first(g[x], id)
        } else {
            g[x]
        }) by {
            assert(prune(g, id, list) == prune_one(p, id, b));
            if x == b {
                assert(list.contains(b)) by {
                    assert(list[list.len() - 1] == b);
                }
                if p.contains_key(b) {
                    assert(p[b] == g[b]);
                    assert(prune_one(p, id, b)[b] == remove_first(g[b], id));
                }
            } else {
                assert(prune_one(p, id, b)[x] == p[x]);
                assert(list.contains(x) <==> l2.contains(x)) by {
                    if list.contains(x) {
                        let i = choose|i: int| 0 <= i < list.len() && list[i] == x;
                        assert(i < list.len() - 1);
                        assert(l2[i] == x);
                    }
                    if l2.contains(x) {
                        let i = choose|i: int| 0 <= i < l2.len() && l2[i] == x;
                        assert(list[i] == x);
                    }
                }
            }
        }
    }
}

/// `remove_node` keeps a well-formed store well-formed, and afterwards
/// no adjacency list mentions the removed node.
pub proof fn lemma_remove_node_wf(g: Map<u64, Seq<u64>>, id: u64)
    requires
        wf(g),
    ensures
        wf(spec_remove_node(g, id)),
        forall|x: u64|
            spec_remove_node(g, id).contains_key(x) ==> !(#[trigger] spec_remove_node(g, id)[x]).contains(id),
{
    let r = spec_remove_node(g, id);
    if !g.contains_key(id) {
        // Nothing to do: no list can mention an absent node.
        assert forall|x: u64| r.contains_key(x) implies !(#[trigger] r[x]).contains(id) by {
            if g[x].contains(id) {
                assert(g.contains_key(id));
            }
        }
    } else {
        let list = g[id];
        let g1 = g.remove(id);
        lemma_prune_pointwise(g1, id, list);
        lemma_prune_dom_step(g1, id, list);
        // Pointwise membership in the result.
        assert forall|x: u64, y: u64|
            #![trigger r[x].contains(y)]
            r.contains_key(x) implies (r[x].contains(y) <==> (g[x].contains(y) && y != id)) by {
            assert(g[x].no_duplicates());
            lemma_remove_first_props(g[x], id);
            if list.contains(x) {
                assert(r[x] == remove_first(g1[x], id));
                assert(g1[x] == g[x]);
            } else {
                assert(r[x] == g[x]);
                // x is not in id's list, so by symmetry id is not in x's.
                if g[x].contains(id) {
                    assert(g[id].contains(x));
                }
            }
        }
        assert forall|x: u64| r.contains_key(x) implies (#[trigger] r[x]).no_duplicates() by {
            assert(g[x].no_duplicates());
            lemma_remove_first_props(g[x], id);
            if list.contains(x) {
                assert(r[x] == remove_first(g[x], id));
            } else {
                assert(r[x] == g[x]);
            }
        }
        assert forall|x: u64, y: u64|
            #![trigger r[x].contains(y)]
            r.contains_key(x) && r[x].contains(y) implies r.contains_key(y) && r[y].contains(
            x,
        ) by {
            assert(g[x].contains(y) && y != id);
            assert(g.contains_key(x));
            assert(g[y].contains(x));
            assert(r.contains_key(y));
        }
    }
}

} // verus!
