//! Bounded neighbour search: a depth-limited reachability enumeration.
//!
//! Exclusion is per *path*, not global: a node already on the current
//! recursion path (the start included) is skipped, but the same node
//! may be reached and counted again through a different branch.  This
//! enumerates the union of all path-reachable nodes within the depth
//! bound; it is not a shortest-path frontier.

use vstd::prelude::*;
use crate::graph::Graph;
use crate::graph::wf;
use crate::graph::spec_remove_node;
use crate::graph::lemma_remove_node_wf;

verus! {

broadcast use vstd::std_specs::hash::group_hash_axioms;

/// Depth budget still available below a path of this length.
pub open spec fn depth_left(radius: nat, path: Seq<u64>) -> nat {
    if path.len() < radius {
        (radius - path.len()) as nat
    } else {
        0nat
    }
}

/// The nodes enumerated from `node` with the given depth budget, having
/// already walked `path` to get here.
pub open spec fn nbr_from(g: Map<u64, Seq<u64>>, node: u64, radius: nat, path: Seq<u64>) -> Set<
    u64,
>
    decreases depth_left(radius, path), 1nat, 0nat,
{
    if g.contains_key(node) {
        nbr_list(g, g[node], radius, path)
    } else {
        Set::empty()
    }
}

/// The contribution of the listed neighbours, in list order: each one
/// not on the path is enumerated, and explored further while the path
/// stays below the radius.
pub open spec fn nbr_list(g: Map<u64, Seq<u64>>, list: Seq<u64>, radius: nat, path: Seq<u64>) -> Set<
    u64,
>
    decreases depth_left(radius, path), 0nat, list.len(),
{
    if list.len() == 0 {
        Set::empty()
    } else {
        let rest = nbr_list(g, list.drop_last(), radius, path);
        let b = list.last();
        if path.contains(b) {
            rest
        } else if path.len() < radius {
            rest.insert(b).union(nbr_from(g, b, radius, path.push(b)))
        } else {
            rest.insert(b)
        }
    }
}

/// The full result of a `neighbors` query: radius 0 is empty, radius 1
/// is the direct adjacency set, and a larger radius enumerates along
/// paths starting empty.
pub open spec fn spec_neighbors(g: Map<u64, Seq<u64>>, node: u64, radius: nat) -> Set<u64> {
    if radius == 0 {
        Set::empty()
    } else if radius == 1 {
        if g.contains_key(node) {
            g[node].to_set()
        } else {
            Set::empty()
        }
    } else {
        nbr_from(g, node, radius, seq![node])
    }
}

/// Copies a list of node ids.
fn copy_list(v: &Vec<u64>) -> (r: Vec<u64>)
    ensures
        r@ == v@,
{
    let mut r: Vec<u64> = Vec::new();
    let mut i: usize = 0;
    while i < v.len()
        invariant
            i <= v@.len(),
            r@ == v@.take(i as int),
        decreases v@.len() - i,
    {
        r.push(v[i]);
        proof {
            assert(r@ =~= v@.take(i + 1));
        }
        i += 1;
    }
    proof {
        assert(v@.take(v@.len() as int) =~= v@);
    }
    r
}

/// Whether `x` occurs in `v`.
pub(crate) fn contains_id(v: &Vec<u64>, x: u64) -> (r: bool)
    ensures
        r == v@.contains(x),
{
    let mut i: usize = 0;
    while i < v.len()
        invariant
            i <= v@.len(),
            forall|j: int| 0 <= j < i ==> v@[j] != x,
        decreases v@.len() - i,
    {
        if v[i] == x {
            return true;
        }
        i += 1;
    }
    false
}

/// Appends `x` unless already present, keeping the collection
/// duplicate-free.
pub(crate) fn insert_unique(v: &mut Vec<u64>, x: u64)
    requires
        old(v)@.no_duplicates(),
    ensures
        final(v)@.no_duplicates(),
        final(v)@.to_set() == old(v)@.to_set().insert(x),
{
    if !contains_id(v, x) {
        v.push(x);
        proof {
            assert(final(v)@.to_set() =~= old(v)@.to_set().insert(x)) by {
                assert forall|y: u64| #[trigger]
                    final(v)@.contains(y) implies old(v)@.contains(y) || y == x by {
                    let i = choose|i: int| 0 <= i < final(v)@.len() && final(v)@[i] == y;
                    if i < old(v)@.len() {
                        assert(old(v)@[i] == y);
                    }
                }
                assert forall|y: u64|
                    old(v)@.contains(y) || y == x implies #[trigger] final(v)@.contains(y) by {
                    if old(v)@.contains(y) {
                        let i = choose|i: int| 0 <= i < old(v)@.len() && old(v)@[i] == y;
                        assert(final(v)@[i] == y);
                    } else {
                        assert(final(v)@[final(v)@.len() - 1] == y);
                    }
                }
            }
            assert(final(v)@.no_duplicates()) by {
                assert forall|i: int, j: int|
                    0 <= i < j < final(v)@.len() implies final(v)@[i] != final(v)@[j] by {
                    if j < old(v)@.len() {
                    } else {
                        assert(final(v)@[j] == x);
                        assert(old(v)@[i] == final(v)@[i]);
                        if final(v)@[i] == x {
                            assert(old(v)@.contains(x));
                        }
                    }
                }
            }
        }
    } else {
        proof {
            assert(final(v)@.to_set() =~= old(v)@.to_set().insert(x));
        }
    }
}

/// The recursive enumeration: visits each listed neighbour of
/// `node_id` that is not on `path`, accumulating into `result`.
fn neighbors_rec(graph: &Graph, node_id: u64, radius: usize, path: &Vec<u64>, result: &mut Vec<
    u64,
>)
    requires
        path@.len() <= radius,
        old(result)@.no_duplicates(),
    ensures
        final(result)@.no_duplicates(),
        final(result)@.to_set() == old(result)@.to_set().union(
            nbr_from(graph@, node_id, radius as nat, path@),
        ),
    decreases radius - path@.len(),
{
    let edge_list = match graph.nodes.get(&node_id) {
        Some(el) => el,
        None => {
            proof {
                assert(final(result)@.to_set() =~= old(result)@.to_set().union(
                    nbr_from(graph@, node_id, radius as nat, path@),
                ));
            }
            return ;
        },
    };
    let ghost list = edge_list@;
    proof {
        assert(graph@.contains_key(node_id));
        assert(graph@[node_id] == list);
    }
    let mut i: usize = 0;
    while i < edge_list.len()
        invariant
            i <= list.len(),
            edge_list@ == list,
            graph@.contains_key(node_id) && graph@[node_id] == list,
            path@.len() <= radius,
            result@.no_duplicates(),
            result@.to_set() == old(result)@.to_set().union(
                nbr_list(graph@, list.take(i as int), radius as nat, path@),
            ),
        decreases list.len() - i,
    {
        let b = edge_list[i];
        let ghost before = result@;
        if !contains_id(path, b) {
            insert_unique(result, b);
            if path.len() < radius {
                let mut next_path = copy_list(path);
                next_path.push(b);
                neighbors_rec(graph, b, radius, &next_path, result);
                proof {
                    assert(next_path@ == path@.push(b));
                }
            }
        }
        proof {
            assert(list.take(i + 1).drop_last() =~= list.take(i as int));
            assert(list.take(i + 1).last() == list[i as int]);
            assert(result@.to_set() =~= old(result)@.to_set().union(
                nbr_list(graph@, list.take(i + 1), radius as nat, path@),
            ));
        }
        i += 1;
    }
    proof {
        assert(list.take(list.len() as int) =~= list);
    }
}

/// Enumerates the node ids reachable from `node_id` along paths of at
/// most `radius` edges, excluding only nodes already on the current
/// path.  Radius 0 yields nothing; radius 1 yields the direct
/// adjacency list as stored.
pub fn neighbors(graph: &Graph, node_id: u64, radius: usize) -> (r: Vec<u64>)
    ensures
        r@.to_set() == spec_neighbors(graph@, node_id, radius as nat),
        radius == 0 ==> r@ == Seq::<u64>::empty(),
        radius == 1 && graph@.contains_key(node_id) ==> r@ == graph@[node_id],
        radius == 1 && !graph@.contains_key(node_id) ==> r@ == Seq::<u64>::empty(),
        radius != 1 ==> r@.no_duplicates(),
{
    if radius == 1 {
        let r = match graph.nodes.get(&node_id) {
            Some(el) => copy_list(el),
            None => Vec::new(),
        };
        proof {
            assert(r@.to_set() =~= spec_neighbors(graph@, node_id, radius as nat));
        }
        return r;
    }
    if radius == 0 {
        let r: Vec<u64> = Vec::new();
        proof {
            assert(r@.to_set() =~= spec_neighbors(graph@, node_id, radius as nat));
        }
        return r;
    }
    let mut path: Vec<u64> = Vec::new();
    path.push(node_id);
    let mut result: Vec<u64> = Vec::new();
    proof {
        assert(path@ =~= seq![node_id]);
    }
    neighbors_rec(graph, node_id, radius, &path, &mut result);
    proof {
        assert(result@.to_set() =~= spec_neighbors(graph@, node_id, radius as nat));
    }
    result
}

/// Everything the enumeration returns is listed in some present node's
/// adjacency list.
proof fn lemma_nbr_from_listed(g: Map<u64, Seq<u64>>, node: u64, radius: nat, path: Seq<u64>)
    ensures
        forall|y: u64| #[trigger]
            nbr_from(g, node, radius, path).contains(y) ==> exists|a: u64|
                g.contains_key(a) && (#[trigger] g[a]).contains(y),
    decreases depth_left(radius, path), 1nat, 0nat,
{
    if g.contains_key(node) {
        assert forall|i: int| 0 <= i < g[node].len() implies g[node].contains(
            #[trigger] g[node][i],
        ) by {}
        lemma_nbr_list_listed(g, g[node], radius, path, node);
        assert forall|y: u64| #[trigger]
            nbr_from(g, node, radius, path).contains(y) implies exists|a: u64|
            g.contains_key(a) && (#[trigger] g[a]).contains(y) by {
            assert(nbr_list(g, g[node], radius, path).contains(y));
        }
    } else {
        assert(nbr_from(g, node, radius, path) =~= Set::empty());
    }
}

/// Same, for the per-list helper: every member of `list` is a listed
/// neighbour of `owner`.
proof fn lemma_nbr_list_listed(
    g: Map<u64, Seq<u64>>,
    list: Seq<u64>,
    radius: nat,
    path: Seq<u64>,
    owner: u64,
)
    requires
        g.contains_key(owner),
        forall|i: int| 0 <= i < list.len() ==> g[owner].contains(#[trigger] list[i]),
    ensures
        forall|y: u64| #[trigger]
            nbr_list(g, list, radius, path).contains(y) ==> exists|a: u64|
                g.contains_key(a) && (#[trigger] g[a]).contains(y),
    decreases depth_left(radius, path), 0nat, list.len(),
{
    if list.len() > 0 {
        assert forall|i: int| 0 <= i < list.drop_last().len() implies g[owner].contains(
            #[trigger] list.drop_last()[i],
        ) by {
            assert(list[i] == list.drop_last()[i]);
        }
        lemma_nbr_list_listed(g, list.drop_last(), radius, path, owner);
        let b = list.last();
        if !path.contains(b) && path.len() < radius {
            lemma_nbr_from_listed(g, b, radius, path.push(b));
        }
        assert(g[owner].contains(b)) by {
            assert(list[list.len() - 1] == b);
        }
        let rest = nbr_list(g, list.drop_last(), radius, path);
        assert forall|y: u64| #[trigger]
            nbr_list(g, list, radius, path).contains(y) implies exists|a: u64|
            g.contains_key(a) && (#[trigger] g[a]).contains(y) by {
            if path.contains(b) {
                assert(rest.contains(y));
            } else if rest.contains(y) {
            } else if y == b {
                assert(g[owner].contains(y));
            } else if path.len() < radius {
                assert(nbr_from(g, b, radius, path.push(b)).contains(y));
            }
        }
    }
}

/// After `remove_node(x)` on a well-formed store, no neighbour query at
/// any radius from any start ever enumerates `x` again.
pub proof fn lemma_removed_node_not_in_neighbors(
    g: Map<u64, Seq<u64>>,
    x: u64,
    node: u64,
    radius: nat,
)
    requires
        wf(g),
    ensures
        !spec_neighbors(spec_remove_node(g, x), node, radius).contains(x),
{
    let g2 = spec_remove_node(g, x);
    lemma_remove_node_wf(g, x);
    if radius == 0 {
    } else if radius == 1 {
        if g2.contains_key(node) {
            if g2[node].to_set().contains(x) {
                assert(g2[node].contains(x));
            }
        }
    } else {
        lemma_nbr_from_listed(g2, node, radius, seq![node]);
        if nbr_from(g2, node, radius, seq![node]).contains(x) {
            let a = choose|a: u64| g2.contains_key(a) && (#[trigger] g2[a]).contains(x);
            assert(!g2[a].contains(x));
        }
    }
}

} // verus!
