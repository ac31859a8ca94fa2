//! A directed graph whose nodes carry unique ids, traversed depth first so that
//! each node is listed once, cycles included.

use vstd::prelude::*;
use std::collections::HashSet;

verus! {

broadcast use vstd::std_specs::hash::group_hash_axioms;

/// A named node with a unique id and the indices of its children.
pub struct GraphNode {
    pub name: String,
    pub uuid: u128,
    pub children: Vec<usize>,
}

/// Nodes stored by index; children refer to nodes by index.
pub struct Graph {
    pub nodes: Vec<GraphNode>,
}

impl Graph {
    /// Every child index names a node and no two nodes share an id.
    pub open spec fn wf(&self) -> bool {
        &&& forall|i: int, j: int|
            0 <= i < self.nodes.len() && 0 <= j < self.nodes[i].children.len() ==> #[trigger] self.nodes[i].children[j]
                < self.nodes.len()
        &&& forall|i: int, j: int|
            0 <= i < self.nodes.len() && 0 <= j < self.nodes.len() && i != j ==> #[trigger] self.nodes[i].uuid
                != #[trigger] self.nodes[j].uuid
    }

    /// The id of node `i`.
    pub open spec fn id(&self, i: int) -> u128 {
        self.nodes[i].uuid
    }

    /// `c` is a child of node `i`.
    pub open spec fn has_child(&self, i: int, c: int) -> bool {
        exists|j: int| 0 <= j < self.nodes[i].children.len() && self.nodes[i].children[j] == c
    }

    /// `p` is a walk along child links through nodes whose ids are not in `avoid`.
    pub open spec fn is_walk(&self, avoid: Set<u128>, p: Seq<usize>) -> bool {
        &&& p.len() >= 1
        &&& forall|i: int| 0 <= i < p.len() ==> #[trigger] p[i] < self.nodes.len()
        &&& forall|i: int| 0 <= i < p.len() ==> !avoid.contains(self.id(#[trigger] p[i] as int))
        &&& forall|i: int| 0 <= i < p.len() - 1 ==> self.has_child(#[trigger] p[i] as int, p[i + 1] as int)
    }

    /// Node `to` can be reached from `from` through nodes whose ids are not in `avoid`.
    pub open spec fn reaches(&self, avoid: Set<u128>, from: int, to: int) -> bool {
        exists|p: Seq<usize>| #[trigger] self.is_walk(avoid, p) && p[0] == from && p.last() == to
    }

    /// An empty graph.
    pub fn new() -> (g: Graph)
        ensures
            g.wf(),
            g.nodes.len() == 0,
    {
        Graph { nodes: Vec::new() }
    }

    /// Adds a node without children and returns its index; `None`, with the graph
    /// unchanged, when a node already has the id.
    pub fn add_node(&mut self, name: String, uuid: u128) -> (r: Option<usize>)
        requires
            old(self).wf(),
        ensures
            final(self).wf(),
            (forall|i: int| 0 <= i < old(self).nodes.len() ==> old(self).id(i) != uuid) <==> r is Some,
            r matches Some(k) ==> {
                &&& k == old(self).nodes.len()
                &&& final(self).nodes@ == old(self).nodes@.push(
                    GraphNode { name, uuid, children: final(self).nodes[k as int].children },
                )
                &&& final(self).nodes[k as int].children@.len() == 0
            },
            r is None ==> final(self).nodes@ == old(self).nodes@,
    {
        let mut i: usize = 0;
        while i < self.nodes.len()
            invariant
                i <= self.nodes.len(),
                self.nodes@ == old(self).nodes@,
                self.wf(),
                forall|j: int| 0 <= j < i ==> self.id(j) != uuid,
            decreases self.nodes.len() - i,
        {
            if self.nodes[i].uuid == uuid {
                assert(old(self).id(i as int) == uuid);
                return None;
            }
            i = i + 1;
        }
        let k = self.nodes.len();
        let fresh = GraphNode { name, uuid, children: Vec::new() };
        assert(fresh.children@.len() == 0);
        self.nodes.push(fresh);
        proof {
            assert forall|a: int, j: int|
                0 <= a < self.nodes.len() && 0 <= j < self.nodes[a].children.len() implies #[trigger] self.nodes[a].children[j]
                < self.nodes.len() by {
                assert(a < k);
                assert(self.nodes[a] == old(self).nodes[a]);
            }
            assert forall|a: int, b: int|
                0 <= a < self.nodes.len() && 0 <= b < self.nodes.len() && a != b implies #[trigger] self.nodes[a].uuid
                != #[trigger] self.nodes[b].uuid by {
                if a < k && b < k {
                    assert(self.nodes[a] == old(self).nodes[a]);
                    assert(self.nodes[b] == old(self).nodes[b]);
                } else if a < k {
                    assert(self.nodes[a] == old(self).nodes[a]);
                    assert(old(self).id(a) != uuid);
                } else {
                    assert(self.nodes[b] == old(self).nodes[b]);
                    assert(old(self).id(b) != uuid);
                }
            }
        }
        Some(k)
    }

    /// Makes node `child` a child of node `parent`; `false`, with the graph
    /// unchanged, when either index names no node.
    pub fn add_child(&mut self, parent: usize, child: usize) -> (ok: bool)
        requires
            old(self).wf(),
        ensures
            final(self).wf(),
            ok == (parent < old(self).nodes.len() && child < old(self).nodes.len()),
            final(self).nodes.len() == old(self).nodes.len(),
            forall|i: int| 0 <= i < old(self).nodes.len() ==> final(self).id(i) == old(self).id(i)
                && final(self).nodes[i].name == old(self).nodes[i].name,
            forall|i: int|
                0 <= i < old(self).nodes.len() && (!ok || i != parent) ==> final(self).nodes[i].children
                    == old(self).nodes[i].children,
            ok ==> final(self).nodes[parent as int].children@ == old(
                self,
            ).nodes[parent as int].children@.push(child),
    {
        if parent >= self.nodes.len() || child >= self.nodes.len() {
            return false;
        }
        let mut node = self.nodes.remove(parent);
        node.children.push(child);
        self.nodes.insert(parent, node);
        proof {
            assert forall|i: int, j: int|
                0 <= i < self.nodes.len() && 0 <= j < self.nodes[i].children.len() implies #[trigger] self.nodes[i].children[j]
                < self.nodes.len() by {
                if i != parent {
                    assert(self.nodes[i] == old(self).nodes[i]);
                } else if j < old(self).nodes[i].children.len() {
                    assert(self.nodes[i].children[j] == old(self).nodes[i].children[j]);
                }
            }
            assert forall|i: int, j: int|
                0 <= i < self.nodes.len() && 0 <= j < self.nodes.len() && i != j implies #[trigger] self.nodes[i].uuid
                != #[trigger] self.nodes[j].uuid by {
                assert(self.id(i) == old(self).id(i));
                assert(self.id(j) == old(self).id(j));
            }
        }
        true
    }
}

/// The number of nodes among the first `k` whose ids are not in `visited`.
pub open spec fn unvisited(g: &Graph, visited: Set<u128>, k: int) -> nat
    decreases k,
{
    if k <= 0 {
        0
    } else {
        unvisited(g, visited, k - 1) + if visited.contains(g.id(k - 1)) {
            0nat
        } else {
            1nat
        }
    }
}

/// Marking more ids leaves no more nodes unmarked, and marking an unmarked node
/// leaves fewer.
pub proof fn lemma_unvisited_shrinks(g: &Graph, v1: Set<u128>, v2: Set<u128>, k: int, node: int)
    requires
        v1.subset_of(v2),
        0 <= k <= g.nodes.len(),
    ensures
        unvisited(g, v2, k) <= unvisited(g, v1, k),
        0 <= node < k && !v1.contains(g.id(node)) && v2.contains(g.id(node)) ==> unvisited(g, v2, k)
            < unvisited(g, v1, k),
    decreases k,
{
    if k > 0 {
        lemma_unvisited_shrinks(g, v1, v2, k - 1, node);
    }
}

/// The ids of the listed nodes.
pub open spec fn ids_of(g: &Graph, listed: Seq<usize>) -> Set<u128> {
    Set::new(|u: u128| exists|i: int| 0 <= i < listed.len() && g.id(listed[i] as int) == u)
}

/// What a depth-first walk from `node` lists, in order, when the ids in `visited`
/// are already marked: nothing when `node` is marked (or names no node); else
/// `node`, then the walks from its children in turn, each one skipping what the
/// earlier ones listed.
pub open spec fn dfs_order(g: &Graph, visited: Set<u128>, node: int) -> Seq<usize>
    decreases unvisited(g, visited, g.nodes.len() as int), 1int, 0int,
{
    if node < 0 || node >= g.nodes.len() || visited.contains(g.id(node)) {
        Seq::empty()
    } else {
        proof {
            lemma_unvisited_shrinks(g, visited, visited.insert(g.id(node)), g.nodes.len() as int, node);
        }
        seq![node as usize] + dfs_children(g, visited.insert(g.id(node)), node, 0)
    }
}

/// What the walks from the children of `node`, from the `i`-th on, list in turn
/// when the ids in `visited` are already marked.
pub open spec fn dfs_children(g: &Graph, visited: Set<u128>, node: int, i: int) -> Seq<usize>
    decreases unvisited(g, visited, g.nodes.len() as int), 2int, g.nodes[node].children.len() - i,
{
    if node < 0 || node >= g.nodes.len() || i < 0 || i >= g.nodes[node].children.len() {
        Seq::empty()
    } else {
        let first = dfs_order(g, visited, g.nodes[node].children[i] as int);
        proof {
            lemma_unvisited_shrinks(g, visited, visited.union(ids_of(g, first)), g.nodes.len() as int, 0);
        }
        first + dfs_children(g, visited.union(ids_of(g, first)), node, i + 1)
    }
}

proof fn lemma_walk_extend(g: &Graph, avoid: Set<u128>, small: Set<u128>, node: int, c: int, to: int)
    requires
        g.wf(),
        0 <= node < g.nodes.len(),
        !avoid.contains(g.id(node)),
        avoid.subset_of(small),
        g.has_child(node, c),
        g.reaches(small, c, to),
    ensures
        g.reaches(avoid, node, to),
{
    let p = choose|p: Seq<usize>| #[trigger] g.is_walk(small, p) && p[0] == c && p.last() == to;
    let q = seq![node as usize] + p;
    assert(q[0] == node);
    assert(q.last() == to);
    assert forall|i: int| 0 <= i < q.len() - 1 implies g.has_child(#[trigger] q[i] as int, q[i + 1] as int) by {
        if i > 0 {
            assert(q[i] == p[i - 1]);
            assert(q[i + 1] == p[i]);
        }
    }
    assert forall|i: int| 0 <= i < q.len() implies !avoid.contains(g.id(#[trigger] q[i] as int)) by {
        if i > 0 {
            assert(q[i] == p[i - 1]);
            assert(!small.contains(g.id(p[i - 1] as int)));
        }
    }
    assert forall|i: int| 0 <= i < q.len() implies #[trigger] q[i] < g.nodes.len() by {
        if i > 0 {
            assert(q[i] == p[i - 1]);
        }
    }
    assert(g.is_walk(avoid, q));
}

/// A listing that starts at `node`, marks exactly the listed ids beyond `v0`, and
/// has the ids of all children of listed nodes marked holds every node reachable
/// from `node` through nodes whose ids are not in `v0`.
proof fn lemma_listing_complete(
    g: &Graph,
    v0: Set<u128>,
    marked: Set<u128>,
    listed: Seq<usize>,
    node: int,
    p: Seq<usize>,
    i: int,
)
    requires
        g.wf(),
        0 <= node < g.nodes.len(),
        listed.len() > 0,
        listed[0] == node,
        marked == v0.union(ids_of(g, listed)),
        forall|k: int| 0 <= k < listed.len() ==> #[trigger] listed[k] < g.nodes.len(),
        forall|k: int, j: int|
            0 <= k < listed.len() && 0 <= j < g.nodes[listed[k] as int].children.len() ==> marked.contains(
                g.id(#[trigger] g.nodes[#[trigger] listed[k] as int].children[j] as int),
            ),
        g.is_walk(v0, p),
        p[0] == node,
        0 <= i < p.len(),
    ensures
        listed.contains(p[i]),
    decreases i,
{
    if i == 0 {
        assert(listed[0] == p[0]);
    } else {
        lemma_listing_complete(g, v0, marked, listed, node, p, i - 1);
        let k = choose|k: int| 0 <= k < listed.len() && listed[k] == p[i - 1];
        assert(g.has_child(p[i - 1] as int, p[i] as int));
        let j = choose|j: int|
            0 <= j < g.nodes[p[i - 1] as int].children.len() && #[trigger] g.nodes[p[i - 1] as int].children[j]
                == p[i];
        assert(g.nodes[listed[k] as int].children[j] == p[i]);
        assert(marked.contains(g.id(p[i] as int)));
        assert(!v0.contains(g.id(p[i] as int)));
        let m = choose|m: int| 0 <= m < listed.len() && g.id(listed[m] as int) == g.id(p[i] as int);
        assert(listed[m] == p[i]);
    }
}

/// Lists, depth first from `node`, every node reachable from it through nodes
/// not yet visited, each the first time it is met, and marks them visited.
pub fn print_nodes(node_list: &mut HashSet<u128>, graph: &Graph, node: usize, out: &mut Vec<usize>)
    requires
        graph.wf(),
        node < graph.nodes.len(),
    ensures
        old(node_list)@.subset_of(final(node_list)@),
        final(out)@.len() >= old(out)@.len(),
        final(out)@.take(old(out)@.len() as int) == old(out)@,
        final(node_list)@ == old(node_list)@.union(
            ids_of(graph, final(out)@.skip(old(out)@.len() as int)),
        ),
        forall|i: int|
            old(out)@.len() <= i < final(out)@.len() ==> #[trigger] final(out)@[i] < graph.nodes.len()
                && graph.reaches(old(node_list)@, node as int, final(out)@[i] as int),
        forall|i: int, j: int|
            old(out)@.len() <= i < final(out)@.len() && 0 <= j < graph.nodes[final(out)@[i] as int].children.len()
                ==> final(node_list)@.contains(
                graph.id(#[trigger] graph.nodes[#[trigger] final(out)@[i] as int].children[j] as int),
            ),
        old(node_list)@.contains(graph.id(node as int)) ==> final(out)@ == old(out)@,
        forall|i: int|
            old(out)@.len() <= i < final(out)@.len() ==> !old(node_list)@.contains(
                graph.id(#[trigger] final(out)@[i] as int),
            ),
        forall|i: int, j: int|
            old(out)@.len() <= i < j < final(out)@.len() ==> #[trigger] final(out)@[i] != #[trigger] final(
            out)@[j],
        forall|x: int|
            #![trigger graph.reaches(old(node_list)@, node as int, x)]
            graph.reaches(old(node_list)@, node as int, x) ==> final(out)@.skip(
                old(out)@.len() as int,
            ).contains(x as usize),
        !old(node_list)@.contains(graph.id(node as int)) ==> final(out)@.len() > old(out)@.len()
            && final(out)@[old(out)@.len() as int] == node,
        final(out)@ == old(out)@ + dfs_order(graph, old(node_list)@, node as int),
    decreases unvisited(graph, node_list@, graph.nodes.len() as int),
{
    let uuid = graph.nodes[node].uuid;
    if node_list.contains(&uuid) {
        return;
    }
    node_list.insert(uuid);
    let ghost v0 = old(node_list)@;
    let ghost start = old(out)@.len() as int;
    out.push(node);
    proof {
        let w = seq![node];
        assert(graph.is_walk(v0, w));
        assert(graph.reaches(v0, node as int, node as int));
        assert(out@.skip(start) =~= seq![node]);
        assert forall|u: u128| ids_of(graph, out@.skip(start)).contains(u) <==> u == uuid by {
            if u == uuid {
                assert(out@.skip(start)[0] == node);
            }
        }
        assert(ids_of(graph, out@.skip(start)) =~= set![uuid]);
        assert(node_list@ =~= v0.insert(uuid));
        assert(out@.skip(start + 1) =~= Seq::<usize>::empty());
    }
    let ghost v1 = v0.insert(uuid);
    let children = &graph.nodes[node].children;
    let mut i: usize = 0;
    while i < children.len()
        invariant
            graph.wf(),
            node < graph.nodes.len(),
            children == &graph.nodes[node as int].children,
            i <= children.len(),
            v0 == old(node_list)@,
            start == old(out)@.len(),
            !v0.contains(graph.id(node as int)),
            v0.subset_of(node_list@),
            node_list@.contains(graph.id(node as int)),
            out@.len() > start,
            out@.take(start) == old(out)@,
            out@[start] == node,
            node_list@ == v0.union(ids_of(graph, out@.skip(start))),
            forall|k: int|
                start <= k < out@.len() ==> #[trigger] out@[k] < graph.nodes.len() && graph.reaches(
                    v0,
                    node as int,
                    out@[k] as int,
                ),
            forall|k: int, j: int|
                start < k < out@.len() && 0 <= j < graph.nodes[out@[k] as int].children.len()
                    ==> node_list@.contains(
                    graph.id(#[trigger] graph.nodes[#[trigger] out@[k] as int].children[j] as int),
                ),
            forall|j: int| 0 <= j < i ==> node_list@.contains(graph.id(#[trigger] children[j] as int)),
            forall|k: int| start <= k < out@.len() ==> !v0.contains(graph.id(#[trigger] out@[k] as int)),
            forall|k1: int, k2: int| start <= k1 < k2 < out@.len() ==> #[trigger] out@[k1] != #[trigger] out@[k2],
            v1 == v0.insert(graph.id(node as int)),
            dfs_children(graph, v1, node as int, 0) == out@.skip(start + 1) + dfs_children(
                graph,
                node_list@,
                node as int,
                i as int,
            ),
        decreases children.len() - i,
    {
        let child = children[i];
        let ghost vi = node_list@;
        let ghost before = out@;
        proof {
            lemma_unvisited_shrinks(graph, old(node_list)@, vi, graph.nodes.len() as int, node as int);
        }
        print_nodes(node_list, graph, child, out);
        proof {
            let added = out@.skip(before.len() as int);
            assert(out@.skip(start) =~= before.skip(start) + added);
            assert(ids_of(graph, out@.skip(start)) =~= ids_of(graph, before.skip(start)).union(
                ids_of(graph, added),
            )) by {
                assert forall|u: u128| ids_of(graph, out@.skip(start)).contains(u) implies ids_of(
                    graph,
                    before.skip(start),
                ).union(ids_of(graph, added)).contains(u) by {
                    let k = choose|k: int|
                        0 <= k < out@.skip(start).len() && graph.id(out@.skip(start)[k] as int) == u;
                    if k < before.skip(start).len() {
                        assert(before.skip(start)[k] == out@.skip(start)[k]);
                    } else {
                        assert(added[k - before.skip(start).len()] == out@.skip(start)[k]);
                    }
                }
                assert forall|u: u128| ids_of(graph, before.skip(start)).union(ids_of(graph, added)).contains(
                    u,
                ) implies ids_of(graph, out@.skip(start)).contains(u) by {
                    if ids_of(graph, before.skip(start)).contains(u) {
                        let k = choose|k: int|
                            0 <= k < before.skip(start).len() && graph.id(before.skip(start)[k] as int)
                                == u;
                        assert(out@.skip(start)[k] == before.skip(start)[k]);
                    } else {
                        let k = choose|k: int| 0 <= k < added.len() && graph.id(added[k] as int) == u;
                        assert(out@.skip(start)[k + before.skip(start).len()] == added[k]);
                    }
                }
            }
            assert(graph.has_child(node as int, child as int));
            assert forall|k: int| start <= k < out@.len() implies #[trigger] out@[k] < graph.nodes.len()
                && graph.reaches(v0, node as int, out@[k] as int) by {
                if k < before.len() {
                    assert(out@[k] == before[k]);
                } else {
                    lemma_walk_extend(graph, v0, vi, node as int, child as int, out@[k] as int);
                }
            }
            assert forall|k: int, j: int|
                start < k < out@.len() && 0 <= j < graph.nodes[out@[k] as int].children.len()
                    implies node_list@.contains(
                    graph.id(#[trigger] graph.nodes[#[trigger] out@[k] as int].children[j] as int),
                ) by {
                if k < before.len() {
                    assert(out@[k] == before[k]);
                }
            }
            assert(out@[start] == before[start]);
            assert(out@.take(start) =~= before.take(start));
            if !vi.contains(graph.id(child as int)) {
                assert(added[0] == child);
                assert(ids_of(graph, added).contains(graph.id(child as int)));
            }
            assert(children[i as int] == child);
            assert forall|k: int| start <= k < out@.len() implies !v0.contains(graph.id(#[trigger] out@[k] as int)) by {
                if k < before.len() {
                    assert(out@[k] == before[k]);
                } else {
                    assert(!vi.contains(graph.id(out@[k] as int)));
                }
            }
            assert forall|k1: int, k2: int| start <= k1 < k2 < out@.len() implies #[trigger] out@[k1] != #[trigger] out@[k2] by {
                if k2 >= before.len() && k1 < before.len() {
                    assert(out@[k1] == before[k1]);
                    assert(before.skip(start)[k1 - start] == before[k1]);
                    assert(ids_of(graph, before.skip(start)).contains(graph.id(before[k1] as int)));
                    assert(vi.contains(graph.id(out@[k1] as int)));
                    assert(!vi.contains(graph.id(out@[k2] as int)));
                } else if k2 < before.len() {
                    assert(out@[k1] == before[k1]);
                    assert(out@[k2] == before[k2]);
                }
            }
            assert forall|j: int| 0 <= j < i + 1 implies node_list@.contains(graph.id(#[trigger] children[j] as int)) by {
                if j < i {
                    assert(vi.contains(graph.id(children[j] as int)));
                }
            }
            assert(added == dfs_order(graph, vi, child as int));
            assert(node_list@ =~= vi.union(ids_of(graph, added)));
            assert(out@.skip(start + 1) =~= before.skip(start + 1) + added);
            assert(dfs_children(graph, vi, node as int, i as int) == added + dfs_children(
                graph,
                node_list@,
                node as int,
                i + 1,
            ));
            assert(before.skip(start + 1) + dfs_children(graph, vi, node as int, i as int) =~= out@.skip(
                start + 1,
            ) + dfs_children(graph, node_list@, node as int, i + 1));
        }
        i = i + 1;
    }
    proof {
        assert(dfs_children(graph, node_list@, node as int, i as int) =~= Seq::<usize>::empty());
        assert(out@ =~= old(out)@ + (seq![node] + out@.skip(start + 1)));
        let listed = out@.skip(start);
        assert forall|k: int, j: int|
            start <= k < out@.len() && 0 <= j < graph.nodes[out@[k] as int].children.len()
                implies node_list@.contains(
                graph.id(#[trigger] graph.nodes[#[trigger] out@[k] as int].children[j] as int),
            ) by {
            if k == start {
                assert(out@[k] == node);
                assert(children[j] == graph.nodes[out@[k] as int].children[j]);
            }
        }
        assert forall|x: int| graph.reaches(v0, node as int, x) implies listed.contains(x as usize) by {
            let p = choose|p: Seq<usize>| #[trigger] graph.is_walk(v0, p) && p[0] == node && p.last() == x;
            assert forall|k: int| 0 <= k < listed.len() implies #[trigger] listed[k] < graph.nodes.len() by {
                assert(listed[k] == out@[start + k]);
            }
            assert forall|k: int, j: int|
                0 <= k < listed.len() && 0 <= j < graph.nodes[listed[k] as int].children.len() implies node_list@.contains(
                    graph.id(#[trigger] graph.nodes[#[trigger] listed[k] as int].children[j] as int),
                ) by {
                assert(listed[k] == out@[start + k]);
            }
            lemma_listing_complete(graph, v0, node_list@, listed, node as int, p, p.len() - 1);
        }
    }
}

} // verus!
