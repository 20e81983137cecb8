//! The dependency graph: a directed graph over integer node handles that is
//! kept acyclic, plus a verified dependency-respecting ordering of its nodes.
//!
//! An edge runs from a dependent node to a node it depends on. Acyclicity is
//! defined as the existence of a node order in which every dependency stands
//! strictly before each of its dependents; `topological_order` decides that
//! property and produces such an order whenever one exists.

use vstd::prelude::*;
use vstd::seq_lib::*;
use vstd::set_lib::*;

verus! {

/// A dependency declaration set closes a cycle, so no construction order
/// exists. Fatal to the whole construction that detected it.
#[derive(Clone, Copy, PartialEq, Eq, Structural, Debug)]
pub struct CycleError;

/// Every edge endpoint lies below the node count `n`.
pub open spec fn edges_wf(n: nat, edges: Seq<(usize, usize)>) -> bool {
    forall|e: int| 0 <= e < edges.len() ==> (#[trigger] edges[e]).0 < n && edges[e].1 < n
}

/// `order` lists each of the `n` node handles exactly once.
pub open spec fn is_node_permutation(order: Seq<usize>, n: nat) -> bool {
    &&& order.len() == n
    &&& order.no_duplicates()
    &&& forall|k: int| 0 <= k < order.len() ==> (#[trigger] order[k]) < n
    &&& forall|i: usize| i < n ==> order.contains(i)
}

/// Wherever a node with an outgoing edge appears in `order`, the edge's
/// target appears strictly earlier: dependencies precede their dependents.
pub open spec fn order_respects_edges(order: Seq<usize>, edges: Seq<(usize, usize)>) -> bool {
    forall|e: int, ka: int|
        0 <= e < edges.len() && 0 <= ka < order.len()
            && (#[trigger] edges[e]).0 == #[trigger] order[ka]
            ==> exists|kb: int| 0 <= kb < ka && order[kb] == edges[e].1
}

/// A complete instantiation order for `n` nodes under the given edges.
pub open spec fn valid_edge_order(order: Seq<usize>, n: nat, edges: Seq<(usize, usize)>) -> bool {
    is_node_permutation(order, n) && order_respects_edges(order, edges)
}

/// The graph is acyclic exactly when some dependency-respecting order of all
/// its nodes exists.
pub open spec fn edges_acyclic(n: nat, edges: Seq<(usize, usize)>) -> bool {
    exists|order: Seq<usize>| valid_edge_order(order, n, edges)
}

/// A node is ready to be instantiated when everything it points at has
/// already been placed.
pub open spec fn node_ready(i: usize, edges: Seq<(usize, usize)>, placed: Seq<bool>) -> bool {
    forall|e: int|
        0 <= e < edges.len() && (#[trigger] edges[e]).0 == i ==> placed[edges[e].1 as int]
}

/// The set of node handles below `n`.
spec fn node_handle_set(n: nat) -> Set<usize> {
    Set::new(|v: usize| (v as nat) < n)
}

/// The handle set below `n` is finite and holds `n` handles.
proof fn lemma_node_handle_set_len(n: nat)
    requires
        n <= usize::MAX,
    ensures
        node_handle_set(n).finite(),
        node_handle_set(n).len() == n,
    decreases n,
{
    if n == 0 {
        assert(node_handle_set(0) =~= Set::<usize>::empty());
    } else {
        lemma_node_handle_set_len((n - 1) as nat);
        assert(node_handle_set(n) =~= node_handle_set((n - 1) as nat).insert(
            (n - 1) as usize,
        ));
    }
}

/// A duplicate-free sequence of `n` node handles below `n` contains every
/// handle below `n`.
pub proof fn lemma_distinct_handles_cover(s: Seq<usize>, n: nat)
    requires
        n <= usize::MAX,
        s.no_duplicates(),
        s.len() == n,
        forall|k: int| 0 <= k < s.len() ==> (#[trigger] s[k]) < n,
    ensures
        is_node_permutation(s, n),
{
    s.unique_seq_to_set();
    lemma_node_handle_set_len(n);
    assert(s.to_set().subset_of(node_handle_set(n)));
    lemma_subset_equality(s.to_set(), node_handle_set(n));
    assert forall|i: usize| i < n implies s.contains(i) by {
        assert(node_handle_set(n).contains(i));
        assert(s.to_set().contains(i));
    }
}

/// A sequence containing every handle below `n` has at least `n` entries.
proof fn lemma_cover_len_ge(s: Seq<usize>, n: nat)
    requires
        n <= usize::MAX,
        forall|i: usize| i < n ==> s.contains(i),
    ensures
        s.len() >= n,
{
    lemma_node_handle_set_len(n);
    assert(node_handle_set(n).subset_of(s.to_set()));
    lemma_len_subset(node_handle_set(n), s.to_set());
    s.lemma_cardinality_of_set();
}

/// A graph with no edges is acyclic: the handles in increasing order respect
/// the (empty) edge relation.
pub proof fn lemma_no_edges_acyclic(n: nat, edges: Seq<(usize, usize)>)
    requires
        n <= usize::MAX,
        edges.len() == 0,
    ensures
        edges_acyclic(n, edges),
{
    let order = Seq::<usize>::new(n, |i: int| i as usize);
    assert forall|i: usize| i < n implies order.contains(i) by {
        assert(order[i as int] == i);
    }
    assert(valid_edge_order(order, n, edges));
}

/// Appending a fresh node (with no incident edges) to the end of a valid
/// order keeps it valid for the grown graph.
proof fn lemma_order_push_fresh_node(order: Seq<usize>, n: nat, edges: Seq<(usize, usize)>)
    requires
        n < usize::MAX,
        edges_wf(n, edges),
        valid_edge_order(order, n, edges),
    ensures
        valid_edge_order(order.push(n as usize), n + 1, edges),
{
    let grown = order.push(n as usize);
    assert forall|i: usize| i < n + 1 implies grown.contains(i) by {
        if i < n {
            assert(order.contains(i));
            let k = choose|k: int| 0 <= k < order.len() && order[k] == i;
            assert(grown[k] == i);
        } else {
            assert(grown[n as int] == i);
        }
    }
    assert forall|e: int, ka: int|
        0 <= e < edges.len() && 0 <= ka < grown.len()
            && (#[trigger] edges[e]).0 == #[trigger] grown[ka]
            implies exists|kb: int| 0 <= kb < ka && grown[kb] == edges[e].1 by {
        assert(ka < order.len());
        let kb = choose|kb: int| 0 <= kb < ka && order[kb] == edges[e].1;
        assert(grown[kb] == edges[e].1);
    }
}

/// Membership in a sequence extended by one element.
proof fn lemma_push_contains<A>(s: Seq<A>, x: A, y: A)
    ensures
        s.push(x).contains(y) <==> (s.contains(y) || x == y),
{
    if s.push(x).contains(y) {
        let k = choose|k: int| 0 <= k < s.push(x).len() && s.push(x)[k] == y;
        if k < s.len() {
            assert(s[k] == y);
        }
    }
    if s.contains(y) {
        let k = choose|k: int| 0 <= k < s.len() && s[k] == y;
        assert(s.push(x)[k] == y);
    }
    if x == y {
        assert(s.push(x)[s.len() as int] == y);
    }
}

/// When every unplaced node still waits for one of its dependencies, every
/// prefix of a dependency-respecting complete order consists of placed nodes:
/// the first unplaced position would have all its dependencies placed.
proof fn lemma_order_prefix_placed(
    order: Seq<usize>,
    n: nat,
    edges: Seq<(usize, usize)>,
    placed: Seq<bool>,
    k: int,
)
    requires
        edges_wf(n, edges),
        valid_edge_order(order, n, edges),
        placed.len() == n,
        forall|i: usize| i < n && !placed[i as int] ==> !node_ready(i, edges, placed),
        0 <= k <= order.len(),
    ensures
        forall|j: int| 0 <= j < k ==> placed[#[trigger] order[j] as int],
    decreases k,
{
    if k > 0 {
        lemma_order_prefix_placed(order, n, edges, placed, k - 1);
        let c = order[k - 1];
        if !placed[c as int] {
            assert(!node_ready(c, edges, placed));
            let e = choose|e: int|
                0 <= e < edges.len() && (#[trigger] edges[e]).0 == c && !placed[edges[e].1 as int];
            assert(exists|kb: int| 0 <= kb < k - 1 && order[kb] == edges[e].1);
            let kb = choose|kb: int| 0 <= kb < k - 1 && order[kb] == edges[e].1;
            assert(placed[order[kb] as int]);
            assert(false);
        }
    }
}

/// A directed dependency graph over integer node handles. Nodes are added
/// one at a time; `add_edge` refuses any edge that would close a cycle, so a
/// graph built through this interface is a DAG after every successful call.
pub struct DepGraph {
    /// Handles `0 .. node_count` are the nodes of the graph.
    pub node_count: usize,
    /// Directed edges, each from a dependent node to a node it depends on.
    pub edges: Vec<(usize, usize)>,
}

impl DepGraph {
    /// Both endpoints of every edge are node handles of this graph.
    pub open spec fn wf(self) -> bool {
        edges_wf(self.node_count as nat, self.edges@)
    }

    /// Some dependency-respecting order of all nodes exists.
    pub open spec fn acyclic(self) -> bool {
        edges_acyclic(self.node_count as nat, self.edges@)
    }

    /// An empty graph: no nodes, no edges.
    pub fn new() -> (g: DepGraph)
        ensures
            g.node_count == 0,
            g.edges@.len() == 0,
            g.wf(),
            g.acyclic(),
    {
        let g = DepGraph { node_count: 0, edges: Vec::new() };
        proof {
            lemma_no_edges_acyclic(0, g.edges@);
        }
        g
    }

    /// Allocates a new node and returns its handle. Always succeeds.
    pub fn add_node(&mut self) -> (h: usize)
        requires
            old(self).wf(),
            old(self).node_count < usize::MAX,
        ensures
            h == old(self).node_count,
            final(self).node_count == old(self).node_count + 1,
            final(self).edges@ == old(self).edges@,
            final(self).wf(),
            old(self).acyclic() ==> final(self).acyclic(),
    {
        let h = self.node_count;
        self.node_count = self.node_count + 1;
        proof {
            if old(self).acyclic() {
                let order = choose|order: Seq<usize>|
                    valid_edge_order(order, old(self).node_count as nat, old(self).edges@);
                lemma_order_push_fresh_node(order, old(self).node_count as nat, self.edges@);
            }
        }
        h
    }

    /// Whether every node that `i` depends on is already placed.
    fn node_is_ready(&self, i: usize, placed: &Vec<bool>) -> (b: bool)
        requires
            self.wf(),
            placed@.len() == self.node_count,
            i < self.node_count,
        ensures
            b == node_ready(i, self.edges@, placed@),
    {
        let mut e: usize = 0;
        while e < self.edges.len()
            invariant
                self.wf(),
                placed@.len() == self.node_count,
                e <= self.edges@.len(),
                forall|f: int|
                    0 <= f < e && (#[trigger] self.edges@[f]).0 == i ==> placed@[self.edges@[f].1 as int],
            decreases self.edges@.len() - e,
        {
            let edge = self.edges[e];
            if edge.0 == i && !placed[edge.1] {
                assert(!node_ready(i, self.edges@, placed@)) by {
                    assert((self.edges@[e as int]).0 == i && !placed@[self.edges@[e as int].1 as int]);
                }
                return false;
            }
            e = e + 1;
        }
        true
    }

    /// Scans for an unplaced node whose dependencies are all placed.
    fn find_ready_node(&self, placed: &Vec<bool>) -> (r: Option<usize>)
        requires
            self.wf(),
            placed@.len() == self.node_count,
        ensures
            (match r {
                Some(i) => i < self.node_count && !placed@[i as int] && node_ready(
                    i,
                    self.edges@,
                    placed@,
                ),
                None => forall|i: usize|
                    i < self.node_count && !placed@[i as int] ==> !node_ready(
                        i,
                        self.edges@,
                        placed@,
                    ),
            }),
    {
        let mut i: usize = 0;
        while i < self.node_count
            invariant
                self.wf(),
                placed@.len() == self.node_count,
                i <= self.node_count,
                forall|j: usize|
                    j < i && !placed@[j as int] ==> !node_ready(j, self.edges@, placed@),
            decreases self.node_count - i,
        {
            if !placed[i] {
                if self.node_is_ready(i, placed) {
                    return Some(i);
                }
            }
            i = i + 1;
        }
        None
    }

    /// Orders all nodes so that every dependency stands strictly before each
    /// of its dependents, or reports a cycle. The result is `Ok` exactly when
    /// the graph is acyclic, so this call also decides acyclicity.
    pub fn topological_order(&self) -> (r: Result<Vec<usize>, CycleError>)
        requires
            self.wf(),
        ensures
            (match r {
                Ok(order) => valid_edge_order(order@, self.node_count as nat, self.edges@),
                Err(_) => true,
            }),
            r is Ok <==> self.acyclic(),
    {
        let n = self.node_count;
        let mut placed: Vec<bool> = Vec::new();
        let mut i: usize = 0;
        while i < n
            invariant
                i <= n,
                placed@.len() == i,
                forall|j: int| 0 <= j < i ==> !(#[trigger] placed@[j]),
            decreases n - i,
        {
            placed.push(false);
            i = i + 1;
        }
        let mut order: Vec<usize> = Vec::new();
        while order.len() < n
            invariant
                self.wf(),
                n == self.node_count,
                placed@.len() == n,
                order@.len() <= n,
                order@.no_duplicates(),
                forall|k: int| 0 <= k < order@.len() ==> (#[trigger] order@[k]) < n,
                forall|j: int| 0 <= j < n ==> ((#[trigger] placed@[j]) <==> order@.contains(j as usize)),
                order_respects_edges(order@, self.edges@),
            decreases n - order.len(),
        {
            match self.find_ready_node(&placed) {
                Some(c) => {
                    let ghost old_order = order@;
                    let ghost old_placed = placed@;
                    order.push(c);
                    placed.set(c, true);
                    proof {
                        assert(!old_order.contains(c));
                        assert forall|k1: int, k2: int|
                            0 <= k1 < order@.len() && 0 <= k2 < order@.len() && k1
                                != k2 implies order@[k1] != order@[k2] by {
                            if k1 == old_order.len() && order@[k2] == c {
                                assert(old_order[k2] == c);
                                assert(old_order.contains(c));
                            }
                            if k2 == old_order.len() && order@[k1] == c {
                                assert(old_order[k1] == c);
                                assert(old_order.contains(c));
                            }
                        }
                        assert forall|j: int|
                            0 <= j < n implies ((#[trigger] placed@[j]) <==> order@.contains(
                            j as usize,
                        )) by {
                            lemma_push_contains(old_order, c, j as usize);
                        }
                        assert forall|e: int, ka: int|
                            0 <= e < self.edges@.len() && 0 <= ka < order@.len()
                                && (#[trigger] self.edges@[e]).0 == #[trigger] order@[ka]
                            implies exists|kb: int|
                            0 <= kb < ka && order@[kb] == self.edges@[e].1 by {
                            if ka < old_order.len() {
                                assert(old_order[ka] == order@[ka]);
                                let kb = choose|kb: int|
                                    0 <= kb < ka && old_order[kb] == self.edges@[e].1;
                                assert(order@[kb] == self.edges@[e].1);
                            } else {
                                assert(order@[ka] == c);
                                assert(old_placed[self.edges@[e].1 as int]);
                                assert(old_order.contains(self.edges@[e].1));
                                let kb = choose|kb: int|
                                    0 <= kb < old_order.len() && old_order[kb] == self.edges@[e].1;
                                assert(order@[kb] == self.edges@[e].1);
                            }
                        }
                    }
                }
                None => {
                    proof {
                        if self.acyclic() {
                            let full = choose|full: Seq<usize>|
                                valid_edge_order(full, n as nat, self.edges@);
                            lemma_order_prefix_placed(
                                full,
                                n as nat,
                                self.edges@,
                                placed@,
                                full.len() as int,
                            );
                            assert forall|j: usize| j < n implies order@.contains(j) by {
                                assert(full.contains(j));
                                let k = choose|k: int| 0 <= k < full.len() && full[k] == j;
                                assert(placed@[full[k] as int]);
                            }
                            lemma_cover_len_ge(order@, n as nat);
                            assert(false);
                        }
                    }
                    return Err(CycleError);
                }
            }
        }
        proof {
            lemma_distinct_handles_cover(order@, n as nat);
            assert(valid_edge_order(order@, self.node_count as nat, self.edges@));
        }
        Ok(order)
    }

    /// Inserts a directed edge from `from` to `to`, refusing it (and leaving
    /// the graph unchanged) when the grown graph would admit no
    /// dependency-respecting order, that is, when the edge would close a
    /// cycle.
    pub fn add_edge(&mut self, from: usize, to: usize) -> (r: Result<(), CycleError>)
        requires
            old(self).wf(),
            old(self).acyclic(),
            from < old(self).node_count,
            to < old(self).node_count,
        ensures
            final(self).node_count == old(self).node_count,
            final(self).wf(),
            final(self).acyclic(),
            r is Ok ==> final(self).edges@ == old(self).edges@.push((from, to)),
            r is Err ==> final(self).edges@ == old(self).edges@,
            r is Ok <==> edges_acyclic(
                old(self).node_count as nat,
                old(self).edges@.push((from, to)),
            ),
    {
        self.edges.push((from, to));
        let check = self.topological_order();
        match check {
            Ok(_) => Ok(()),
            Err(e) => {
                let _dropped = self.edges.pop();
                proof {
                    assert(self.edges@ =~= old(self).edges@);
                }
                Err(e)
            },
        }
    }
}

} // verus!
