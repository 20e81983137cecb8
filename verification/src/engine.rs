//! The instantiation engine: turns a set of dependency declarations into a
//! cycle-checked instantiation order.
//!
//! Each participating type is described by a [`Declaration`]: its own
//! identifier and the identifiers of the types it needs. `plan` builds one
//! graph node per declaration, inserts an edge for every dependency on
//! another declared type (identifiers that denote parameter or default slots
//! are already initialized and need no edge), and returns an order in which
//! every declared dependency is instantiated strictly before its dependents.

use crate::graph::CycleError;
use crate::graph::DepGraph;
use crate::graph::edges_acyclic;
use crate::graph::is_node_permutation;
use crate::graph::lemma_no_edges_acyclic;
use crate::graph::valid_edge_order;
use vstd::prelude::*;

verus! {

/// An opaque, totally ordered, hashable value standing for a distinct
/// injectable type. Two identifiers are equal exactly when they denote the
/// same type; how identifiers are assigned is up to the caller.
pub type TypeIdentifier = u64;

/// One participating type: its identifier and the identifiers of the types
/// it needs handed to it at construction. The dependency list may be empty,
/// and its order carries no meaning.
pub struct Declaration {
    pub id: TypeIdentifier,
    pub deps: Vec<TypeIdentifier>,
}

/// No two declarations share an identifier.
pub open spec fn distinct_ids(decls: Seq<Declaration>) -> bool {
    forall|i: int, j: int|
        0 <= i < decls.len() && 0 <= j < decls.len() && i != j ==> (#[trigger] decls[i]).id != (
        #[trigger] decls[j]).id
}

/// Declaration `i` names the identifier of declaration `j` among its
/// dependencies.
pub open spec fn dep_edge(decls: Seq<Declaration>, i: int, j: int) -> bool {
    &&& 0 <= i < decls.len()
    &&& 0 <= j < decls.len()
    &&& decls[i].deps@.contains(decls[j].id)
}

/// Wherever a declaration appears in `order`, every declaration it depends
/// on appears strictly earlier.
pub open spec fn decl_order_respects_deps(decls: Seq<Declaration>, order: Seq<usize>) -> bool {
    forall|i: int, j: int, ka: int|
        #![trigger dep_edge(decls, i, j), order[ka]]
        dep_edge(decls, i, j) && 0 <= ka < order.len() && order[ka] == i as usize ==> exists|
            kb: int,
        | 0 <= kb < ka && order[kb] == j as usize
}

/// A complete instantiation order for the declaration set: every declaration
/// exactly once, dependencies first.
pub open spec fn decl_valid_order(decls: Seq<Declaration>, order: Seq<usize>) -> bool {
    is_node_permutation(order, decls.len()) && decl_order_respects_deps(decls, order)
}

/// The declaration set is acyclic exactly when some dependency-respecting
/// instantiation order of all declarations exists.
pub open spec fn decls_acyclic(decls: Seq<Declaration>) -> bool {
    exists|order: Seq<usize>| decl_valid_order(decls, order)
}

/// The pair `(a, b)` stands among the recorded graph edges.
pub open spec fn edge_recorded(edges: Seq<(usize, usize)>, a: int, b: int) -> bool {
    exists|e: int| 0 <= e < edges.len() && (#[trigger] edges[e]) == (a as usize, b as usize)
}

/// Every recorded edge is a declared dependency pair.
pub open spec fn edges_sound(decls: Seq<Declaration>, edges: Seq<(usize, usize)>) -> bool {
    forall|e: int|
        0 <= e < edges.len() ==> dep_edge(
            decls,
            (#[trigger] edges[e]).0 as int,
            edges[e].1 as int,
        )
}

/// Every declared dependency pair is recorded as an edge.
pub open spec fn edges_complete(decls: Seq<Declaration>, edges: Seq<(usize, usize)>) -> bool {
    forall|i: int, j: int| #[trigger] dep_edge(decls, i, j) ==> edge_recorded(edges, i, j)
}

/// An order that respects all declared dependencies respects any edge set
/// recorded from them.
proof fn lemma_decl_order_to_graph(
    decls: Seq<Declaration>,
    edges: Seq<(usize, usize)>,
    order: Seq<usize>,
)
    requires
        edges_sound(decls, edges),
        decl_valid_order(decls, order),
    ensures
        valid_edge_order(order, decls.len(), edges),
{
    assert forall|e: int, ka: int|
        0 <= e < edges.len() && 0 <= ka < order.len()
            && (#[trigger] edges[e]).0 == #[trigger] order[ka]
            implies exists|kb: int| 0 <= kb < ka && order[kb] == edges[e].1 by {
        let i = edges[e].0 as int;
        let j = edges[e].1 as int;
        assert(dep_edge(decls, i, j));
        assert(exists|kb: int| 0 <= kb < ka && order[kb] == j as usize);
    }
}

/// An order that respects a complete edge set respects every declared
/// dependency.
proof fn lemma_graph_order_to_decl(
    decls: Seq<Declaration>,
    edges: Seq<(usize, usize)>,
    order: Seq<usize>,
)
    requires
        edges_complete(decls, edges),
        valid_edge_order(order, decls.len(), edges),
    ensures
        decl_valid_order(decls, order),
{
    assert forall|i: int, j: int, ka: int|
        #![trigger dep_edge(decls, i, j), order[ka]]
        dep_edge(decls, i, j) && 0 <= ka < order.len() && order[ka] == i as usize implies exists|
        kb: int,
    | 0 <= kb < ka && order[kb] == j as usize by {
        assert(edge_recorded(edges, i, j));
        let e = choose|e: int|
            0 <= e < edges.len() && (#[trigger] edges[e]) == (i as usize, j as usize);
        assert(edges[e].0 == order[ka]);
        let kb = choose|kb: int| 0 <= kb < ka && order[kb] == edges[e].1;
        assert(order[kb] == j as usize);
    }
}

/// A cyclic subset of the declared dependencies makes the declaration set
/// cyclic.
proof fn lemma_sound_cycle_transfers(decls: Seq<Declaration>, edges: Seq<(usize, usize)>)
    requires
        edges_sound(decls, edges),
        !edges_acyclic(decls.len(), edges),
    ensures
        !decls_acyclic(decls),
{
    if decls_acyclic(decls) {
        let order = choose|order: Seq<usize>| decl_valid_order(decls, order);
        lemma_decl_order_to_graph(decls, edges, order);
        assert(valid_edge_order(order, decls.len(), edges));
        assert(false);
    }
}

/// The order in which a declaration lists its dependencies carries no
/// meaning: declaration sets whose dependency lists hold the same
/// identifiers admit exactly the same instantiation orders, and one set is
/// acyclic exactly when the other is.
proof fn lemma_dep_list_order_irrelevant_for(
    d1: Seq<Declaration>,
    d2: Seq<Declaration>,
    order: Seq<usize>,
)
    requires
        d1.len() == d2.len(),
        forall|k: int| 0 <= k < d1.len() ==> (#[trigger] d2[k]).id == d1[k].id,
        forall|k: int, x: TypeIdentifier|
            0 <= k < d1.len() ==> ((#[trigger] d2[k].deps@.contains(x)) <==> d1[k].deps@.contains(
                x,
            )),
    ensures
        decl_valid_order(d1, order) <==> decl_valid_order(d2, order),
{
    assert forall|i: int, j: int| #[trigger] dep_edge(d1, i, j) implies dep_edge(d2, i, j) by {
        assert(d1[i].deps@.contains(d1[j].id));
    }
    assert forall|i: int, j: int| #[trigger] dep_edge(d2, i, j) implies dep_edge(d1, i, j) by {
        assert(d2[i].deps@.contains(d2[j].id));
    }
    if decl_order_respects_deps(d1, order) {
        assert forall|i: int, j: int, ka: int|
            #![trigger dep_edge(d2, i, j), order[ka]]
            dep_edge(d2, i, j) && 0 <= ka < order.len() && order[ka] == i as usize implies exists|
            kb: int,
        | 0 <= kb < ka && order[kb] == j as usize by {
            assert(dep_edge(d1, i, j));
        }
    }
    if decl_order_respects_deps(d2, order) {
        assert forall|i: int, j: int, ka: int|
            #![trigger dep_edge(d1, i, j), order[ka]]
            dep_edge(d1, i, j) && 0 <= ka < order.len() && order[ka] == i as usize implies exists|
            kb: int,
        | 0 <= kb < ka && order[kb] == j as usize by {
            assert(dep_edge(d2, i, j));
        }
    }
}

/// The order in which a declaration lists its dependencies carries no
/// meaning: declaration sets whose dependency lists hold the same
/// identifiers admit exactly the same instantiation orders, and one set is
/// acyclic exactly when the other is.
pub proof fn lemma_dep_list_order_irrelevant(
    d1: Seq<Declaration>,
    d2: Seq<Declaration>,
    order: Seq<usize>,
)
    requires
        d1.len() == d2.len(),
        forall|k: int| 0 <= k < d1.len() ==> (#[trigger] d2[k]).id == d1[k].id,
        forall|k: int, x: TypeIdentifier|
            0 <= k < d1.len() ==> ((#[trigger] d2[k].deps@.contains(x)) <==> d1[k].deps@.contains(
                x,
            )),
    ensures
        decl_valid_order(d1, order) <==> decl_valid_order(d2, order),
        decls_acyclic(d1) <==> decls_acyclic(d2),
{
    lemma_dep_list_order_irrelevant_for(d1, d2, order);
    if decls_acyclic(d1) {
        let o = choose|o: Seq<usize>| decl_valid_order(d1, o);
        lemma_dep_list_order_irrelevant_for(d1, d2, o);
        assert(decl_valid_order(d2, o));
    }
    if decls_acyclic(d2) {
        let o = choose|o: Seq<usize>| decl_valid_order(d2, o);
        lemma_dep_list_order_irrelevant_for(d1, d2, o);
        assert(decl_valid_order(d1, o));
    }
}

/// Transports a valid instantiation order along a renumbering of the
/// declarations: if `d2` holds the declarations of `d1` at positions given
/// by `p`, an acyclic `d1` forces `d2` acyclic.
proof fn lemma_acyclic_under_renumbering(d1: Seq<Declaration>, d2: Seq<Declaration>, p: Seq<usize>)
    requires
        d1.len() == d2.len(),
        d1.len() <= usize::MAX,
        p.len() == d1.len(),
        p.no_duplicates(),
        forall|k: int| 0 <= k < p.len() ==> (#[trigger] p[k]) < d1.len(),
        forall|k: int| 0 <= k < d1.len() ==> d2[#[trigger] p[k] as int] == d1[k],
        decls_acyclic(d1),
    ensures
        decls_acyclic(d2),
{
    let n = d1.len();
    crate::graph::lemma_distinct_handles_cover(p, n);
    let o1 = choose|o1: Seq<usize>| decl_valid_order(d1, o1);
    let o2 = Seq::<usize>::new(n, |k: int| p[o1[k] as int]);
    assert forall|k1: int, k2: int|
        0 <= k1 < o2.len() && 0 <= k2 < o2.len() && k1 != k2 implies o2[k1] != o2[k2] by {
        assert(o1[k1] != o1[k2]);
    }
    assert forall|i: usize| i < n implies o2.contains(i) by {
        assert(p.contains(i));
        let b = choose|b: int| 0 <= b < p.len() && p[b] == i;
        assert(o1.contains(b as usize));
        let k = choose|k: int| 0 <= k < o1.len() && o1[k] == b as usize;
        assert(o2[k] == i);
    }
    assert forall|i: int, j: int, ka: int|
        #![trigger dep_edge(d2, i, j), o2[ka]]
        dep_edge(d2, i, j) && 0 <= ka < o2.len() && o2[ka] == i as usize implies exists|kb: int|
        0 <= kb < ka && o2[kb] == j as usize by {
        let a1 = o1[ka] as int;
        assert(p[a1] == i as usize);
        assert(p.contains(j as usize));
        let b1 = choose|b1: int| 0 <= b1 < p.len() && p[b1] == j as usize;
        assert(d2[i] == d1[a1] && d2[j] == d1[b1]);
        assert(dep_edge(d1, a1, b1)) by {
            assert(d2[i].deps@.contains(d2[j].id));
        }
        assert(o1[ka] == a1 as usize);
        let kb = choose|kb: int| 0 <= kb < ka && o1[kb] == b1 as usize;
        assert(o2[kb] == j as usize);
    }
    assert(decl_valid_order(d2, o2));
}

/// Declaring the same set of dependencies in any other order leaves the
/// dependency relation, and with it acyclicity, unchanged: `d2` holds the
/// declarations of `d1` rearranged by the renumbering `p`.
pub proof fn lemma_declaration_order_irrelevant(
    d1: Seq<Declaration>,
    d2: Seq<Declaration>,
    p: Seq<usize>,
)
    requires
        d1.len() == d2.len(),
        d1.len() <= usize::MAX,
        p.len() == d1.len(),
        p.no_duplicates(),
        forall|k: int| 0 <= k < p.len() ==> (#[trigger] p[k]) < d1.len(),
        forall|k: int| 0 <= k < d1.len() ==> d2[#[trigger] p[k] as int] == d1[k],
    ensures
        decls_acyclic(d1) <==> decls_acyclic(d2),
{
    let n = d1.len();
    crate::graph::lemma_distinct_handles_cover(p, n);
    if decls_acyclic(d1) {
        lemma_acyclic_under_renumbering(d1, d2, p);
    }
    if decls_acyclic(d2) {
        let q = Seq::<usize>::new(n, |i: int| p.index_of(i as usize) as usize);
        assert forall|i: int| 0 <= i < n implies (#[trigger] q[i]) < n && p[q[i] as int] == i
            as usize by {
            assert(p.contains(i as usize));
            assert(exists|k: int| 0 <= k < p.len() && p[k] == i as usize);
            let idx = p.index_of(i as usize);
            assert(0 <= idx < p.len() && p[idx] == i as usize);
            assert(q[i] == idx as usize);
        }
        assert forall|i1: int, i2: int|
            0 <= i1 < q.len() && 0 <= i2 < q.len() && i1 != i2 implies q[i1] != q[i2] by {
            assert(p[q[i1] as int] == i1 as usize && p[q[i2] as int] == i2 as usize);
        }
        assert forall|k: int| 0 <= k < n implies d1[#[trigger] q[k] as int] == d2[k] by {
            assert(d2[p[q[k] as int] as int] == d1[q[k] as int]);
            assert(p[q[k] as int] == k as usize);
        }
        lemma_acyclic_under_renumbering(d2, d1, q);
    }
}

/// Lazy-pull safety: in any instantiation order the engine may choose, by
/// the time a declaration's turn comes, every declaration it depends on has
/// already had its turn — so a constructor that pulls its declared
/// dependencies out of the context never meets an unwritten slot.
pub proof fn lemma_lazy_pull_safe(
    decls: Seq<Declaration>,
    order: Seq<usize>,
    ka: int,
    i: int,
    j: int,
)
    requires
        decl_valid_order(decls, order),
        dep_edge(decls, i, j),
        0 <= ka < order.len(),
        order[ka] == i as usize,
    ensures
        exists|kb: int| 0 <= kb < ka && order[kb] == j as usize,
{
}

/// Looks up the declaration carrying `id`, if any.
fn find_declaration(decls: &Vec<Declaration>, id: TypeIdentifier) -> (r: Option<usize>)
    ensures
        (match r {
            Some(j) => j < decls@.len() && decls@[j as int].id == id,
            None => forall|j: int| 0 <= j < decls@.len() ==> (#[trigger] decls@[j]).id != id,
        }),
{
    let mut j: usize = 0;
    while j < decls.len()
        invariant
            j <= decls@.len(),
            forall|k: int| 0 <= k < j ==> (#[trigger] decls@[k]).id != id,
        decreases decls@.len() - j,
    {
        if decls[j].id == id {
            return Some(j);
        }
        j = j + 1;
    }
    None
}

/// Builds the dependency graph for the declaration set and computes an
/// instantiation order: every declaration exactly once, each declared
/// dependency strictly before its dependents. Fails with `CycleError`, and
/// only then, when the declared dependencies close a cycle (a self-cycle or
/// a longer one); identifiers that no declaration carries denote slots that
/// are initialized before instantiation starts, and constrain nothing.
pub fn plan(decls: &Vec<Declaration>) -> (r: Result<Vec<usize>, CycleError>)
    requires
        distinct_ids(decls@),
    ensures
        (match r {
            Ok(order) => decl_valid_order(decls@, order@),
            Err(_) => true,
        }),
        r is Ok <==> decls_acyclic(decls@),
{
    let n = decls.len();
    let mut graph = DepGraph::new();
    let mut i: usize = 0;
    while i < n
        invariant
            i <= n,
            n == decls@.len(),
            graph.node_count == i,
            graph.edges@.len() == 0,
            graph.wf(),
        decreases n - i,
    {
        let _handle = graph.add_node();
        i = i + 1;
    }
    proof {
        lemma_no_edges_acyclic(n as nat, graph.edges@);
    }
    let mut di: usize = 0;
    while di < n
        invariant
            di <= n,
            n == decls@.len(),
            distinct_ids(decls@),
            graph.node_count == n,
            graph.wf(),
            graph.acyclic(),
            edges_sound(decls@, graph.edges@),
            forall|a: int, b: int|
                #[trigger] dep_edge(decls@, a, b) && a < di ==> edge_recorded(graph.edges@, a, b),
        decreases n - di,
    {
        let deps_len = decls[di].deps.len();
        let mut dk: usize = 0;
        while dk < deps_len
            invariant
                di < n,
                dk <= deps_len,
                n == decls@.len(),
                distinct_ids(decls@),
                deps_len == decls@[di as int].deps@.len(),
                graph.node_count == n,
                graph.wf(),
                graph.acyclic(),
                edges_sound(decls@, graph.edges@),
                forall|a: int, b: int|
                    #[trigger] dep_edge(decls@, a, b) && a < di ==> edge_recorded(
                        graph.edges@,
                        a,
                        b,
                    ),
                forall|p: int, b: int|
                    #![trigger decls@[di as int].deps@[p], decls@[b]]
                    0 <= p < dk && 0 <= b < n && decls@[di as int].deps@[p] == decls@[b].id
                        ==> edge_recorded(graph.edges@, di as int, b),
            decreases deps_len - dk,
        {
            let dep_id = decls[di].deps[dk];
            let ghost pre_edges = graph.edges@;
            match find_declaration(decls, dep_id) {
                Some(j) => {
                    proof {
                        assert(dep_edge(decls@, di as int, j as int));
                    }
                    match graph.add_edge(di, j) {
                        Ok(_) => {
                            proof {
                                assert forall|a: int, b: int|
                                    #[trigger] dep_edge(decls@, a, b) && a < di implies
                                    edge_recorded(graph.edges@, a, b) by {
                                    let e = choose|e: int|
                                        0 <= e < pre_edges.len() && (#[trigger] pre_edges[e]) == (
                                        a as usize, b as usize);
                                    assert(graph.edges@[e] == (a as usize, b as usize));
                                }
                                assert forall|p: int, b: int|
                                    #![trigger decls@[di as int].deps@[p], decls@[b]]
                                    0 <= p < dk + 1 && 0 <= b < n && decls@[di as int].deps@[p]
                                        == decls@[b].id implies edge_recorded(
                                    graph.edges@,
                                    di as int,
                                    b,
                                ) by {
                                    if p < dk {
                                        let e = choose|e: int|
                                            0 <= e < pre_edges.len() && (#[trigger] pre_edges[e])
                                                == (di as usize, b as usize);
                                        assert(graph.edges@[e] == (di as usize, b as usize));
                                    } else {
                                        assert(decls@[b].id == dep_id && decls@[j as int].id
                                            == dep_id);
                                        assert(b == j as int);
                                        assert(graph.edges@[pre_edges.len() as int] == (
                                        di as usize, j));
                                    }
                                }
                            }
                        },
                        Err(cycle) => {
                            proof {
                                assert(edges_sound(decls@, pre_edges.push((di, j)))) by {
                                    assert forall|e: int|
                                        0 <= e < pre_edges.push((di, j)).len() implies dep_edge(
                                        decls@,
                                        (#[trigger] pre_edges.push((di, j))[e]).0 as int,
                                        pre_edges.push((di, j))[e].1 as int,
                                    ) by {
                                        if e < pre_edges.len() {
                                            assert(pre_edges.push((di, j))[e] == pre_edges[e]);
                                        }
                                    }
                                }
                                lemma_sound_cycle_transfers(decls@, pre_edges.push((di, j)));
                            }
                            return Err(cycle);
                        },
                    }
                },
                None => {
                    proof {
                        assert forall|p: int, b: int|
                            #![trigger decls@[di as int].deps@[p], decls@[b]]
                            0 <= p < dk + 1 && 0 <= b < n && decls@[di as int].deps@[p]
                                == decls@[b].id implies edge_recorded(
                            graph.edges@,
                            di as int,
                            b,
                        ) by {
                            if p == dk {
                                assert(decls@[b].id != dep_id);
                            }
                        }
                    }
                },
            }
            dk = dk + 1;
        }
        proof {
            assert forall|a: int, b: int|
                #[trigger] dep_edge(decls@, a, b) && a < di + 1 implies edge_recorded(
                graph.edges@,
                a,
                b,
            ) by {
                if a == di {
                    let p = choose|p: int|
                        0 <= p < decls@[a].deps@.len() && decls@[a].deps@[p] == decls@[b].id;
                    assert(decls@[a].deps@[p] == decls@[b].id);
                }
            }
        }
        di = di + 1;
    }
    match graph.topological_order() {
        Ok(order) => {
            proof {
                lemma_graph_order_to_decl(decls@, graph.edges@, order@);
            }
            Ok(order)
        },
        Err(cycle) => {
            proof {
                lemma_sound_cycle_transfers(decls@, graph.edges@);
            }
            Err(cycle)
        },
    }
}

} // verus!
