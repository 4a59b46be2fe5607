//! Dependency analysis: categorize nodes by connectivity and compute an
//! execution order in which every node comes after all of its dependencies
//! and before all of its dependents.
//!
//! The analyzer reads one graph snapshot; callers recompute by constructing a
//! new analyzer after mutating the graph.

use vstd::prelude::*;

use crate::{lemma_seq_push_contains, Graph, Node, NodeId};

verus! {

/// Every node id of the analyzed graph, in exactly one of the four vectors.
pub struct CatagorizedNodes {
    /// Nodes with no active connection on any port.
    pub loose: Vec<NodeId>,
    /// Nodes with outgoing connections only.
    pub entry: Vec<NodeId>,
    /// Nodes with incoming connections only.
    pub exit: Vec<NodeId>,
    /// Nodes with both incoming and outgoing connections.
    pub net: Vec<NodeId>,
}

/// A read-only view of one graph snapshot.
pub struct GraphAnalyzer<'a, N: Node> {
    graph: &'a Graph<N>,
}

impl<'a, N: Node> GraphAnalyzer<'a, N> {
    /// The snapshot under analysis.
    pub closed spec fn spec_graph(self) -> Graph<N> {
        *self.graph
    }

    pub fn new(graph: &'a Graph<N>) -> (r: Self)
        ensures
            r.spec_graph() == *graph,
    {
        GraphAnalyzer { graph }
    }

    /// Partition every node id by connectivity: loose (no connection on any
    /// port), entry (outgoing only), exit (incoming only), net (both). Every
    /// node id lands in exactly one category.
    pub fn catagorize_nodes(&self) -> (r: CatagorizedNodes)
        requires
            self.spec_graph().wf(),
        ensures
            ({
                let g = self.spec_graph();
                &&& forall|n: NodeId|
                    #[trigger] r.loose@.contains(n) <==> (g.has_node(n) && !g.node_has_incoming(n)
                        && !g.node_has_outgoing(n))
                &&& forall|n: NodeId|
                    #[trigger] r.entry@.contains(n) <==> (g.has_node(n) && !g.node_has_incoming(n)
                        && g.node_has_outgoing(n))
                &&& forall|n: NodeId|
                    #[trigger] r.exit@.contains(n) <==> (g.has_node(n) && g.node_has_incoming(n)
                        && !g.node_has_outgoing(n))
                &&& forall|n: NodeId|
                    #[trigger] r.net@.contains(n) <==> (g.has_node(n) && g.node_has_incoming(n)
                        && g.node_has_outgoing(n))
                &&& forall|n: NodeId|
                    #[trigger] g.has_node(n) ==> (r.loose@.contains(n) || r.entry@.contains(n)
                        || r.exit@.contains(n) || r.net@.contains(n))
                &&& forall|n: NodeId|
                    #![all_triggers]
                    g.has_node(n) ==> {
                        &&& !(r.loose@.contains(n) && r.entry@.contains(n))
                        &&& !(r.loose@.contains(n) && r.exit@.contains(n))
                        &&& !(r.loose@.contains(n) && r.net@.contains(n))
                        &&& !(r.entry@.contains(n) && r.exit@.contains(n))
                        &&& !(r.entry@.contains(n) && r.net@.contains(n))
                        &&& !(r.exit@.contains(n) && r.net@.contains(n))
                    }
                &&& forall|i: int, j: int| 0 <= i < j < r.loose@.len() ==> r.loose@[i] != r.loose@[j]
                &&& forall|i: int, j: int| 0 <= i < j < r.entry@.len() ==> r.entry@[i] != r.entry@[j]
                &&& forall|i: int, j: int| 0 <= i < j < r.exit@.len() ==> r.exit@[i] != r.exit@[j]
                &&& forall|i: int, j: int| 0 <= i < j < r.net@.len() ==> r.net@[i] != r.net@[j]
            }),
    {
        let g = self.graph;
        let count = g.node_slot_count();
        let mut loose: Vec<NodeId> = Vec::new();
        let mut entry: Vec<NodeId> = Vec::new();
        let mut exit: Vec<NodeId> = Vec::new();
        let mut net: Vec<NodeId> = Vec::new();
        let mut i: usize = 0;
        while i < count
            invariant
                g.wf(),
                count as int == g.node_index_bound(),
                forall|n: NodeId| #[trigger] g.has_node(n) ==> (n.index as int) < count as int,
                0 <= i <= count,
                forall|n: NodeId|
                    #[trigger] loose@.contains(n) <==> (g.has_node(n) && n.index < i
                        && !g.node_has_incoming(n) && !g.node_has_outgoing(n)),
                forall|n: NodeId|
                    #[trigger] entry@.contains(n) <==> (g.has_node(n) && n.index < i
                        && !g.node_has_incoming(n) && g.node_has_outgoing(n)),
                forall|n: NodeId|
                    #[trigger] exit@.contains(n) <==> (g.has_node(n) && n.index < i
                        && g.node_has_incoming(n) && !g.node_has_outgoing(n)),
                forall|n: NodeId|
                    #[trigger] net@.contains(n) <==> (g.has_node(n) && n.index < i
                        && g.node_has_incoming(n) && g.node_has_outgoing(n)),
                forall|k: int, j: int| 0 <= k < j < loose@.len() ==> loose@[k] != loose@[j],
                forall|k: int, j: int| 0 <= k < j < entry@.len() ==> entry@[k] != entry@[j],
                forall|k: int, j: int| 0 <= k < j < exit@.len() ==> exit@[k] != exit@[j],
                forall|k: int, j: int| 0 <= k < j < net@.len() ==> net@[k] != net@[j],
            decreases count - i,
        {
            match g.live_node_at(i) {
                None => (),
                Some(id) => {
                    let has_in = g.has_incoming_connections(id);
                    let has_out = g.has_outgoing_connections(id);
                    let ghost loose_pre = loose@;
                    let ghost entry_pre = entry@;
                    let ghost exit_pre = exit@;
                    let ghost net_pre = net@;
                    if !has_in && !has_out {
                        loose.push(id);
                    } else if !has_in {
                        entry.push(id);
                    } else if !has_out {
                        exit.push(id);
                    } else {
                        net.push(id);
                    }
                    proof {
                        assert forall|k: int, j: int|
                            0 <= k < j < loose@.len() implies loose@[k] != loose@[j] by {
                            if loose@ != loose_pre && j == loose@.len() - 1 {
                                assert(loose@[k] == loose_pre[k]);
                                assert(loose_pre.contains(loose_pre[k]));
                            }
                        }
                        assert forall|k: int, j: int|
                            0 <= k < j < entry@.len() implies entry@[k] != entry@[j] by {
                            if entry@ != entry_pre && j == entry@.len() - 1 {
                                assert(entry@[k] == entry_pre[k]);
                                assert(entry_pre.contains(entry_pre[k]));
                            }
                        }
                        assert forall|k: int, j: int|
                            0 <= k < j < exit@.len() implies exit@[k] != exit@[j] by {
                            if exit@ != exit_pre && j == exit@.len() - 1 {
                                assert(exit@[k] == exit_pre[k]);
                                assert(exit_pre.contains(exit_pre[k]));
                            }
                        }
                        assert forall|k: int, j: int|
                            0 <= k < j < net@.len() implies net@[k] != net@[j] by {
                            if net@ != net_pre && j == net@.len() - 1 {
                                assert(net@[k] == net_pre[k]);
                                assert(net_pre.contains(net_pre[k]));
                            }
                        }
                        assert forall|n: NodeId| #[trigger] loose@.contains(n) implies (
                        g.has_node(n) && n.index < i + 1 && !g.node_has_incoming(n)
                            && !g.node_has_outgoing(n)) by {
                            if loose@ =~= loose_pre.push(id) {
                                lemma_seq_push_contains(loose_pre, id, n);
                            }
                        }
                        assert forall|n: NodeId|
                            (g.has_node(n) && n.index < i + 1 && !g.node_has_incoming(n)
                                && !g.node_has_outgoing(n)) implies #[trigger] loose@.contains(
                            n,
                        ) by {
                            if n.index < i {
                                assert(loose_pre.contains(n));
                                if loose@ =~= loose_pre.push(id) {
                                    lemma_seq_push_contains(loose_pre, id, n);
                                }
                            } else {
                                assert(n == id);
                                assert(loose@ == loose_pre.push(id));
                                lemma_seq_push_contains(loose_pre, id, n);
                            }
                        }
                        assert forall|n: NodeId| #[trigger] entry@.contains(n) implies (
                        g.has_node(n) && n.index < i + 1 && !g.node_has_incoming(n)
                            && g.node_has_outgoing(n)) by {
                            if entry@ =~= entry_pre.push(id) {
                                lemma_seq_push_contains(entry_pre, id, n);
                            }
                        }
                        assert forall|n: NodeId|
                            (g.has_node(n) && n.index < i + 1 && !g.node_has_incoming(n)
                                && g.node_has_outgoing(n)) implies #[trigger] entry@.contains(
                            n,
                        ) by {
                            if n.index < i {
                                assert(entry_pre.contains(n));
                                if entry@ =~= entry_pre.push(id) {
                                    lemma_seq_push_contains(entry_pre, id, n);
                                }
                            } else {
                                assert(n == id);
                                assert(entry@ == entry_pre.push(id));
                                lemma_seq_push_contains(entry_pre, id, n);
                            }
                        }
                        assert forall|n: NodeId| #[trigger] exit@.contains(n) implies (
                        g.has_node(n) && n.index < i + 1 && g.node_has_incoming(n)
                            && !g.node_has_outgoing(n)) by {
                            if exit@ =~= exit_pre.push(id) {
                                lemma_seq_push_contains(exit_pre, id, n);
                            }
                        }
                        assert forall|n: NodeId|
                            (g.has_node(n) && n.index < i + 1 && g.node_has_incoming(n)
                                && !g.node_has_outgoing(n)) implies #[trigger] exit@.contains(
                            n,
                        ) by {
                            if n.index < i {
                                assert(exit_pre.contains(n));
                                if exit@ =~= exit_pre.push(id) {
                                    lemma_seq_push_contains(exit_pre, id, n);
                                }
                            } else {
                                assert(n == id);
                                assert(exit@ == exit_pre.push(id));
                                lemma_seq_push_contains(exit_pre, id, n);
                            }
                        }
                        assert forall|n: NodeId| #[trigger] net@.contains(n) implies (g.has_node(
                            n,
                        ) && n.index < i + 1 && g.node_has_incoming(n) && g.node_has_outgoing(
                            n,
                        )) by {
                            if net@ =~= net_pre.push(id) {
                                lemma_seq_push_contains(net_pre, id, n);
                            }
                        }
                        assert forall|n: NodeId|
                            (g.has_node(n) && n.index < i + 1 && g.node_has_incoming(n)
                                && g.node_has_outgoing(n)) implies #[trigger] net@.contains(n) by {
                            if n.index < i {
                                assert(net_pre.contains(n));
                                if net@ =~= net_pre.push(id) {
                                    lemma_seq_push_contains(net_pre, id, n);
                                }
                            } else {
                                assert(n == id);
                                assert(net@ == net_pre.push(id));
                                lemma_seq_push_contains(net_pre, id, n);
                            }
                        }
                    }
                },
            }
            i += 1;
        }
        CatagorizedNodes { loose, entry, exit, net }
    }

    /// Compute a dependency-respecting execution order over the nodes
    /// reachable from the given exit nodes: every listed node appears after
    /// all of its dependencies and before all of its dependents, exactly
    /// once, and the listing is closed under dependencies. A dependency
    /// cycle is not defended against: the caller must bring an acyclic
    /// graph.
    #[verifier::rlimit(100)]
    #[verifier::spinoff_prover]
    pub fn generate_execution_path(&self, exit_nodes: &Vec<NodeId>) -> (r: Vec<NodeId>)
        requires
            self.spec_graph().wf(),
            self.spec_graph().spec_acyclic(),
            forall|k: int|
                0 <= k < exit_nodes@.len() ==> self.spec_graph().has_node(#[trigger] exit_nodes@[k]),
        ensures
            ({
                let g = self.spec_graph();
                &&& forall|i: int| 0 <= i < r@.len() ==> g.has_node(#[trigger] r@[i])
                &&& forall|i: int, j: int| 0 <= i < j < r@.len() ==> r@[i] != r@[j]
                &&& forall|i: int, j: int|
                    #![trigger r@[i], r@[j]]
                    0 <= i < r@.len() && 0 <= j < r@.len() && g.dep_edge(r@[j], r@[i]) ==> j < i
                &&& forall|k: int|
                    0 <= k < exit_nodes@.len() ==> r@.contains(#[trigger] exit_nodes@[k])
                &&& forall|i: int, a: NodeId|
                    #![trigger g.dep_edge(a, r@[i])]
                    0 <= i < r@.len() && g.dep_edge(a, r@[i]) ==> r@.contains(a)
            }),
    {
        let g = self.graph;
        // phase one: collect every node reachable from the exit set through
        // dependency edges
        let mut reached: Vec<NodeId> = Vec::new();
        let mut stack: Vec<NodeId> = Vec::new();
        let n_exits = exit_nodes.len();
        let mut e: usize = 0;
        while e < n_exits
            invariant
                g.wf(),
                n_exits == exit_nodes@.len(),
                forall|k: int| 0 <= k < n_exits ==> g.has_node(#[trigger] exit_nodes@[k]),
                0 <= e <= n_exits,
                stack@.len() == e,
                forall|k: int| 0 <= k < e ==> stack@[k] == exit_nodes@[k],
                forall|k: int| 0 <= k < stack@.len() ==> g.has_node(#[trigger] stack@[k]),
            decreases n_exits - e,
        {
            stack.push(exit_nodes[e]);
            e += 1;
        }
        proof {
            assert forall|k: int| 0 <= k < n_exits implies stack@.contains(
                #[trigger] exit_nodes@[k],
            ) by {
                assert(stack@[k] == exit_nodes@[k]);
            }
        }
        while stack.len() > 0
            invariant
                g.wf(),
                forall|k: int| 0 <= k < stack@.len() ==> g.has_node(#[trigger] stack@[k]),
                forall|x: NodeId| #[trigger] reached@.contains(x) ==> g.has_node(x),
                forall|i: int, j: int| 0 <= i < j < reached@.len() ==> reached@[i] != reached@[j],
                reached@.len() <= g.node_index_bound(),
                forall|k: int|
                    0 <= k < exit_nodes@.len() ==> reached@.contains(#[trigger] exit_nodes@[k])
                        || stack@.contains(exit_nodes@[k]),
                forall|b: NodeId, a: NodeId|
                    #[trigger] reached@.contains(b) && #[trigger] g.dep_edge(a, b)
                        ==> reached@.contains(a) || stack@.contains(a),
            decreases g.node_index_bound() - reached@.len(), stack@.len(),
        {
            let ghost stack_old = stack@;
            let top = match stack.pop() {
                Some(t) => t,
                None => { proof { assert(false); } unreached() },
            };
            let ghost stack_mid = stack@;
            proof {
                assert(stack_old =~= stack_mid.push(top));
                assert forall|k: int|
                    0 <= k < exit_nodes@.len() && !reached@.contains(
                        #[trigger] exit_nodes@[k],
                    ) && exit_nodes@[k] != top implies stack_mid.contains(exit_nodes@[k]) by {
                    assert(stack_old.contains(exit_nodes@[k]));
                    let w = choose|w: int|
                        0 <= w < stack_old.len() && stack_old[w] == exit_nodes@[k];
                    if w < stack_mid.len() {
                        assert(stack_mid[w] == exit_nodes@[k]);
                    } else {
                        assert(stack_old[w] == top);
                        assert(false);
                    }
                }
                assert forall|b: NodeId, a: NodeId|
                    #[trigger] reached@.contains(b) && #[trigger] g.dep_edge(a, b) && a != top
                        && !reached@.contains(a) implies stack_mid.contains(a) by {
                    assert(stack_old.contains(a));
                    let w = choose|w: int| 0 <= w < stack_old.len() && stack_old[w] == a;
                    if w < stack_mid.len() {
                        assert(stack_mid[w] == a);
                    } else {
                        assert(stack_old[w] == top);
                        assert(false);
                    }
                }
            }
            let already = vec_contains_node(&reached, top);
            if !already {
                let ghost reached_pre = reached@;
                reached.push(top);
                proof {
                    assert forall|x: NodeId| #[trigger] reached@.contains(x) implies g.has_node(
                        x,
                    ) by {
                        lemma_seq_push_contains(reached_pre, top, x);
                    }
                    assert forall|i: int, j: int|
                        0 <= i < j < reached@.len() implies reached@[i] != reached@[j] by {
                        if j == reached@.len() - 1 {
                            assert(reached@[i] == reached_pre[i]);
                            assert(reached_pre.contains(reached_pre[i]));
                        }
                    }
                    g.lemma_distinct_nodes_bounded(reached@);
                }
                let deps = g.get_direct_dependencies(top);
                let n_deps = deps.len();
                let mut d: usize = 0;
                while d < n_deps
                    invariant
                        g.wf(),
                        n_deps == deps@.len(),
                        forall|a: NodeId| #[trigger] deps@.contains(a) == g.dep_edge(a, top),
                        0 <= d <= n_deps,
                        forall|k: int| 0 <= k < stack@.len() ==> g.has_node(#[trigger] stack@[k]),
                        forall|k: int|
                            0 <= k < stack_mid.len() ==> stack@.contains(#[trigger] stack_mid[k]),
                        forall|k: int| 0 <= k < d ==> stack@.contains(#[trigger] deps@[k]),
                    decreases n_deps - d,
                {
                    let ghost stack_pre = stack@;
                    let dep = deps[d];
                    proof {
                        assert(deps@.contains(dep));
                        assert(g.dep_edge(dep, top));
                        assert(g.has_node(dep)) by {
                            let c = choose|c: crate::ConnectionId|
                                #![trigger g.connection(c)]
                                g.has_connection(c) && g.output_port(
                                    g.connection(c).start_port,
                                ).node == dep && g.input_port(g.connection(c).end_port).node
                                    == top;
                            assert(g.has_output_port(g.connection(c).start_port));
                        }
                    }
                    stack.push(dep);
                    proof {
                        assert forall|k: int|
                            0 <= k < stack_mid.len() implies stack@.contains(
                            #[trigger] stack_mid[k],
                        ) by {
                            lemma_seq_push_contains(stack_pre, dep, stack_mid[k]);
                        }
                        assert forall|k: int| 0 <= k < d + 1 implies stack@.contains(
                            #[trigger] deps@[k],
                        ) by {
                            lemma_seq_push_contains(stack_pre, dep, deps@[k]);
                        }
                        assert forall|k: int| 0 <= k < stack@.len() implies g.has_node(
                            #[trigger] stack@[k],
                        ) by {
                            if k < stack_pre.len() {
                                assert(stack@[k] == stack_pre[k]);
                            } else {
                                assert(stack@[k] == dep);
                            }
                        }
                    }
                    d += 1;
                }
                proof {
                    assert forall|k: int|
                        0 <= k < exit_nodes@.len() implies reached@.contains(
                        #[trigger] exit_nodes@[k],
                    ) || stack@.contains(exit_nodes@[k]) by {
                        lemma_seq_push_contains(reached_pre, top, exit_nodes@[k]);
                        if !reached@.contains(exit_nodes@[k]) && exit_nodes@[k] != top {
                            assert(stack_mid.contains(exit_nodes@[k]));
                            let w = choose|w: int|
                                0 <= w < stack_mid.len() && stack_mid[w] == exit_nodes@[k];
                            assert(stack@.contains(stack_mid[w]));
                        }
                    }
                    assert forall|b: NodeId, a: NodeId|
                        #[trigger] reached@.contains(b) && #[trigger] g.dep_edge(a, b)
                            && !reached@.contains(a) implies stack@.contains(a) by {
                        lemma_seq_push_contains(reached_pre, top, b);
                        lemma_seq_push_contains(reached_pre, top, a);
                        if b == top {
                            let deps_view = deps@;
                            assert(deps_view.contains(a));
                            let w = choose|w: int|
                                0 <= w < deps_view.len() && deps_view[w] == a;
                            assert(stack@.contains(deps_view[w]));
                        } else {
                            assert(reached_pre.contains(b));
                            if a != top {
                                assert(stack_mid.contains(a));
                                let w = choose|w: int|
                                    0 <= w < stack_mid.len() && stack_mid[w] == a;
                                assert(stack@.contains(stack_mid[w]));
                            } else {
                                assert(reached@.contains(top));
                            }
                        }
                    }
                }
            } else {
                proof {
                    assert forall|k: int|
                        0 <= k < exit_nodes@.len() implies reached@.contains(
                        #[trigger] exit_nodes@[k],
                    ) || stack@.contains(exit_nodes@[k]) by {
                        if !reached@.contains(exit_nodes@[k]) && exit_nodes@[k] != top {
                            assert(stack_mid.contains(exit_nodes@[k]));
                        }
                    }
                    assert forall|b: NodeId, a: NodeId|
                        #[trigger] reached@.contains(b) && #[trigger] g.dep_edge(a, b)
                            && !reached@.contains(a) implies stack@.contains(a) by {
                        if a != top {
                            assert(stack_mid.contains(a));
                        } else {
                            assert(reached@.contains(top));
                        }
                    }
                }
            }
        }
        proof {
            assert(stack@.len() == 0);
            assert forall|k: int| 0 <= k < exit_nodes@.len() implies reached@.contains(
                #[trigger] exit_nodes@[k],
            ) by {
                assert(!stack@.contains(exit_nodes@[k]));
            }
            assert forall|b: NodeId, a: NodeId|
                #[trigger] reached@.contains(b) && #[trigger] g.dep_edge(a, b) implies
                reached@.contains(a) by {
                assert(!stack@.contains(a));
            }
        }
        // phase two: repeatedly append a reached node whose dependencies are
        // all already listed
        let total = reached.len();
        let mut result: Vec<NodeId> = Vec::new();
        while result.len() < total
            invariant
                g.wf(),
                g.spec_acyclic(),
                total == reached@.len(),
                forall|x: NodeId| #[trigger] reached@.contains(x) ==> g.has_node(x),
                forall|i: int, j: int| 0 <= i < j < reached@.len() ==> reached@[i] != reached@[j],
                forall|k: int|
                    0 <= k < exit_nodes@.len() ==> reached@.contains(#[trigger] exit_nodes@[k]),
                forall|b: NodeId, a: NodeId|
                    #[trigger] reached@.contains(b) && #[trigger] g.dep_edge(a, b)
                        ==> reached@.contains(a),
                result@.len() <= total,
                forall|i: int, j: int| 0 <= i < j < result@.len() ==> result@[i] != result@[j],
                forall|x: NodeId| #[trigger] result@.contains(x) ==> reached@.contains(x),
                forall|b: NodeId, a: NodeId|
                    #[trigger] result@.contains(b) && #[trigger] g.dep_edge(a, b)
                        ==> result@.contains(a),
                forall|i: int, j: int|
                    #![trigger result@[i], result@[j]]
                    0 <= i < result@.len() && 0 <= j < result@.len() && g.dep_edge(
                        result@[j],
                        result@[i],
                    ) ==> j < i,
            decreases total - result@.len(),
        {
            let mut found: Option<NodeId> = None;
            let mut idx: usize = 0;
            while idx < total
                invariant
                    g.wf(),
                    total == reached@.len(),
                    forall|x: NodeId| #[trigger] reached@.contains(x) ==> g.has_node(x),
                    0 <= idx <= total,
                    match found {
                        Some(n) => {
                            &&& reached@.contains(n)
                            &&& !result@.contains(n)
                            &&& forall|a: NodeId| #[trigger] g.dep_edge(a, n) ==> result@.contains(
                                a,
                            )
                        },
                        None => forall|k: int|
                            0 <= k < idx ==> (result@.contains(#[trigger] reached@[k]) || (
                            exists|a: NodeId|
                                g.dep_edge(a, reached@[k]) && !result@.contains(a))),
                    },
                decreases total - idx,
            {
                let n = reached[idx];
                proof {
                    assert(reached@.contains(n));
                }
                if !vec_contains_node(&result, n) {
                    let deps = g.get_direct_dependencies(n);
                    let n_deps = deps.len();
                    let mut all_in: bool = true;
                    let mut d: usize = 0;
                    while d < n_deps
                        invariant
                            n_deps == deps@.len(),
                            0 <= d <= n_deps,
                            all_in ==> forall|k: int|
                                0 <= k < d ==> result@.contains(#[trigger] deps@[k]),
                            !all_in ==> exists|a: NodeId|
                                deps@.contains(a) && !result@.contains(a),
                        decreases n_deps - d,
                    {
                        if !vec_contains_node(&result, deps[d]) {
                            proof {
                                assert(deps@.contains(deps@[d as int]));
                            }
                            all_in = false;
                        }
                        d += 1;
                    }
                    if all_in {
                        proof {
                            assert forall|a: NodeId| #[trigger] g.dep_edge(a, n) implies
                                result@.contains(a) by {
                                assert(deps@.contains(a));
                                let w = choose|w: int|
                                    0 <= w < deps@.len() && deps@[w] == a;
                                assert(result@.contains(deps@[w]));
                            }
                        }
                        found = Some(n);
                        idx = total;
                    } else {
                        proof {
                            let a = choose|a: NodeId|
                                deps@.contains(a) && !result@.contains(a);
                            assert(g.dep_edge(a, n));
                        }
                        idx += 1;
                    }
                } else {
                    idx += 1;
                }
            }
            match found {
                Some(n) => {
                    let ghost result_pre = result@;
                    result.push(n);
                    proof {
                        assert forall|i: int, j: int|
                            0 <= i < j < result@.len() implies result@[i] != result@[j] by {
                            if j == result@.len() - 1 {
                                assert(result@[i] == result_pre[i]);
                                assert(result_pre.contains(result_pre[i]));
                            }
                        }
                        assert forall|x: NodeId| #[trigger] result@.contains(x) implies
                            reached@.contains(x) by {
                            lemma_seq_push_contains(result_pre, n, x);
                        }
                        assert forall|b: NodeId, a: NodeId|
                            #[trigger] result@.contains(b) && #[trigger] g.dep_edge(a, b) implies
                            result@.contains(a) by {
                            lemma_seq_push_contains(result_pre, n, b);
                            lemma_seq_push_contains(result_pre, n, a);
                            if b != n {
                                assert(result_pre.contains(b));
                                assert(result_pre.contains(a));
                            } else {
                                assert(result_pre.contains(a));
                            }
                        }
                        assert forall|i: int, j: int|
                            #![trigger result@[i], result@[j]]
                            0 <= i < result@.len() && 0 <= j < result@.len() && g.dep_edge(
                                result@[j],
                                result@[i],
                            ) implies j < i by {
                            if i == result@.len() - 1 && j == result@.len() - 1 {
                                assert(result@[i] == n);
                                g.lemma_dep_edge_irreflexive(n);
                            } else if i == result@.len() - 1 {
                            } else if j == result@.len() - 1 {
                                assert(result@[i] == result_pre[i]);
                                assert(result@[j] == n);
                                assert(result_pre.contains(result_pre[i]));
                                assert(result_pre.contains(n));
                            }
                        }
                    }
                },
                None => {
                    proof {
                        broadcast use vstd::seq_lib::seq_to_set_is_finite;
                        broadcast use vstd::set::group_set_axioms;

                        let result_s = result@.to_set();
                        let reached_s = reached@.to_set();
                        assert(result@.no_duplicates());
                        assert(reached@.no_duplicates());
                        result@.unique_seq_to_set();
                        reached@.unique_seq_to_set();
                        let s = reached_s.difference(result_s);
                        assert(s.finite());
                        if s.len() == 0 {
                            s.lemma_len0_is_empty();
                            assert forall|x: NodeId| reached_s.contains(x) implies
                                result_s.contains(x) by {
                                assert(!s.contains(x));
                            }
                            assert(reached_s.subset_of(result_s));
                            vstd::set_lib::lemma_len_subset(reached_s, result_s);
                            assert(false);
                        }
                        assert forall|x: NodeId| s.contains(x) implies g.has_node(x) by {
                            assert(reached@.contains(x));
                        }
                        assert(s.len() > 0);
                        let n = choose|n: NodeId|
                            s.contains(n) && (forall|a: NodeId|
                                g.dep_edge(a, n) ==> !s.contains(a));
                        assert(reached@.contains(n));
                        let w = choose|w: int| 0 <= w < reached@.len() && reached@[w] == n;
                        assert(!result@.contains(n));
                        assert(result@.contains(reached@[w]) || (exists|a: NodeId|
                            g.dep_edge(a, reached@[w]) && !result@.contains(a)));
                        let a = choose|a: NodeId| g.dep_edge(a, n) && !result@.contains(a);
                        assert(reached@.contains(a));
                        assert(s.contains(a));
                        assert(false);
                    }
                },
            }
        }
        proof {
            broadcast use vstd::seq_lib::seq_to_set_is_finite;
            broadcast use vstd::set::group_set_axioms;

            let result_s = result@.to_set();
            let reached_s = reached@.to_set();
            assert(result@.no_duplicates());
            assert(reached@.no_duplicates());
            result@.unique_seq_to_set();
            reached@.unique_seq_to_set();
            assert forall|x: NodeId| result_s.contains(x) implies reached_s.contains(x) by {
                assert(result@.contains(x));
                assert(reached@.contains(x));
            }
            assert(result_s.subset_of(reached_s));
            assert forall|x: NodeId| #[trigger] reached@.contains(x) implies result@.contains(
                x,
            ) by {
                if !result@.contains(x) {
                    assert(reached_s.contains(x));
                    assert(!result_s.contains(x));
                    result_s.lemma_subset_not_in_lt(reached_s, x);
                    assert(false);
                }
            }
            assert forall|i: int| 0 <= i < result@.len() implies g.has_node(
                #[trigger] result@[i],
            ) by {
                assert(result@.contains(result@[i]));
                assert(reached@.contains(result@[i]));
            }
            assert forall|i: int, a: NodeId|
                #![trigger g.dep_edge(a, result@[i])]
                0 <= i < result@.len() && g.dep_edge(a, result@[i]) implies result@.contains(
                a,
            ) by {
                assert(result@.contains(result@[i]));
            }
        }
        result
    }

    /// As `generate_execution_path`, with the exit set computed by
    /// `catagorize_nodes`.
    pub fn generate_complete_execution_path(&self) -> (r: Vec<NodeId>)
        requires
            self.spec_graph().wf(),
            self.spec_graph().spec_acyclic(),
        ensures
            ({
                let g = self.spec_graph();
                &&& forall|i: int| 0 <= i < r@.len() ==> g.has_node(#[trigger] r@[i])
                &&& forall|i: int, j: int| 0 <= i < j < r@.len() ==> r@[i] != r@[j]
                &&& forall|i: int, j: int|
                    #![trigger r@[i], r@[j]]
                    0 <= i < r@.len() && 0 <= j < r@.len() && g.dep_edge(r@[j], r@[i]) ==> j < i
                &&& forall|n: NodeId|
                    g.has_node(n) && g.node_has_incoming(n) && !g.node_has_outgoing(n)
                        ==> r@.contains(n)
                &&& forall|i: int, a: NodeId|
                    #![trigger g.dep_edge(a, r@[i])]
                    0 <= i < r@.len() && g.dep_edge(a, r@[i]) ==> r@.contains(a)
            }),
    {
        let categories = self.catagorize_nodes();
        proof {
            assert forall|k: int|
                0 <= k < categories.exit@.len() implies self.spec_graph().has_node(
                #[trigger] categories.exit@[k],
            ) by {
                assert(categories.exit@.contains(categories.exit@[k]));
            }
        }
        let r = self.generate_execution_path(&categories.exit);
        proof {
            let g = self.spec_graph();
            assert forall|n: NodeId|
                g.has_node(n) && g.node_has_incoming(n) && !g.node_has_outgoing(n) implies
                r@.contains(n) by {
                assert(categories.exit@.contains(n));
                let w = choose|w: int|
                    0 <= w < categories.exit@.len() && categories.exit@[w] == n;
                assert(r@.contains(categories.exit@[w]));
            }
        }
        r
    }
}

/// Linear membership test.
fn vec_contains_node(v: &Vec<NodeId>, x: NodeId) -> (r: bool)
    ensures
        r == v@.contains(x),
{
    let n = v.len();
    let mut i: usize = 0;
    while i < n
        invariant
            n == v@.len(),
            0 <= i <= n,
            forall|k: int| 0 <= k < i ==> v@[k] != x,
        decreases n - i,
    {
        if v[i] == x {
            return true;
        }
        i += 1;
    }
    false
}

} // verus!
