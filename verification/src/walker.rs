//! The evaluation walker: sequential execution of nodes along an execution
//! path, threading a per-port output cache, and a scoped read/write context
//! handed to each node's evaluation.

use vstd::prelude::*;

use crate::analyzer::GraphAnalyzer;
use crate::reference::{InputPortReference, OutputPortReference, PortIdentifier};
use crate::{
    lemma_structure_eq_trans, structure_eq, ConnectionId, DataValue, Graph, InputPortId, Node,
    NodeId, OutputPortId,
};

verus! {

/// First cache entry for this port, scanning in insertion order.
pub open spec fn spec_cache_lookup<V>(entries: Seq<(OutputPortId, V)>, key: OutputPortId) -> Option<
    V,
>
    decreases entries.len(),
{
    if entries.len() == 0 {
        None
    } else if entries[0].0 == key {
        Some(entries[0].1)
    } else {
        spec_cache_lookup(entries.drop_first(), key)
    }
}

/// A mapping from output ports to their last computed values.
pub struct OutputCache<V> {
    entries: Vec<(OutputPortId, V)>,
}

/// Replacing the first entry holding `key` changes the lookup of `key` alone.
proof fn lemma_cache_lookup_update<V>(
    entries: Seq<(OutputPortId, V)>,
    i: int,
    key: OutputPortId,
    value: V,
)
    requires
        0 <= i < entries.len(),
        entries[i].0 == key,
        forall|j: int| 0 <= j < i ==> (#[trigger] entries[j]).0 != key,
    ensures
        forall|q: OutputPortId|
            #![trigger spec_cache_lookup(entries.update(i, (key, value)), q)]
            spec_cache_lookup(entries.update(i, (key, value)), q) == if q == key {
                Some(value)
            } else {
                spec_cache_lookup(entries, q)
            },
    decreases entries.len(),
{
    reveal_with_fuel(spec_cache_lookup, 3);
    let updated = entries.update(i, (key, value));
    assert forall|q: OutputPortId|
        #![trigger spec_cache_lookup(updated, q)]
        spec_cache_lookup(updated, q) == (if q == key {
            Some(value)
        } else {
            spec_cache_lookup(entries, q)
        }) by {
        if i == 0 {
            assert(updated[0] == (key, value));
            assert(updated.drop_first() =~= entries.drop_first());
            assert(entries[0].0 == key);
        } else {
            assert(updated[0] == entries[0]);
            assert(updated.drop_first() =~= entries.drop_first().update(i - 1, (key, value)));
            assert forall|j: int| 0 <= j < i - 1 implies (#[trigger] entries.drop_first()[j]).0
                != key by {
                assert(entries.drop_first()[j] == entries[j + 1]);
            }
            assert(entries.drop_first()[i - 1] == entries[i]);
            lemma_cache_lookup_update(entries.drop_first(), i - 1, key, value);
            assert(spec_cache_lookup(entries.drop_first().update(i - 1, (key, value)), q) == (
            if q == key {
                Some(value)
            } else {
                spec_cache_lookup(entries.drop_first(), q)
            }));
            assert(entries[0].0 != key);
        }
    }
}

/// Appending an entry for an unlisted key changes the lookup of that key
/// alone.
proof fn lemma_cache_lookup_push<V>(entries: Seq<(OutputPortId, V)>, key: OutputPortId, value: V)
    requires
        forall|j: int| 0 <= j < entries.len() ==> (#[trigger] entries[j]).0 != key,
    ensures
        forall|q: OutputPortId|
            #![trigger spec_cache_lookup(entries.push((key, value)), q)]
            spec_cache_lookup(entries.push((key, value)), q) == if q == key {
                Some(value)
            } else {
                spec_cache_lookup(entries, q)
            },
    decreases entries.len(),
{
    reveal_with_fuel(spec_cache_lookup, 3);
    let pushed = entries.push((key, value));
    assert forall|q: OutputPortId|
        #![trigger spec_cache_lookup(pushed, q)]
        spec_cache_lookup(pushed, q) == (if q == key {
            Some(value)
        } else {
            spec_cache_lookup(entries, q)
        }) by {
        if entries.len() == 0 {
            assert(pushed[0] == (key, value));
            assert(pushed.drop_first() =~= Seq::<(OutputPortId, V)>::empty());
        } else {
            assert(pushed[0] == entries[0]);
            assert(pushed.drop_first() =~= entries.drop_first().push((key, value)));
            assert forall|j: int|
                0 <= j < entries.drop_first().len() implies (#[trigger] entries.drop_first()[j]).0
                != key by {
                assert(entries.drop_first()[j] == entries[j + 1]);
            }
            lemma_cache_lookup_push(entries.drop_first(), key, value);
            assert(spec_cache_lookup(entries.drop_first().push((key, value)), q) == (if q == key {
                Some(value)
            } else {
                spec_cache_lookup(entries.drop_first(), q)
            }));
            assert(entries[0].0 != key);
        }
    }
}

impl<V> OutputCache<V> {
    /// The last value stored for this output port, if any.
    pub closed spec fn spec_get(self, key: OutputPortId) -> Option<V> {
        spec_cache_lookup(self.entries@, key)
    }

    /// The empty cache.
    pub fn new() -> (r: Self)
        ensures
            forall|q: OutputPortId| #[trigger] r.spec_get(q) is None,
    {
        OutputCache { entries: Vec::new() }
    }

    /// Read the cached value for an output port.
    pub fn get(&self, key: OutputPortId) -> (r: Option<&V>)
        ensures
            match r {
                Some(v) => self.spec_get(key) == Some(*v),
                None => self.spec_get(key) is None,
            },
    {
        let n = self.entries.len();
        proof {
            assert(self.entries@.skip(0) =~= self.entries@);
        }
        let mut i: usize = 0;
        while i < n
            invariant
                n == self.entries@.len(),
                0 <= i <= n,
                forall|j: int| 0 <= j < i ==> (#[trigger] self.entries@[j]).0 != key,
                spec_cache_lookup(self.entries@, key) == spec_cache_lookup(
                    self.entries@.skip(i as int),
                    key,
                ),
            decreases n - i,
        {
            proof {
                assert(self.entries@.skip(i as int)[0] == self.entries@[i as int]);
                assert(self.entries@.skip(i as int).drop_first() =~= self.entries@.skip(
                    i as int + 1,
                ));
            }
            if self.entries[i].0 == key {
                return Some(&self.entries[i].1);
            }
            i += 1;
        }
        proof {
            assert(self.entries@.skip(n as int) =~= Seq::<(OutputPortId, V)>::empty());
        }
        None
    }

    /// Store a value for an output port, replacing any previous one.
    pub fn insert(&mut self, key: OutputPortId, value: V)
        ensures
            final(self).spec_get(key) == Some(value),
            forall|q: OutputPortId|
                q != key ==> #[trigger] final(self).spec_get(q) == old(self).spec_get(q),
    {
        let n = self.entries.len();
        let mut i: usize = 0;
        while i < n
            invariant
                n == self.entries@.len(),
                0 <= i <= n,
                self.entries@ == old(self).entries@,
                forall|j: int| 0 <= j < i ==> (#[trigger] self.entries@[j]).0 != key,
            decreases n - i,
        {
            if self.entries[i].0 == key {
                let slot = &mut self.entries[i];
                *slot = (key, value);
                proof {
                    lemma_cache_lookup_update(old(self).entries@, i as int, key, value);
                    assert(self.entries@ == old(self).entries@.update(i as int, (key, value)));
                }
                return ;
            }
            i += 1;
        }
        self.entries.push((key, value));
        proof {
            lemma_cache_lookup_push(old(self).entries@, key, value);
            assert(self.entries@ == old(self).entries@.push((key, value)));
        }
    }
}

/// The values cached for the producers behind these connections, in
/// connection order.
pub open spec fn spec_cached_values<N: Node>(
    g: Graph<N>,
    cache: OutputCache<N::DataValue>,
    conns: Seq<ConnectionId>,
) -> Seq<N::DataValue>
    decreases conns.len(),
{
    if conns.len() == 0 {
        Seq::empty()
    } else {
        let rest = spec_cached_values(g, cache, conns.drop_last());
        match cache.spec_get(g.connection(conns.last()).start_port) {
            Some(v) => rest.push(v),
            None => rest,
        }
    }
}

/// The first cached value among these connections' producers, in connection
/// order.
pub open spec fn spec_first_cached<N: Node>(
    g: Graph<N>,
    cache: OutputCache<N::DataValue>,
    conns: Seq<ConnectionId>,
) -> Option<N::DataValue>
    decreases conns.len(),
{
    if conns.len() == 0 {
        None
    } else {
        match cache.spec_get(g.connection(conns[0]).start_port) {
            Some(v) => Some(v),
            None => spec_first_cached(g, cache, conns.drop_first()),
        }
    }
}

/// The scoped interaction surface handed to a node while it is evaluated:
/// reads resolve against the node's own input ports, writes go to the
/// node's own output ports through the shared cache.
pub struct GraphWalkContext<N: Node> {
    node: NodeId,
    cache: OutputCache<N::DataValue>,
}

impl<N: Node> GraphWalkContext<N> {
    /// The node this context is scoped to.
    pub closed spec fn spec_node(self) -> NodeId {
        self.node
    }

    /// The cache as this context sees it.
    pub closed spec fn spec_cache(self) -> OutputCache<N::DataValue> {
        self.cache
    }

    /// What resolving an identifier against this node's inputs yields.
    pub open spec fn spec_resolve_input(self, g: Graph<N>, input: PortIdentifier) -> Option<
        InputPortId,
    > {
        InputPortReference::spec_resolve(input.spec_as_input(self.spec_node()), g)
    }

    /// What resolving an identifier against this node's outputs yields.
    pub open spec fn spec_resolve_output(self, g: Graph<N>, output: PortIdentifier) -> Option<
        OutputPortId,
    > {
        OutputPortReference::spec_resolve(output.spec_as_output(self.spec_node()), g)
    }

    /// What `get` returns, under the strict fan-in policy: a connected port
    /// yields the first cached value among its incoming connections, in
    /// connection order, and a connected port with no cached value at all is
    /// a fatal condition (its producers should have run earlier on a correct
    /// path); only a port with no incoming connection falls back to its
    /// default.
    pub open spec fn spec_get_result(self, g: Graph<N>, p: InputPortId) -> Option<N::DataValue> {
        if g.input_port(p).incoming_connections@.len() > 0 {
            spec_first_cached(g, self.spec_cache(), g.input_port(p).incoming_connections@)
        } else {
            g.input_port(p).default
        }
    }

    pub fn new(node: NodeId, cache: OutputCache<N::DataValue>) -> (r: Self)
        ensures
            r.spec_node() == node,
            r.spec_cache() == cache,
    {
        GraphWalkContext { node, cache }
    }

    /// Give the cache back, ending this node's turn.
    pub fn into_cache(self) -> (r: OutputCache<N::DataValue>)
        ensures
            r == self.spec_cache(),
    {
        self.cache
    }

    /// The computed value arriving at an input port: the first cached value
    /// among its incoming connections, or the port's default when the port
    /// has no incoming connection at all. The policy is strict: a connected
    /// port none of whose producers has cached a value is a fatal condition,
    /// as is a disconnected port without a default. The caller must know
    /// neither holds; `try_get` checks instead of failing.
    pub fn get(&self, graph: &Graph<N>, input: &PortIdentifier) -> (r: N::DataValue)
        requires
            graph.wf(),
            self.spec_resolve_input(*graph, *input) is Some,
            graph.has_input_port(self.spec_resolve_input(*graph, *input)->Some_0),
            self.spec_get_result(*graph, self.spec_resolve_input(*graph, *input)->Some_0)
                is Some,
        ensures
            Some(r) == self.spec_get_result(
                *graph,
                self.spec_resolve_input(*graph, *input)->Some_0,
            ),
    {
        match self.try_get(graph, input) {
            Some(v) => v,
            None => { proof { assert(false); } unreached() },
        }
    }

    /// As `get`, returning `None` instead of failing when the identifier
    /// does not resolve to a live input port, when a connected port has no
    /// cached incoming value, or when a disconnected port has no default.
    pub fn try_get(&self, graph: &Graph<N>, input: &PortIdentifier) -> (r: Option<N::DataValue>)
        requires
            graph.wf(),
        ensures
            r == ({
                let resolved = self.spec_resolve_input(*graph, *input);
                if resolved is Some && graph.has_input_port(resolved->Some_0) {
                    self.spec_get_result(*graph, resolved->Some_0)
                } else {
                    None::<N::DataValue>
                }
            }),
    {
        let reference = input.as_input(self.node);
        let p = match reference.resolve(graph) {
            Some(p) => p,
            None => {
                return None;
            },
        };
        let port = match graph.get_input_port_info(p) {
            Some(port) => port,
            None => {
                return None;
            },
        };
        let ghost conns = graph.input_port(p).incoming_connections@;
        let n = port.incoming_connections.len();
        proof {
            assert(conns.skip(0) =~= conns);
        }
        let mut j: usize = 0;
        while j < n
            invariant
                graph.wf(),
                self.spec_resolve_input(*graph, *input) == Some(p),
                graph.has_input_port(p),
                port == graph.input_port(p),
                conns == port.incoming_connections@,
                n == conns.len(),
                0 <= j <= n,
                spec_first_cached(*graph, self.spec_cache(), conns) == spec_first_cached(
                    *graph,
                    self.spec_cache(),
                    conns.skip(j as int),
                ),
            decreases n - j,
        {
            proof {
                assert(conns.skip(j as int)[0] == conns[j as int]);
                assert(conns.skip(j as int).drop_first() =~= conns.skip(j as int + 1));
                assert(graph.has_connection(conns[j as int]));
            }
            let c = port.incoming_connections[j];
            let conn = match graph.get_connection(c) {
                Some(x) => x,
                None => { proof { assert(false); } unreached() },
            };
            match self.cache.get(conn.start_port) {
                Some(v) => {
                    proof {
                        assert(self.spec_cache().spec_get(
                            graph.connection(conns[j as int]).start_port,
                        ) == Some(*v));
                        assert(spec_first_cached(
                            *graph,
                            self.spec_cache(),
                            conns.skip(j as int),
                        ) == Some(*v));
                        assert(spec_first_cached(*graph, self.spec_cache(), conns) == Some(*v));
                    }
                    return Some(v.duplicate());
                },
                None => (),
            }
            j += 1;
        }
        proof {
            assert(conns.skip(n as int) =~= Seq::<ConnectionId>::empty());
        }
        if n > 0 {
            // strict policy: connected, but no producer has cached a value
            return None;
        }
        match &port.default {
            Some(d) => Some(d.duplicate()),
            None => None,
        }
    }

    /// Every cached value arriving at an input port, in connection-list
    /// order, for nodes that aggregate fan-in themselves.
    pub fn get_all(&self, graph: &Graph<N>, input: &PortIdentifier) -> (r: Vec<N::DataValue>)
        requires
            graph.wf(),
            self.spec_resolve_input(*graph, *input) is Some,
            graph.has_input_port(self.spec_resolve_input(*graph, *input)->Some_0),
        ensures
            r@ == spec_cached_values(
                *graph,
                self.spec_cache(),
                graph.input_port(
                    self.spec_resolve_input(*graph, *input)->Some_0,
                ).incoming_connections@,
            ),
    {
        let reference = input.as_input(self.node);
        let p = match reference.resolve(graph) {
            Some(p) => p,
            None => { proof { assert(false); } unreached() },
        };
        let port = match graph.get_input_port_info(p) {
            Some(port) => port,
            None => { proof { assert(false); } unreached() },
        };
        let ghost conns = graph.input_port(p).incoming_connections@;
        let n = port.incoming_connections.len();
        proof {
            assert(conns.take(0) =~= Seq::<ConnectionId>::empty());
        }
        let mut r: Vec<N::DataValue> = Vec::new();
        let mut j: usize = 0;
        while j < n
            invariant
                graph.wf(),
                self.spec_resolve_input(*graph, *input) == Some(p),
                graph.has_input_port(p),
                port == graph.input_port(p),
                conns == port.incoming_connections@,
                n == conns.len(),
                0 <= j <= n,
                r@ == spec_cached_values(*graph, self.spec_cache(), conns.take(j as int)),
            decreases n - j,
        {
            proof {
                assert(conns.take(j as int + 1).drop_last() =~= conns.take(j as int));
                assert(conns.take(j as int + 1).last() == conns[j as int]);
                assert(graph.has_connection(conns[j as int]));
            }
            let c = port.incoming_connections[j];
            let conn = match graph.get_connection(c) {
                Some(x) => x,
                None => { proof { assert(false); } unreached() },
            };
            match self.cache.get(conn.start_port) {
                Some(v) => {
                    r.push(v.duplicate());
                },
                None => (),
            }
            j += 1;
        }
        proof {
            assert(conns.take(n as int) =~= conns);
        }
        r
    }

    /// Store the value an output port produced into the cache. Overwriting a
    /// value cached earlier in the same walk is allowed; the newest value
    /// wins.
    pub fn set(&mut self, graph: &Graph<N>, output: &PortIdentifier, value: N::DataValue)
        requires
            graph.wf(),
            old(self).spec_resolve_output(*graph, *output) is Some,
        ensures
            final(self).spec_node() == old(self).spec_node(),
            final(self).spec_cache().spec_get(
                old(self).spec_resolve_output(*graph, *output)->Some_0,
            ) == Some(value),
            forall|q: OutputPortId|
                q != old(self).spec_resolve_output(*graph, *output)->Some_0
                    ==> #[trigger] final(self).spec_cache().spec_get(q) == old(
                    self,
                ).spec_cache().spec_get(q),
    {
        let reference = output.as_output(self.node);
        let p = match reference.resolve(graph) {
            Some(p) => p,
            None => { proof { assert(false); } unreached() },
        };
        self.cache.insert(p, value);
    }

    /// Whether the identifier resolves on this node's inputs.
    pub fn can_get(&self, graph: &Graph<N>, input: &PortIdentifier) -> (r: bool)
        ensures
            r == (self.spec_resolve_input(*graph, *input) is Some),
    {
        let reference = input.as_input(self.node);
        reference.resolve(graph).is_some()
    }

    /// Whether the identifier resolves on this node's outputs.
    pub fn can_set(&self, graph: &Graph<N>, output: &PortIdentifier) -> (r: bool)
        ensures
            r == (self.spec_resolve_output(*graph, *output) is Some),
    {
        let reference = output.as_output(self.node);
        reference.resolve(graph).is_some()
    }
}

/// The caller-supplied evaluation logic: invoked once per node along the
/// path, with exclusive access to the node's state and a context scoped to
/// that node.
pub trait NodeEvaluator<N: Node> {
    fn evaluate(&self, state: &mut N, graph: &Graph<N>, context: &mut GraphWalkContext<N>);
}

/// Drives sequential evaluation of a fixed node sequence, owning the output
/// cache between turns.
pub struct GraphWalker<N: Node> {
    path: Vec<NodeId>,
    output_cache: OutputCache<N::DataValue>,
}

impl<N: Node> GraphWalker<N> {
    /// The execution path this walker follows.
    pub closed spec fn spec_path(self) -> Seq<NodeId> {
        self.path@
    }

    /// The cache accumulated so far.
    pub closed spec fn spec_cache(self) -> OutputCache<N::DataValue> {
        self.output_cache
    }

    /// Build a walker over a freshly computed execution path: over the given
    /// exit nodes, or over all exit nodes when `exit_nodes` is `None`. The
    /// cache starts empty.
    pub fn new(graph: &Graph<N>, exit_nodes: Option<&Vec<NodeId>>) -> (r: Self)
        requires
            graph.wf(),
            graph.spec_acyclic(),
            match exit_nodes {
                Some(v) => forall|k: int|
                    0 <= k < v@.len() ==> graph.has_node(#[trigger] v@[k]),
                None => true,
            },
        ensures
            forall|i: int| 0 <= i < r.spec_path().len() ==> graph.has_node(#[trigger] r.spec_path()[i]),
            forall|i: int, j: int|
                0 <= i < j < r.spec_path().len() ==> r.spec_path()[i] != r.spec_path()[j],
            forall|i: int, j: int|
                #![trigger r.spec_path()[i], r.spec_path()[j]]
                0 <= i < r.spec_path().len() && 0 <= j < r.spec_path().len() && graph.dep_edge(
                    r.spec_path()[j],
                    r.spec_path()[i],
                ) ==> j < i,
            forall|i: int, a: NodeId|
                #![trigger graph.dep_edge(a, r.spec_path()[i])]
                0 <= i < r.spec_path().len() && graph.dep_edge(a, r.spec_path()[i])
                    ==> r.spec_path().contains(a),
            match exit_nodes {
                Some(v) => forall|k: int|
                    0 <= k < v@.len() ==> r.spec_path().contains(#[trigger] v@[k]),
                None => forall|n: NodeId|
                    graph.has_node(n) && graph.node_has_incoming(n) && !graph.node_has_outgoing(n)
                        ==> r.spec_path().contains(n),
            },
            forall|q: OutputPortId| #[trigger] r.spec_cache().spec_get(q) is None,
    {
        let analyzer = GraphAnalyzer::new(graph);
        let path = match exit_nodes {
            Some(exits) => analyzer.generate_execution_path(exits),
            None => analyzer.generate_complete_execution_path(),
        };
        GraphWalker { path, output_cache: OutputCache::new() }
    }

    /// Build a walker over a pre-computed path, optionally seeding it with a
    /// cache released by an earlier walker, for incremental re-evaluation.
    pub fn from_path(path: Vec<NodeId>, cache: Option<OutputCache<N::DataValue>>) -> (r: Self)
        ensures
            r.spec_path() == path@,
            match cache {
                Some(c) => r.spec_cache() == c,
                None => forall|q: OutputPortId| #[trigger] r.spec_cache().spec_get(q) is None,
            },
    {
        let output_cache = match cache {
            Some(c) => c,
            None => OutputCache::new(),
        };
        GraphWalker { path, output_cache }
    }

    /// The node sequence this walker evaluates, dependencies first.
    pub fn path(&self) -> (r: &Vec<NodeId>)
        ensures
            r@ == self.spec_path(),
    {
        &self.path
    }

    /// Hand the accumulated cache off, consuming the walker; a new walker
    /// built with `from_path` can pick it up.
    pub fn release_cache(self) -> (r: OutputCache<N::DataValue>)
        ensures
            r == self.spec_cache(),
    {
        self.output_cache
    }

    /// Begin a node's turn: move the cache into a context scoped to that
    /// node. `finish` gives the cache back.
    pub fn get(&mut self, node: NodeId) -> (r: GraphWalkContext<N>)
        ensures
            r.spec_node() == node,
            r.spec_cache() == old(self).spec_cache(),
            final(self).spec_path() == old(self).spec_path(),
    {
        let mut tmp = OutputCache::new();
        core::mem::swap(&mut tmp, &mut self.output_cache);
        GraphWalkContext::new(node, tmp)
    }

    /// End a node's turn: take the cache back from its context.
    pub fn finish(&mut self, context: GraphWalkContext<N>)
        ensures
            final(self).spec_cache() == context.spec_cache(),
            final(self).spec_path() == old(self).spec_path(),
    {
        self.output_cache = context.into_cache();
    }

    /// Evaluate every node along the path, in order: each node's state is
    /// checked out exclusively, the evaluator runs with a context scoped to
    /// that node, and the state is returned. The graph's structure is left
    /// exactly as it was; only node states and the cache change.
    pub fn walk<E: NodeEvaluator<N>>(&mut self, graph: &mut Graph<N>, evaluator: &E)
        requires
            old(graph).wf(),
            old(graph).states_present(),
            forall|i: int|
                0 <= i < old(self).spec_path().len() ==> old(graph).has_node(
                    #[trigger] old(self).spec_path()[i],
                ),
        ensures
            final(graph).wf(),
            final(graph).states_present(),
            structure_eq(*old(graph), *final(graph)),
            final(self).spec_path() == old(self).spec_path(),
    {
        let n = self.path.len();
        let mut k: usize = 0;
        while k < n
            invariant
                graph.wf(),
                graph.states_present(),
                structure_eq(*old(graph), *graph),
                self.path@ == old(self).spec_path(),
                n == self.path@.len(),
                0 <= k <= n,
                forall|i: int|
                    0 <= i < self.path@.len() ==> old(graph).has_node(#[trigger] self.path@[i]),
            decreases n - k,
        {
            let id = self.path[k];
            proof {
                assert(old(graph).has_node(id));
                assert(graph.has_node(id));
            }
            let ghost g_before = *graph;
            let mut state = graph.take_node_state(id);
            let ghost g_mid = *graph;
            let mut context = self.get(id);
            evaluator.evaluate(&mut state, graph, &mut context);
            self.finish(context);
            graph.put_node_state(id, state);
            proof {
                lemma_structure_eq_trans(g_before, g_mid, *graph);
                lemma_structure_eq_trans(*old(graph), g_before, *graph);
                assert forall|m: NodeId| #[trigger] graph.has_node(m) implies graph.node_state(m)
                    is Some by {
                    if m != id {
                        assert(g_before.has_node(m));
                        assert(g_mid.has_node(m));
                        assert(g_mid.node_state(m) == g_before.node_state(m));
                        assert(graph.node_state(m) == g_mid.node_state(m));
                    }
                }
            }
            k += 1;
        }
    }
}

} // verus!
