//! A node-graph engine: nodes with named, typed input and output ports,
//! connections carrying values from output ports to input ports, an analyzer
//! that orders nodes so that dependencies always come before dependents, and a
//! walker that evaluates nodes along such an order with a per-port value cache.
//!
//! The graph store is the sole owner of all structural state. Handles are
//! generation-tagged: a handle to a removed entity resolves to "not found",
//! never to an unrelated entity that reused its slot.

use vstd::prelude::*;

mod arena;
pub mod analyzer;
pub mod reference;
pub mod walker;

use crate::arena::Arena;
use crate::reference::{InputPortReference, OutputPortReference};
use itertools::Itertools;

verus! {

/// Generation-tagged handle of a node.
#[derive(Clone, Copy, PartialEq, Eq, Structural, Debug, Hash)]
pub struct NodeId {
    pub index: usize,
    pub generation: u64,
}

/// Generation-tagged handle of a connection.
#[derive(Clone, Copy, PartialEq, Eq, Structural, Debug, Hash)]
pub struct ConnectionId {
    pub index: usize,
    pub generation: u64,
}

/// Generation-tagged handle of an input port.
#[derive(Clone, Copy, PartialEq, Eq, Structural, Debug, Hash)]
pub struct InputPortId {
    pub index: usize,
    pub generation: u64,
}

/// Generation-tagged handle of an output port.
#[derive(Clone, Copy, PartialEq, Eq, Structural, Debug, Hash)]
pub struct OutputPortId {
    pub index: usize,
    pub generation: u64,
}

impl NodeId {
    /// Combine this node with a port identifier into an input reference.
    pub fn input(&self, identifier: crate::reference::PortIdentifier) -> (r:
        crate::reference::NodeInputDynamicReference)
        ensures
            r == identifier.spec_as_input(*self),
    {
        identifier.as_input(*self)
    }

    /// Combine this node with a port identifier into an output reference.
    pub fn output(&self, identifier: crate::reference::PortIdentifier) -> (r:
        crate::reference::NodeOutputDynamicReference)
        ensures
            r == identifier.spec_as_output(*self),
    {
        identifier.as_output(*self)
    }
}

/// The type-tag capability a caller's port type must satisfy: a conversion
/// relation, given as a specification together with an executable decision
/// procedure for it. Every connection attempt is gated on it.
pub trait DataType: Sized + Copy {
    /// The conversion relation between type tags.
    spec fn convertible_to(self, rhs: Self) -> bool;

    /// Decides `convertible_to`.
    fn can_convert_to(&self, rhs: Self) -> (r: bool)
        ensures
            r == self.convertible_to(rhs),
    ;
}

/// The trivial type tag: one type, always convertible to itself.
#[derive(Clone, Copy, PartialEq, Eq, Structural, Debug)]
pub struct Untyped;

impl DataType for Untyped {
    open spec fn convertible_to(self, rhs: Self) -> bool {
        true
    }

    fn can_convert_to(&self, rhs: Self) -> (r: bool) {
        true
    }
}

/// The value capability a caller's value type must satisfy: values carried on
/// ports and caches must be duplicable without loss.
pub trait DataValue: Sized {
    /// Produce a copy that is equal to the original.
    fn duplicate(&self) -> (r: Self)
        ensures
            r == *self,
    ;
}

impl DataValue for () {
    fn duplicate(&self) -> (r: Self) {
    }
}

impl DataValue for i64 {
    fn duplicate(&self) -> (r: Self) {
        *self
    }
}

impl DataValue for u64 {
    fn duplicate(&self) -> (r: Self) {
        *self
    }
}

/// The ordered port specifications a node declares at creation time.
pub struct InitialPorts<N: Node> {
    pub inputs: Vec<(String, N::DataType, N::DataValue)>,
    pub outputs: Vec<(String, N::DataType)>,
}

impl<N: Node> Default for InitialPorts<N> {
    fn default() -> (r: Self)
        ensures
            r.inputs@.len() == 0,
            r.outputs@.len() == 0,
    {
        InitialPorts { inputs: Vec::new(), outputs: Vec::new() }
    }
}

/// The capability a caller's node type must satisfy. The six lifecycle hooks
/// default to no-ops; the store invokes them synchronously during the
/// corresponding mutation, with exclusive access to the node's own state.
pub trait Node: Sized {
    type DataType: DataType;

    type DataValue: DataValue;

    /// The ports a node starts with, evaluated once at node creation.
    fn initial_ports(&self) -> InitialPorts<Self> {
        InitialPorts { inputs: Vec::new(), outputs: Vec::new() }
    }

    fn input_port_created(&mut self, name: &str, ty: Self::DataType, id: InputPortId) {
    }

    fn input_connection_added(&mut self, port: InputPortId, connection: ConnectionId) {
    }

    fn input_connection_removed(&mut self, port: InputPortId, connection: ConnectionId) {
    }

    fn output_port_created(&mut self, name: &str, ty: Self::DataType, id: OutputPortId) {
    }

    fn output_connection_added(&mut self, port: OutputPortId, connection: ConnectionId) {
    }

    fn output_connection_removed(&mut self, port: OutputPortId, connection: ConnectionId) {
    }
}

/// A directed edge from an output port to an input port.
#[derive(Clone, Copy)]
pub struct Connection {
    pub start_port: OutputPortId,
    pub end_port: InputPortId,
}

/// A port record: its owning node, display name, type tag, the optional
/// default value (input ports only), and the connections attached to it
/// (incoming for input ports, outgoing for output ports).
pub struct Port<N: Node> {
    pub node: NodeId,
    pub name: String,
    pub ty: N::DataType,
    pub default: Option<N::DataValue>,
    pub incoming_connections: Vec<ConnectionId>,
    pub outgoing_connections: Vec<ConnectionId>,
}

impl<N: Node> Port<N> {
    pub fn new(node: NodeId, name: String, ty: N::DataType, default: Option<N::DataValue>) -> (r:
        Self)
        ensures
            r.node == node,
            r.name == name,
            r.ty == ty,
            r.default == default,
            r.incoming_connections@.len() == 0,
            r.outgoing_connections@.len() == 0,
    {
        Port {
            node,
            name,
            ty,
            default,
            incoming_connections: Vec::new(),
            outgoing_connections: Vec::new(),
        }
    }
}

/// A node's ordered port directory: `(name, id)` pairs in insertion order.
/// Ordinal positions are stable for the life of the node; deleting a port
/// leaves its entry in place as a retired handle.
pub struct NodeData {
    pub inputs: Vec<(String, InputPortId)>,
    pub outputs: Vec<(String, OutputPortId)>,
}

struct NodeRecord<N: Node> {
    data: NodeData,
    state: Option<N>,
}

/// The graph store: sole owner of nodes, ports, and connections, with
/// bidirectional bookkeeping between ports and connections.
pub struct Graph<N: Node> {
    node_data: Arena<NodeRecord<N>>,
    connections: Arena<Connection>,
    input_ports: Arena<Port<N>>,
    output_ports: Arena<Port<N>>,
}

impl<N: Node> Graph<N> {
    /// The handle names a node of this graph.
    pub closed spec fn has_node(self, n: NodeId) -> bool {
        self.node_data.live(n.index as int, n.generation)
    }

    spec fn node_rec(self, n: NodeId) -> NodeRecord<N> {
        self.node_data.value_at(n.index as int)
    }

    /// The node's ordered input directory.
    pub closed spec fn node_inputs(self, n: NodeId) -> Seq<(String, InputPortId)> {
        self.node_rec(n).data.inputs@
    }

    /// The node's ordered output directory.
    pub closed spec fn node_outputs(self, n: NodeId) -> Seq<(String, OutputPortId)> {
        self.node_rec(n).data.outputs@
    }

    /// The node's caller-supplied state, if it is not currently checked out.
    pub closed spec fn node_state(self, n: NodeId) -> Option<N> {
        self.node_rec(n).state
    }

    /// The handle names an input port of this graph.
    pub closed spec fn has_input_port(self, p: InputPortId) -> bool {
        self.input_ports.live(p.index as int, p.generation)
    }

    /// The input port a live handle names.
    pub closed spec fn input_port(self, p: InputPortId) -> Port<N> {
        self.input_ports.value_at(p.index as int)
    }

    /// The handle named an input port that has since been removed.
    pub closed spec fn input_port_retired(self, p: InputPortId) -> bool {
        self.input_ports.retired(p.index as int, p.generation)
    }

    /// The handle names an output port of this graph.
    pub closed spec fn has_output_port(self, p: OutputPortId) -> bool {
        self.output_ports.live(p.index as int, p.generation)
    }

    /// The output port a live handle names.
    pub closed spec fn output_port(self, p: OutputPortId) -> Port<N> {
        self.output_ports.value_at(p.index as int)
    }

    /// The handle named an output port that has since been removed.
    pub closed spec fn output_port_retired(self, p: OutputPortId) -> bool {
        self.output_ports.retired(p.index as int, p.generation)
    }

    /// The handle names a connection of this graph.
    pub closed spec fn has_connection(self, c: ConnectionId) -> bool {
        self.connections.live(c.index as int, c.generation)
    }

    /// The connection a live handle names.
    pub closed spec fn connection(self, c: ConnectionId) -> Connection {
        self.connections.value_at(c.index as int)
    }

    /// Every node holds its caller-supplied state (no state is checked out).
    pub closed spec fn states_present(self) -> bool {
        forall|n: NodeId| #[trigger] self.has_node(n) ==> self.node_state(n) is Some
    }

    spec fn wf_nodes(self) -> bool {
        forall|n: NodeId| #[trigger] self.has_node(n) ==> {
            &&& forall|k: int|
                0 <= k < self.node_inputs(n).len() ==> {
                    let e = #[trigger] self.node_inputs(n)[k];
                    &&& (self.has_input_port(e.1) || self.input_port_retired(e.1))
                    &&& self.has_input_port(e.1) ==> self.input_port(e.1).node == n
                        && self.input_port(e.1).name@ == e.0@
                }
            &&& forall|k: int|
                0 <= k < self.node_outputs(n).len() ==> {
                    let e = #[trigger] self.node_outputs(n)[k];
                    &&& (self.has_output_port(e.1) || self.output_port_retired(e.1))
                    &&& self.has_output_port(e.1) ==> self.output_port(e.1).node == n
                        && self.output_port(e.1).name@ == e.0@
                }
        }
    }

    spec fn wf_input_ports(self) -> bool {
        forall|p: InputPortId| #[trigger] self.has_input_port(p) ==> {
            let port = self.input_port(p);
            &&& self.has_node(port.node)
            &&& exists|k: int|
                0 <= k < self.node_inputs(port.node).len() && (#[trigger] self.node_inputs(
                    port.node,
                )[k]).1 == p
            &&& port.outgoing_connections@.len() == 0
            &&& forall|j: int|
                0 <= j < port.incoming_connections@.len() ==> self.has_connection(
                    #[trigger] port.incoming_connections@[j],
                ) && self.connection(port.incoming_connections@[j]).end_port == p
            &&& forall|j1: int, j2: int|
                0 <= j1 < j2 < port.incoming_connections@.len()
                    ==> #[trigger] port.incoming_connections@[j1]
                    != #[trigger] port.incoming_connections@[j2]
        }
    }

    spec fn wf_output_ports(self) -> bool {
        forall|p: OutputPortId| #[trigger] self.has_output_port(p) ==> {
            let port = self.output_port(p);
            &&& self.has_node(port.node)
            &&& exists|k: int|
                0 <= k < self.node_outputs(port.node).len() && (#[trigger] self.node_outputs(
                    port.node,
                )[k]).1 == p
            &&& port.incoming_connections@.len() == 0
            &&& forall|j: int|
                0 <= j < port.outgoing_connections@.len() ==> self.has_connection(
                    #[trigger] port.outgoing_connections@[j],
                ) && self.connection(port.outgoing_connections@[j]).start_port == p
            &&& forall|j1: int, j2: int|
                0 <= j1 < j2 < port.outgoing_connections@.len()
                    ==> #[trigger] port.outgoing_connections@[j1]
                    != #[trigger] port.outgoing_connections@[j2]
        }
    }

    spec fn wf_connections(self) -> bool {
        forall|c: ConnectionId| #[trigger] self.has_connection(c) ==> {
            let conn = self.connection(c);
            &&& self.has_output_port(conn.start_port)
            &&& self.has_input_port(conn.end_port)
            &&& self.output_port(conn.start_port).outgoing_connections@.contains(c)
            &&& self.input_port(conn.end_port).incoming_connections@.contains(c)
            &&& self.output_port(conn.start_port).node != self.input_port(conn.end_port).node
            &&& self.output_port(conn.start_port).ty.convertible_to(
                self.input_port(conn.end_port).ty,
            )
        }
    }

    /// Structural consistency of the store: ports belong to live nodes and are
    /// listed in their owner's directory; directory entries are live or
    /// retired, never dangling into a reused slot; a connection is listed in
    /// exactly the outgoing list of its start port and the incoming list of
    /// its end port, joins two distinct nodes, and joins convertible types.
    pub closed spec fn wf(self) -> bool {
        &&& self.node_data.wf()
        &&& self.connections.wf()
        &&& self.input_ports.wf()
        &&& self.output_ports.wf()
        &&& self.wf_nodes()
        &&& self.wf_input_ports()
        &&& self.wf_output_ports()
        &&& self.wf_connections()
    }

    /// `a` produces a value some connection carries into `b`.
    pub open spec fn dep_edge(self, a: NodeId, b: NodeId) -> bool {
        exists|c: ConnectionId|
            #![trigger self.connection(c)]
            {
                &&& self.has_connection(c)
                &&& self.output_port(self.connection(c).start_port).node == a
                &&& self.input_port(self.connection(c).end_port).node == b
            }
    }

    /// Under `wf`, no node depends on itself through a single connection.
    pub proof fn lemma_dep_edge_irreflexive(self, n: NodeId)
        requires
            self.wf(),
        ensures
            !self.dep_edge(n, n),
    {
    }

    /// At most one live node handle exists per slot.
    pub proof fn lemma_node_handle_unique(self, a: NodeId, b: NodeId)
        requires
            self.has_node(a),
            self.has_node(b),
            a.index == b.index,
        ensures
            a == b,
    {
    }

    /// A duplicate-free sequence of live node handles cannot be longer than
    /// the slot table.
    pub proof fn lemma_distinct_nodes_bounded(self, s: Seq<NodeId>)
        requires
            forall|i: int, j: int| 0 <= i < j < s.len() ==> s[i] != s[j],
            forall|x: NodeId| #[trigger] s.contains(x) ==> self.has_node(x),
        ensures
            s.len() <= self.node_index_bound(),
    {
        let idxs = s.map_values(|n: NodeId| n.index as int);
        assert forall|i: int, j: int| 0 <= i < j < idxs.len() implies idxs[i] != idxs[j] by {
            assert(s.contains(s[i]));
            assert(s.contains(s[j]));
            if s[i].index == s[j].index {
                self.lemma_node_handle_unique(s[i], s[j]);
            }
            assert(idxs[i] == s[i].index as int);
            assert(idxs[j] == s[j].index as int);
        }
        assert(idxs.no_duplicates());
        idxs.unique_seq_to_set();
        let bound = self.node_index_bound();
        let rng = vstd::set_lib::set_int_range(0, bound);
        vstd::set_lib::lemma_int_range(0, bound);
        assert forall|x: int| idxs.to_set().contains(x) implies rng.contains(x) by {
            assert(idxs.contains(x));
            let w = choose|w: int| 0 <= w < idxs.len() && idxs[w] == x;
            assert(s.contains(s[w]));
            assert(self.has_node(s[w]));
            assert(x == s[w].index as int);
        }
        assert(idxs.to_set().subset_of(rng));
        vstd::set_lib::lemma_len_subset(idxs.to_set(), rng);
    }

    /// The dependency relation is well-founded: every finite, nonempty set
    /// of nodes holds one whose dependencies all lie outside the set. A
    /// graph with a dependency cycle does not satisfy this.
    pub open spec fn spec_acyclic(self) -> bool {
        forall|s: Set<NodeId>|
            #![trigger s.len()]
            s.finite() && s.len() > 0 && (forall|n: NodeId| s.contains(n) ==> self.has_node(n))
                ==> exists|n: NodeId|
                s.contains(n) && (forall|a: NodeId| self.dep_edge(a, n) ==> !s.contains(a))
    }

    pub fn new() -> (r: Self)
        ensures
            r.wf(),
            r.states_present(),
            forall|n: NodeId| !r.has_node(n),
            forall|p: InputPortId| !r.has_input_port(p),
            forall|p: OutputPortId| !r.has_output_port(p),
            forall|c: ConnectionId| !r.has_connection(c),
    {
        Graph {
            node_data: Arena::new(),
            connections: Arena::new(),
            input_ports: Arena::new(),
            output_ports: Arena::new(),
        }
    }

    /// Read a node's caller-supplied state.
    pub fn get_node(&self, node: NodeId) -> (r: Option<&N>)
        ensures
            match r {
                Some(s) => self.has_node(node) && self.node_state(node) == Some(*s),
                None => !self.has_node(node) || self.node_state(node) is None,
            },
    {
        match self.node_data.get(node.index, node.generation) {
            Some(rec) => rec.state.as_ref(),
            None => None,
        }
    }

    /// Check a node's caller-supplied state out of the store for exclusive
    /// use; `put_node_state` returns it.
    pub fn take_node_state(&mut self, node: NodeId) -> (r: N)
        requires
            old(self).wf(),
            old(self).has_node(node),
            old(self).node_state(node) is Some,
        ensures
            final(self).wf(),
            Some(r) == old(self).node_state(node),
            final(self).node_state(node) is None,
            structure_eq(*old(self), *final(self)),
            forall|n: NodeId|
                old(self).has_node(n) && n != node ==> #[trigger] final(self).node_state(n)
                    == old(self).node_state(n),
    {
        let rec = self.node_data.borrow_mut(node.index, node.generation);
        let r = rec.state.take();
        proof {
            assert(structure_eq(*old(self), *self));
            lemma_wf_from_structure_eq(*old(self), *self);
        }
        match r {
            Some(s) => s,
            None => { proof { assert(false); } unreached() },
        }
    }

    /// Return a node's state to the store after exclusive use.
    pub fn put_node_state(&mut self, node: NodeId, state: N)
        requires
            old(self).wf(),
            old(self).has_node(node),
        ensures
            final(self).wf(),
            final(self).node_state(node) == Some(state),
            structure_eq(*old(self), *final(self)),
            forall|n: NodeId|
                old(self).has_node(n) && n != node ==> #[trigger] final(self).node_state(n)
                    == old(self).node_state(n),
    {
        let rec = self.node_data.borrow_mut(node.index, node.generation);
        rec.state = Some(state);
        proof {
            assert(structure_eq(*old(self), *self));
            lemma_wf_from_structure_eq(*old(self), *self);
        }
    }
}

/// First input directory entry at or after position `from` whose name is
/// `name`, scanning in insertion order.
pub open spec fn find_input_entry(
    entries: Seq<(String, InputPortId)>,
    name: Seq<char>,
    from: int,
) -> Option<InputPortId>
    decreases entries.len() - from,
{
    if from < 0 || from >= entries.len() {
        None
    } else if entries[from].0@ == name {
        Some(entries[from].1)
    } else {
        find_input_entry(entries, name, from + 1)
    }
}

/// First output directory entry at or after position `from` whose name is
/// `name`, scanning in insertion order.
pub open spec fn find_output_entry(
    entries: Seq<(String, OutputPortId)>,
    name: Seq<char>,
    from: int,
) -> Option<OutputPortId>
    decreases entries.len() - from,
{
    if from < 0 || from >= entries.len() {
        None
    } else if entries[from].0@ == name {
        Some(entries[from].1)
    } else {
        find_output_entry(entries, name, from + 1)
    }
}

impl<N: Node> Graph<N> {
    /// What looking an input port up by ordinal position yields.
    pub open spec fn spec_input_port_at(self, node: NodeId, index: int) -> Option<InputPortId> {
        if self.has_node(node) && 0 <= index < self.node_inputs(node).len() {
            Some(self.node_inputs(node)[index].1)
        } else {
            None
        }
    }

    /// What looking an output port up by ordinal position yields.
    pub open spec fn spec_output_port_at(self, node: NodeId, index: int) -> Option<OutputPortId> {
        if self.has_node(node) && 0 <= index < self.node_outputs(node).len() {
            Some(self.node_outputs(node)[index].1)
        } else {
            None
        }
    }

    /// What looking an input port up by name yields: the first entry with
    /// that name, in insertion order.
    pub open spec fn spec_input_port_named(self, node: NodeId, name: Seq<char>) -> Option<
        InputPortId,
    > {
        if self.has_node(node) {
            find_input_entry(self.node_inputs(node), name, 0)
        } else {
            None
        }
    }

    /// What looking an output port up by name yields.
    pub open spec fn spec_output_port_named(self, node: NodeId, name: Seq<char>) -> Option<
        OutputPortId,
    > {
        if self.has_node(node) {
            find_output_entry(self.node_outputs(node), name, 0)
        } else {
            None
        }
    }

    /// Look an input port up by name on a node; resolving the same name twice
    /// against an unmodified graph yields the same handle.
    pub fn get_input_port(&self, node: NodeId, name: &str) -> (r: Option<InputPortId>)
        ensures
            r == self.spec_input_port_named(node, name@),
    {
        let wanted = String::from_str(name);
        match self.node_data.get(node.index, node.generation) {
            None => None,
            Some(rec) => {
                let entries = &rec.data.inputs;
                let n = entries.len();
                let mut i: usize = 0;
                loop
                    invariant
                        self.has_node(node),
                        entries@ == self.node_inputs(node),
                        n == entries.len(),
                        0 <= i <= n,
                        wanted@ == name@,
                        find_input_entry(entries@, name@, 0) == find_input_entry(
                            entries@,
                            name@,
                            i as int,
                        ),
                    decreases n - i,
                {
                    if i >= n {
                        return None;
                    }
                    if entries[i].0 == wanted {
                        return Some(entries[i].1);
                    }
                    i += 1;
                }
            },
        }
    }

    /// Look an output port up by name on a node.
    pub fn get_output_port(&self, node: NodeId, name: &str) -> (r: Option<OutputPortId>)
        ensures
            r == self.spec_output_port_named(node, name@),
    {
        let wanted = String::from_str(name);
        match self.node_data.get(node.index, node.generation) {
            None => None,
            Some(rec) => {
                let entries = &rec.data.outputs;
                let n = entries.len();
                let mut i: usize = 0;
                loop
                    invariant
                        self.has_node(node),
                        entries@ == self.node_outputs(node),
                        n == entries.len(),
                        0 <= i <= n,
                        wanted@ == name@,
                        find_output_entry(entries@, name@, 0) == find_output_entry(
                            entries@,
                            name@,
                            i as int,
                        ),
                    decreases n - i,
                {
                    if i >= n {
                        return None;
                    }
                    if entries[i].0 == wanted {
                        return Some(entries[i].1);
                    }
                    i += 1;
                }
            },
        }
    }

    /// Look an input port up by ordinal position on a node. Positions are
    /// stable: deleting a port does not renumber the others.
    pub fn get_input_port_at(&self, node: NodeId, index: usize) -> (r: Option<InputPortId>)
        ensures
            r == self.spec_input_port_at(node, index as int),
    {
        match self.node_data.get(node.index, node.generation) {
            None => None,
            Some(rec) => {
                if index < rec.data.inputs.len() {
                    Some(rec.data.inputs[index].1)
                } else {
                    None
                }
            },
        }
    }

    /// Look an output port up by ordinal position on a node.
    pub fn get_output_port_at(&self, node: NodeId, index: usize) -> (r: Option<OutputPortId>)
        ensures
            r == self.spec_output_port_at(node, index as int),
    {
        match self.node_data.get(node.index, node.generation) {
            None => None,
            Some(rec) => {
                if index < rec.data.outputs.len() {
                    Some(rec.data.outputs[index].1)
                } else {
                    None
                }
            },
        }
    }

    /// A node's full ordered input directory.
    pub fn get_input_ports(&self, node: NodeId) -> (r: Option<&Vec<(String, InputPortId)>>)
        ensures
            match r {
                Some(v) => self.has_node(node) && v@ == self.node_inputs(node),
                None => !self.has_node(node),
            },
    {
        match self.node_data.get(node.index, node.generation) {
            None => None,
            Some(rec) => Some(&rec.data.inputs),
        }
    }

    /// A node's full ordered output directory.
    pub fn get_output_ports(&self, node: NodeId) -> (r: Option<&Vec<(String, OutputPortId)>>)
        ensures
            match r {
                Some(v) => self.has_node(node) && v@ == self.node_outputs(node),
                None => !self.has_node(node),
            },
    {
        match self.node_data.get(node.index, node.generation) {
            None => None,
            Some(rec) => Some(&rec.data.outputs),
        }
    }
}

impl<N: Node> Graph<N> {
    /// Hand a node exclusive access to its own state for one lifecycle hook.
    /// Only the node's state changes; all structure is untouched.
    fn with_state_input_port_created(
        &mut self,
        node: NodeId,
        name: &str,
        ty: N::DataType,
        id: InputPortId,
    )
        requires
            old(self).node_data.wf(),
            old(self).has_node(node),
        ensures
            final(self).node_data.wf(),
            final(self).connections == old(self).connections,
            final(self).input_ports == old(self).input_ports,
            final(self).output_ports == old(self).output_ports,
            forall|q: InputPortId|
                #![all_triggers]
                final(self).has_input_port(q) == old(self).has_input_port(q),
            forall|q: InputPortId|
                old(self).has_input_port(q) ==> #[trigger] final(self).input_port(q) == old(
                    self,
                ).input_port(q),
            forall|q: InputPortId|
                #![all_triggers]
                final(self).input_port_retired(q) == old(self).input_port_retired(q),
            forall|q: OutputPortId|
                #![all_triggers]
                final(self).has_output_port(q) == old(self).has_output_port(q),
            forall|q: OutputPortId|
                old(self).has_output_port(q) ==> #[trigger] final(self).output_port(q) == old(
                    self,
                ).output_port(q),
            forall|q: OutputPortId|
                #![all_triggers]
                final(self).output_port_retired(q) == old(self).output_port_retired(q),
            forall|c: ConnectionId|
                #![all_triggers]
                final(self).has_connection(c) == old(self).has_connection(c),
            forall|c: ConnectionId|
                old(self).has_connection(c) ==> #[trigger] final(self).connection(c) == old(
                    self,
                ).connection(c),
            forall|n: NodeId| #![all_triggers] final(self).has_node(n) == old(self).has_node(n),
            forall|n: NodeId|
                old(self).has_node(n) ==> #[trigger] final(self).node_inputs(n) == old(
                    self,
                ).node_inputs(n),
            forall|n: NodeId|
                old(self).has_node(n) ==> #[trigger] final(self).node_outputs(n) == old(
                    self,
                ).node_outputs(n),
            forall|n: NodeId|
                old(self).has_node(n) && n != node ==> #[trigger] final(self).node_state(n) == old(
                    self,
                ).node_state(n),
            old(self).node_state(node) is Some ==> final(self).node_state(node) is Some,
    {
        let rec = self.node_data.borrow_mut(node.index, node.generation);
        let st = rec.state.take();
        match st {
            Some(mut s) => {
                s.input_port_created(name, ty, id);
                let rec = self.node_data.borrow_mut(node.index, node.generation);
                rec.state = Some(s);
            },
            None => {
                let rec = self.node_data.borrow_mut(node.index, node.generation);
                rec.state = None;
            },
        }
    }

    /// As `with_state_input_port_created`, for the output-port hook.
    fn with_state_output_port_created(
        &mut self,
        node: NodeId,
        name: &str,
        ty: N::DataType,
        id: OutputPortId,
    )
        requires
            old(self).node_data.wf(),
            old(self).has_node(node),
        ensures
            final(self).node_data.wf(),
            final(self).connections == old(self).connections,
            final(self).input_ports == old(self).input_ports,
            final(self).output_ports == old(self).output_ports,
            forall|q: InputPortId|
                #![all_triggers]
                final(self).has_input_port(q) == old(self).has_input_port(q),
            forall|q: InputPortId|
                old(self).has_input_port(q) ==> #[trigger] final(self).input_port(q) == old(
                    self,
                ).input_port(q),
            forall|q: InputPortId|
                #![all_triggers]
                final(self).input_port_retired(q) == old(self).input_port_retired(q),
            forall|q: OutputPortId|
                #![all_triggers]
                final(self).has_output_port(q) == old(self).has_output_port(q),
            forall|q: OutputPortId|
                old(self).has_output_port(q) ==> #[trigger] final(self).output_port(q) == old(
                    self,
                ).output_port(q),
            forall|q: OutputPortId|
                #![all_triggers]
                final(self).output_port_retired(q) == old(self).output_port_retired(q),
            forall|c: ConnectionId|
                #![all_triggers]
                final(self).has_connection(c) == old(self).has_connection(c),
            forall|c: ConnectionId|
                old(self).has_connection(c) ==> #[trigger] final(self).connection(c) == old(
                    self,
                ).connection(c),
            forall|n: NodeId| #![all_triggers] final(self).has_node(n) == old(self).has_node(n),
            forall|n: NodeId|
                old(self).has_node(n) ==> #[trigger] final(self).node_inputs(n) == old(
                    self,
                ).node_inputs(n),
            forall|n: NodeId|
                old(self).has_node(n) ==> #[trigger] final(self).node_outputs(n) == old(
                    self,
                ).node_outputs(n),
            forall|n: NodeId|
                old(self).has_node(n) && n != node ==> #[trigger] final(self).node_state(n) == old(
                    self,
                ).node_state(n),
            old(self).node_state(node) is Some ==> final(self).node_state(node) is Some,
    {
        let rec = self.node_data.borrow_mut(node.index, node.generation);
        let st = rec.state.take();
        match st {
            Some(mut s) => {
                s.output_port_created(name, ty, id);
                let rec = self.node_data.borrow_mut(node.index, node.generation);
                rec.state = Some(s);
            },
            None => {
                let rec = self.node_data.borrow_mut(node.index, node.generation);
                rec.state = None;
            },
        }
    }

    /// As `with_state_input_port_created`, for the connection-added hooks.
    fn with_state_connection_added(
        &mut self,
        node: NodeId,
        input_side: Option<InputPortId>,
        output_side: Option<OutputPortId>,
        connection: ConnectionId,
    )
        requires
            old(self).node_data.wf(),
            old(self).has_node(node),
        ensures
            final(self).node_data.wf(),
            final(self).connections == old(self).connections,
            final(self).input_ports == old(self).input_ports,
            final(self).output_ports == old(self).output_ports,
            forall|q: InputPortId|
                #![all_triggers]
                final(self).has_input_port(q) == old(self).has_input_port(q),
            forall|q: InputPortId|
                old(self).has_input_port(q) ==> #[trigger] final(self).input_port(q) == old(
                    self,
                ).input_port(q),
            forall|q: InputPortId|
                #![all_triggers]
                final(self).input_port_retired(q) == old(self).input_port_retired(q),
            forall|q: OutputPortId|
                #![all_triggers]
                final(self).has_output_port(q) == old(self).has_output_port(q),
            forall|q: OutputPortId|
                old(self).has_output_port(q) ==> #[trigger] final(self).output_port(q) == old(
                    self,
                ).output_port(q),
            forall|q: OutputPortId|
                #![all_triggers]
                final(self).output_port_retired(q) == old(self).output_port_retired(q),
            forall|c: ConnectionId|
                #![all_triggers]
                final(self).has_connection(c) == old(self).has_connection(c),
            forall|c: ConnectionId|
                old(self).has_connection(c) ==> #[trigger] final(self).connection(c) == old(
                    self,
                ).connection(c),
            forall|n: NodeId| #![all_triggers] final(self).has_node(n) == old(self).has_node(n),
            forall|n: NodeId|
                old(self).has_node(n) ==> #[trigger] final(self).node_inputs(n) == old(
                    self,
                ).node_inputs(n),
            forall|n: NodeId|
                old(self).has_node(n) ==> #[trigger] final(self).node_outputs(n) == old(
                    self,
                ).node_outputs(n),
            forall|n: NodeId|
                old(self).has_node(n) && n != node ==> #[trigger] final(self).node_state(n) == old(
                    self,
                ).node_state(n),
            old(self).node_state(node) is Some ==> final(self).node_state(node) is Some,
    {
        let rec = self.node_data.borrow_mut(node.index, node.generation);
        let st = rec.state.take();
        match st {
            Some(mut s) => {
                match input_side {
                    Some(p) => s.input_connection_added(p, connection),
                    None => (),
                }
                match output_side {
                    Some(p) => s.output_connection_added(p, connection),
                    None => (),
                }
                let rec = self.node_data.borrow_mut(node.index, node.generation);
                rec.state = Some(s);
            },
            None => {
                let rec = self.node_data.borrow_mut(node.index, node.generation);
                rec.state = None;
            },
        }
    }

    /// As `with_state_input_port_created`, for the connection-removed hooks.
    fn with_state_connection_removed(
        &mut self,
        node: NodeId,
        input_side: Option<InputPortId>,
        output_side: Option<OutputPortId>,
        connection: ConnectionId,
    )
        requires
            old(self).node_data.wf(),
            old(self).has_node(node),
        ensures
            final(self).node_data.wf(),
            final(self).connections == old(self).connections,
            final(self).input_ports == old(self).input_ports,
            final(self).output_ports == old(self).output_ports,
            forall|q: InputPortId|
                #![all_triggers]
                final(self).has_input_port(q) == old(self).has_input_port(q),
            forall|q: InputPortId|
                old(self).has_input_port(q) ==> #[trigger] final(self).input_port(q) == old(
                    self,
                ).input_port(q),
            forall|q: InputPortId|
                #![all_triggers]
                final(self).input_port_retired(q) == old(self).input_port_retired(q),
            forall|q: OutputPortId|
                #![all_triggers]
                final(self).has_output_port(q) == old(self).has_output_port(q),
            forall|q: OutputPortId|
                old(self).has_output_port(q) ==> #[trigger] final(self).output_port(q) == old(
                    self,
                ).output_port(q),
            forall|q: OutputPortId|
                #![all_triggers]
                final(self).output_port_retired(q) == old(self).output_port_retired(q),
            forall|c: ConnectionId|
                #![all_triggers]
                final(self).has_connection(c) == old(self).has_connection(c),
            forall|c: ConnectionId|
                old(self).has_connection(c) ==> #[trigger] final(self).connection(c) == old(
                    self,
                ).connection(c),
            forall|n: NodeId| #![all_triggers] final(self).has_node(n) == old(self).has_node(n),
            forall|n: NodeId|
                old(self).has_node(n) ==> #[trigger] final(self).node_inputs(n) == old(
                    self,
                ).node_inputs(n),
            forall|n: NodeId|
                old(self).has_node(n) ==> #[trigger] final(self).node_outputs(n) == old(
                    self,
                ).node_outputs(n),
            forall|n: NodeId|
                old(self).has_node(n) && n != node ==> #[trigger] final(self).node_state(n) == old(
                    self,
                ).node_state(n),
            old(self).node_state(node) is Some ==> final(self).node_state(node) is Some,
    {
        let rec = self.node_data.borrow_mut(node.index, node.generation);
        let st = rec.state.take();
        match st {
            Some(mut s) => {
                match input_side {
                    Some(p) => s.input_connection_removed(p, connection),
                    None => (),
                }
                match output_side {
                    Some(p) => s.output_connection_removed(p, connection),
                    None => (),
                }
                let rec = self.node_data.borrow_mut(node.index, node.generation);
                rec.state = Some(s);
            },
            None => {
                let rec = self.node_data.borrow_mut(node.index, node.generation);
                rec.state = None;
            },
        }
    }

    /// Append a new input port to a node, without notifying the node.
    #[verifier::rlimit(100)]
    #[verifier::spinoff_prover]
    fn add_input_port_raw(
        &mut self,
        node: NodeId,
        name: String,
        ty: N::DataType,
        default: Option<N::DataValue>,
    ) -> (p: InputPortId)
        requires
            old(self).wf(),
            old(self).has_node(node),
        ensures
            final(self).wf(),
            !old(self).has_input_port(p),
            !old(self).input_port_retired(p),
            final(self).has_input_port(p),
            final(self).input_port(p).node == node,
            final(self).input_port(p).name == name,
            final(self).input_port(p).ty == ty,
            final(self).input_port(p).default == default,
            final(self).input_port(p).incoming_connections@.len() == 0,
            final(self).input_port(p).outgoing_connections@.len() == 0,
            final(self).node_inputs(node) == old(self).node_inputs(node).push((name, p)),
            forall|n: NodeId| #![all_triggers] final(self).has_node(n) == old(self).has_node(n),
            forall|n: NodeId|
                old(self).has_node(n) && n != node ==> #[trigger] final(self).node_inputs(n) == old(
                    self,
                ).node_inputs(n),
            forall|n: NodeId|
                old(self).has_node(n) ==> #[trigger] final(self).node_outputs(n) == old(
                    self,
                ).node_outputs(n),
            forall|n: NodeId|
                old(self).has_node(n) ==> #[trigger] final(self).node_state(n) == old(
                    self,
                ).node_state(n),
            forall|q: InputPortId|
                #![all_triggers]
                q != p ==> final(self).has_input_port(q) == old(self).has_input_port(q),
            forall|q: InputPortId|
                old(self).has_input_port(q) && q != p ==> #[trigger] final(self).input_port(q)
                    == old(self).input_port(q),
            forall|q: InputPortId|
                #![all_triggers]
                final(self).input_port_retired(q) == old(self).input_port_retired(q),
            forall|q: OutputPortId|
                #![all_triggers]
                final(self).has_output_port(q) == old(self).has_output_port(q),
            forall|q: OutputPortId|
                old(self).has_output_port(q) ==> #[trigger] final(self).output_port(q) == old(
                    self,
                ).output_port(q),
            forall|q: OutputPortId|
                #![all_triggers]
                final(self).output_port_retired(q) == old(self).output_port_retired(q),
            forall|c: ConnectionId|
                #![all_triggers]
                final(self).has_connection(c) == old(self).has_connection(c),
            forall|c: ConnectionId|
                old(self).has_connection(c) ==> #[trigger] final(self).connection(c) == old(
                    self,
                ).connection(c),
    {
        let port_name = name.clone();
        let key = self.input_ports.insert(
            Port {
                node,
                name: port_name,
                ty,
                default,
                incoming_connections: Vec::new(),
                outgoing_connections: Vec::new(),
            },
        );
        let p = InputPortId { index: key.0, generation: key.1 };
        let rec = self.node_data.borrow_mut(node.index, node.generation);
        rec.data.inputs.push((name, p));
        proof {
            let g1 = *old(self);
            let g2 = *self;
            assert(g2.node_inputs(node) == g1.node_inputs(node).push(
                (name, p),
            ));
            assert forall|n: NodeId| #[trigger] g2.has_node(n) implies {
                &&& forall|k: int|
                    0 <= k < g2.node_inputs(n).len() ==> {
                        let e = #[trigger] g2.node_inputs(n)[k];
                        &&& (g2.has_input_port(e.1) || g2.input_port_retired(e.1))
                        &&& g2.has_input_port(e.1) ==> g2.input_port(e.1).node == n
                            && g2.input_port(e.1).name@ == e.0@
                    }
                &&& forall|k: int|
                    0 <= k < g2.node_outputs(n).len() ==> {
                        let e = #[trigger] g2.node_outputs(n)[k];
                        &&& (g2.has_output_port(e.1) || g2.output_port_retired(e.1))
                        &&& g2.has_output_port(e.1) ==> g2.output_port(e.1).node == n
                            && g2.output_port(e.1).name@ == e.0@
                    }
            } by {
                assert(g1.has_node(n));
                assert forall|k: int| 0 <= k < g2.node_inputs(n).len() implies {
                    let e = #[trigger] g2.node_inputs(n)[k];
                    &&& (g2.has_input_port(e.1) || g2.input_port_retired(e.1))
                    &&& g2.has_input_port(e.1) ==> g2.input_port(e.1).node == n && g2.input_port(
                        e.1,
                    ).name@ == e.0@
                } by {
                    if n == node && k == g1.node_inputs(n).len() {
                        assert(g2.node_inputs(n)[k] == (name, p));
                    } else {
                        let e = g1.node_inputs(n)[k];
                        assert(g2.node_inputs(n)[k] == e);
                        assert(g1.has_input_port(e.1) || g1.input_port_retired(e.1));
                        if g1.has_input_port(e.1) {
                            assert(e.1 != p);
                        }
                    }
                }
                assert forall|k: int| 0 <= k < g2.node_outputs(n).len() implies {
                    let e = #[trigger] g2.node_outputs(n)[k];
                    &&& (g2.has_output_port(e.1) || g2.output_port_retired(e.1))
                    &&& g2.has_output_port(e.1) ==> g2.output_port(e.1).node == n
                        && g2.output_port(e.1).name@ == e.0@
                } by {
                    let e = g1.node_outputs(n)[k];
                    assert(g2.node_outputs(n)[k] == e);
                    assert(g1.has_output_port(e.1) || g1.output_port_retired(e.1));
                }
            }
            assert(g2.wf_nodes());
            assert forall|q: InputPortId| #[trigger] g2.has_input_port(q) implies {
                let port = g2.input_port(q);
                &&& g2.has_node(port.node)
                &&& exists|k: int|
                    0 <= k < g2.node_inputs(port.node).len() && (#[trigger] g2.node_inputs(
                        port.node,
                    )[k]).1 == q
                &&& port.outgoing_connections@.len() == 0
                &&& forall|j: int|
                    0 <= j < port.incoming_connections@.len() ==> g2.has_connection(
                        #[trigger] port.incoming_connections@[j],
                    ) && g2.connection(port.incoming_connections@[j]).end_port == q
                &&& forall|j1: int, j2: int|
                    0 <= j1 < j2 < port.incoming_connections@.len()
                        ==> #[trigger] port.incoming_connections@[j1]
                        != #[trigger] port.incoming_connections@[j2]
            } by {
                if q == p {
                    let k = g1.node_inputs(node).len() as int;
                    assert((g2.node_inputs(node)[k]).1 == p);
                } else {
                    assert(g1.has_input_port(q));
                    let port = g1.input_port(q);
                    assert(g2.input_port(q) == port);
                    let k = choose|k: int|
                        0 <= k < g1.node_inputs(port.node).len() && (#[trigger] g1.node_inputs(
                            port.node,
                        )[k]).1 == q;
                    assert((g2.node_inputs(port.node)[k]).1 == q);
                    assert forall|j: int|
                        0 <= j < port.incoming_connections@.len() implies g2.has_connection(
                        #[trigger] port.incoming_connections@[j],
                    ) && g2.connection(port.incoming_connections@[j]).end_port == q by {
                        assert(g1.has_connection(port.incoming_connections@[j]));
                    }
                }
            }
            assert(g2.wf_input_ports());
            assert forall|q: OutputPortId| #[trigger] g2.has_output_port(q) implies {
                let port = g2.output_port(q);
                &&& g2.has_node(port.node)
                &&& exists|k: int|
                    0 <= k < g2.node_outputs(port.node).len() && (#[trigger] g2.node_outputs(
                        port.node,
                    )[k]).1 == q
                &&& port.incoming_connections@.len() == 0
                &&& forall|j: int|
                    0 <= j < port.outgoing_connections@.len() ==> g2.has_connection(
                        #[trigger] port.outgoing_connections@[j],
                    ) && g2.connection(port.outgoing_connections@[j]).start_port == q
                &&& forall|j1: int, j2: int|
                    0 <= j1 < j2 < port.outgoing_connections@.len()
                        ==> #[trigger] port.outgoing_connections@[j1]
                        != #[trigger] port.outgoing_connections@[j2]
            } by {
                assert(g1.has_output_port(q));
                let port = g1.output_port(q);
                assert(g2.output_port(q) == port);
                let k = choose|k: int|
                    0 <= k < g1.node_outputs(port.node).len() && (#[trigger] g1.node_outputs(
                        port.node,
                    )[k]).1 == q;
                assert((g2.node_outputs(port.node)[k]).1 == q);
                assert forall|j: int|
                    0 <= j < port.outgoing_connections@.len() implies g2.has_connection(
                    #[trigger] port.outgoing_connections@[j],
                ) && g2.connection(port.outgoing_connections@[j]).start_port == q by {
                    assert(g1.has_connection(port.outgoing_connections@[j]));
                }
            }
            assert(g2.wf_output_ports());
            assert forall|c: ConnectionId| #[trigger] g2.has_connection(c) implies {
                let conn = g2.connection(c);
                &&& g2.has_output_port(conn.start_port)
                &&& g2.has_input_port(conn.end_port)
                &&& g2.output_port(conn.start_port).outgoing_connections@.contains(c)
                &&& g2.input_port(conn.end_port).incoming_connections@.contains(c)
                &&& g2.output_port(conn.start_port).node != g2.input_port(conn.end_port).node
                &&& g2.output_port(conn.start_port).ty.convertible_to(
                    g2.input_port(conn.end_port).ty,
                )
            } by {
                assert(g1.has_connection(c));
                let conn = g1.connection(c);
                assert(g2.connection(c) == conn);
                assert(g1.has_input_port(conn.end_port));
                assert(conn.end_port != p);
            }
            assert(g2.wf_connections());
        }
        p
    }

    /// Append a new output port to a node, without notifying the node.
    #[verifier::rlimit(100)]
    #[verifier::spinoff_prover]
    fn add_output_port_raw(&mut self, node: NodeId, name: String, ty: N::DataType) -> (p:
        OutputPortId)
        requires
            old(self).wf(),
            old(self).has_node(node),
        ensures
            final(self).wf(),
            !old(self).has_output_port(p),
            !old(self).output_port_retired(p),
            final(self).has_output_port(p),
            final(self).output_port(p).node == node,
            final(self).output_port(p).name == name,
            final(self).output_port(p).ty == ty,
            final(self).output_port(p).default is None,
            final(self).output_port(p).incoming_connections@.len() == 0,
            final(self).output_port(p).outgoing_connections@.len() == 0,
            final(self).node_outputs(node) == old(self).node_outputs(node).push((name, p)),
            forall|n: NodeId| #![all_triggers] final(self).has_node(n) == old(self).has_node(n),
            forall|n: NodeId|
                old(self).has_node(n) && n != node ==> #[trigger] final(self).node_outputs(n)
                    == old(self).node_outputs(n),
            forall|n: NodeId|
                old(self).has_node(n) ==> #[trigger] final(self).node_inputs(n) == old(
                    self,
                ).node_inputs(n),
            forall|n: NodeId|
                old(self).has_node(n) ==> #[trigger] final(self).node_state(n) == old(
                    self,
                ).node_state(n),
            forall|q: OutputPortId|
                #![all_triggers]
                q != p ==> final(self).has_output_port(q) == old(self).has_output_port(q),
            forall|q: OutputPortId|
                old(self).has_output_port(q) && q != p ==> #[trigger] final(self).output_port(q)
                    == old(self).output_port(q),
            forall|q: OutputPortId|
                #![all_triggers]
                final(self).output_port_retired(q) == old(self).output_port_retired(q),
            forall|q: InputPortId|
                #![all_triggers]
                final(self).has_input_port(q) == old(self).has_input_port(q),
            forall|q: InputPortId|
                old(self).has_input_port(q) ==> #[trigger] final(self).input_port(q) == old(
                    self,
                ).input_port(q),
            forall|q: InputPortId|
                #![all_triggers]
                final(self).input_port_retired(q) == old(self).input_port_retired(q),
            forall|c: ConnectionId|
                #![all_triggers]
                final(self).has_connection(c) == old(self).has_connection(c),
            forall|c: ConnectionId|
                old(self).has_connection(c) ==> #[trigger] final(self).connection(c) == old(
                    self,
                ).connection(c),
    {
        let port_name = name.clone();
        let key = self.output_ports.insert(
            Port {
                node,
                name: port_name,
                ty,
                default: None,
                incoming_connections: Vec::new(),
                outgoing_connections: Vec::new(),
            },
        );
        let p = OutputPortId { index: key.0, generation: key.1 };
        let rec = self.node_data.borrow_mut(node.index, node.generation);
        rec.data.outputs.push((name, p));
        proof {
            let g1 = *old(self);
            let g2 = *self;
            assert(g2.node_outputs(node) == g1.node_outputs(node).push((name, p)));
            assert forall|n: NodeId| #[trigger] g2.has_node(n) implies {
                &&& forall|k: int|
                    0 <= k < g2.node_inputs(n).len() ==> {
                        let e = #[trigger] g2.node_inputs(n)[k];
                        &&& (g2.has_input_port(e.1) || g2.input_port_retired(e.1))
                        &&& g2.has_input_port(e.1) ==> g2.input_port(e.1).node == n
                            && g2.input_port(e.1).name@ == e.0@
                    }
                &&& forall|k: int|
                    0 <= k < g2.node_outputs(n).len() ==> {
                        let e = #[trigger] g2.node_outputs(n)[k];
                        &&& (g2.has_output_port(e.1) || g2.output_port_retired(e.1))
                        &&& g2.has_output_port(e.1) ==> g2.output_port(e.1).node == n
                            && g2.output_port(e.1).name@ == e.0@
                    }
            } by {
                assert(g1.has_node(n));
                assert forall|k: int| 0 <= k < g2.node_inputs(n).len() implies {
                    let e = #[trigger] g2.node_inputs(n)[k];
                    &&& (g2.has_input_port(e.1) || g2.input_port_retired(e.1))
                    &&& g2.has_input_port(e.1) ==> g2.input_port(e.1).node == n && g2.input_port(
                        e.1,
                    ).name@ == e.0@
                } by {
                    let e = g1.node_inputs(n)[k];
                    assert(g2.node_inputs(n)[k] == e);
                    assert(g1.has_input_port(e.1) || g1.input_port_retired(e.1));
                }
                assert forall|k: int| 0 <= k < g2.node_outputs(n).len() implies {
                    let e = #[trigger] g2.node_outputs(n)[k];
                    &&& (g2.has_output_port(e.1) || g2.output_port_retired(e.1))
                    &&& g2.has_output_port(e.1) ==> g2.output_port(e.1).node == n
                        && g2.output_port(e.1).name@ == e.0@
                } by {
                    if n == node && k == g1.node_outputs(n).len() {
                        assert(g2.node_outputs(n)[k] == (name, p));
                    } else {
                        let e = g1.node_outputs(n)[k];
                        assert(g2.node_outputs(n)[k] == e);
                        assert(g1.has_output_port(e.1) || g1.output_port_retired(e.1));
                        if g1.has_output_port(e.1) {
                            assert(e.1 != p);
                        }
                    }
                }
            }
            assert(g2.wf_nodes());
            assert forall|q: InputPortId| #[trigger] g2.has_input_port(q) implies {
                let port = g2.input_port(q);
                &&& g2.has_node(port.node)
                &&& exists|k: int|
                    0 <= k < g2.node_inputs(port.node).len() && (#[trigger] g2.node_inputs(
                        port.node,
                    )[k]).1 == q
                &&& port.outgoing_connections@.len() == 0
                &&& forall|j: int|
                    0 <= j < port.incoming_connections@.len() ==> g2.has_connection(
                        #[trigger] port.incoming_connections@[j],
                    ) && g2.connection(port.incoming_connections@[j]).end_port == q
                &&& forall|j1: int, j2: int|
                    0 <= j1 < j2 < port.incoming_connections@.len()
                        ==> #[trigger] port.incoming_connections@[j1]
                        != #[trigger] port.incoming_connections@[j2]
            } by {
                assert(g1.has_input_port(q));
                let port = g1.input_port(q);
                assert(g2.input_port(q) == port);
                let k = choose|k: int|
                    0 <= k < g1.node_inputs(port.node).len() && (#[trigger] g1.node_inputs(
                        port.node,
                    )[k]).1 == q;
                assert((g2.node_inputs(port.node)[k]).1 == q);
                assert forall|j: int|
                    0 <= j < port.incoming_connections@.len() implies g2.has_connection(
                    #[trigger] port.incoming_connections@[j],
                ) && g2.connection(port.incoming_connections@[j]).end_port == q by {
                    assert(g1.has_connection(port.incoming_connections@[j]));
                }
            }
            assert(g2.wf_input_ports());
            assert forall|q: OutputPortId| #[trigger] g2.has_output_port(q) implies {
                let port = g2.output_port(q);
                &&& g2.has_node(port.node)
                &&& exists|k: int|
                    0 <= k < g2.node_outputs(port.node).len() && (#[trigger] g2.node_outputs(
                        port.node,
                    )[k]).1 == q
                &&& port.incoming_connections@.len() == 0
                &&& forall|j: int|
                    0 <= j < port.outgoing_connections@.len() ==> g2.has_connection(
                        #[trigger] port.outgoing_connections@[j],
                    ) && g2.connection(port.outgoing_connections@[j]).start_port == q
                &&& forall|j1: int, j2: int|
                    0 <= j1 < j2 < port.outgoing_connections@.len()
                        ==> #[trigger] port.outgoing_connections@[j1]
                        != #[trigger] port.outgoing_connections@[j2]
            } by {
                if q == p {
                    let k = g1.node_outputs(node).len() as int;
                    assert((g2.node_outputs(node)[k]).1 == p);
                } else {
                    assert(g1.has_output_port(q));
                    let port = g1.output_port(q);
                    assert(g2.output_port(q) == port);
                    let k = choose|k: int|
                        0 <= k < g1.node_outputs(port.node).len() && (#[trigger] g1.node_outputs(
                            port.node,
                        )[k]).1 == q;
                    assert((g2.node_outputs(port.node)[k]).1 == q);
                    assert forall|j: int|
                        0 <= j < port.outgoing_connections@.len() implies g2.has_connection(
                        #[trigger] port.outgoing_connections@[j],
                    ) && g2.connection(port.outgoing_connections@[j]).start_port == q by {
                        assert(g1.has_connection(port.outgoing_connections@[j]));
                    }
                }
            }
            assert(g2.wf_output_ports());
            assert forall|c: ConnectionId| #[trigger] g2.has_connection(c) implies {
                let conn = g2.connection(c);
                &&& g2.has_output_port(conn.start_port)
                &&& g2.has_input_port(conn.end_port)
                &&& g2.output_port(conn.start_port).outgoing_connections@.contains(c)
                &&& g2.input_port(conn.end_port).incoming_connections@.contains(c)
                &&& g2.output_port(conn.start_port).node != g2.input_port(conn.end_port).node
                &&& g2.output_port(conn.start_port).ty.convertible_to(
                    g2.input_port(conn.end_port).ty,
                )
            } by {
                assert(g1.has_connection(c));
                let conn = g1.connection(c);
                assert(g2.connection(c) == conn);
                assert(g1.has_output_port(conn.start_port));
                assert(conn.start_port != p);
            }
            assert(g2.wf_connections());
        }
        p
    }

    /// Append an input port to an existing node after construction. The
    /// caller must have checked, or know, that no port of that name exists on
    /// the node (`get_input_port` returns `None`); the node is then notified
    /// through its `input_port_created` hook.
    pub fn create_input_port(
        &mut self,
        node: NodeId,
        name: &str,
        ty: N::DataType,
        default: N::DataValue,
    ) -> (p: InputPortId)
        requires
            old(self).wf(),
            old(self).states_present(),
            old(self).has_node(node),
            old(self).spec_input_port_named(node, name@) is None,
        ensures
            final(self).wf(),
            final(self).states_present(),
            !old(self).has_input_port(p),
            !old(self).input_port_retired(p),
            final(self).has_input_port(p),
            final(self).input_port(p).node == node,
            final(self).input_port(p).name@ == name@,
            final(self).input_port(p).ty == ty,
            final(self).input_port(p).default == Some(default),
            final(self).input_port(p).incoming_connections@.len() == 0,
            final(self).node_inputs(node).len() == old(self).node_inputs(node).len() + 1,
            final(self).node_inputs(node) == old(self).node_inputs(node).push(
                final(self).node_inputs(node).last(),
            ),
            final(self).node_inputs(node).last().0@ == name@,
            final(self).node_inputs(node).last().1 == p,
            forall|n: NodeId| #![all_triggers] final(self).has_node(n) == old(self).has_node(n),
            forall|n: NodeId|
                old(self).has_node(n) && n != node ==> #[trigger] final(self).node_inputs(n) == old(
                    self,
                ).node_inputs(n),
            forall|n: NodeId|
                old(self).has_node(n) ==> #[trigger] final(self).node_outputs(n) == old(
                    self,
                ).node_outputs(n),
            forall|n: NodeId|
                old(self).has_node(n) && n != node ==> #[trigger] final(self).node_state(n) == old(
                    self,
                ).node_state(n),
            forall|q: InputPortId|
                #![all_triggers]
                q != p ==> final(self).has_input_port(q) == old(self).has_input_port(q),
            forall|q: InputPortId|
                old(self).has_input_port(q) && q != p ==> #[trigger] final(self).input_port(q)
                    == old(self).input_port(q),
            forall|q: OutputPortId|
                #![all_triggers]
                final(self).has_output_port(q) == old(self).has_output_port(q),
            forall|q: OutputPortId|
                old(self).has_output_port(q) ==> #[trigger] final(self).output_port(q) == old(
                    self,
                ).output_port(q),
            forall|c: ConnectionId|
                #![all_triggers]
                final(self).has_connection(c) == old(self).has_connection(c),
            forall|c: ConnectionId|
                old(self).has_connection(c) ==> #[trigger] final(self).connection(c) == old(
                    self,
                ).connection(c),
    {
        let owned = String::from_str(name);
        let p = self.add_input_port_raw(node, owned, ty, Some(default));
        let ghost mid = *self;
        self.with_state_input_port_created(node, name, ty, p);
        proof {
            assert(structure_eq(mid, *self));
            lemma_wf_from_structure_eq(mid, *self);
            assert forall|n: NodeId| #[trigger] self.has_node(n) implies self.node_state(n)
                is Some by {
                assert(old(self).has_node(n));
                if n != node {
                    assert(mid.node_state(n) == old(self).node_state(n));
                }
            }
        }
        p
    }

    /// Append an output port to an existing node after construction. The
    /// caller must have checked, or know, that no port of that name exists on
    /// the node; the node is then notified through its `output_port_created`
    /// hook.
    pub fn create_output_port(&mut self, node: NodeId, name: &str, ty: N::DataType) -> (p:
        OutputPortId)
        requires
            old(self).wf(),
            old(self).states_present(),
            old(self).has_node(node),
            old(self).spec_output_port_named(node, name@) is None,
        ensures
            final(self).wf(),
            final(self).states_present(),
            !old(self).has_output_port(p),
            !old(self).output_port_retired(p),
            final(self).has_output_port(p),
            final(self).output_port(p).node == node,
            final(self).output_port(p).name@ == name@,
            final(self).output_port(p).ty == ty,
            final(self).output_port(p).outgoing_connections@.len() == 0,
            final(self).node_outputs(node).len() == old(self).node_outputs(node).len() + 1,
            final(self).node_outputs(node) == old(self).node_outputs(node).push(
                final(self).node_outputs(node).last(),
            ),
            final(self).node_outputs(node).last().0@ == name@,
            final(self).node_outputs(node).last().1 == p,
            forall|n: NodeId| #![all_triggers] final(self).has_node(n) == old(self).has_node(n),
            forall|n: NodeId|
                old(self).has_node(n) && n != node ==> #[trigger] final(self).node_outputs(n)
                    == old(self).node_outputs(n),
            forall|n: NodeId|
                old(self).has_node(n) ==> #[trigger] final(self).node_inputs(n) == old(
                    self,
                ).node_inputs(n),
            forall|n: NodeId|
                old(self).has_node(n) && n != node ==> #[trigger] final(self).node_state(n) == old(
                    self,
                ).node_state(n),
            forall|q: OutputPortId|
                #![all_triggers]
                q != p ==> final(self).has_output_port(q) == old(self).has_output_port(q),
            forall|q: OutputPortId|
                old(self).has_output_port(q) && q != p ==> #[trigger] final(self).output_port(q)
                    == old(self).output_port(q),
            forall|q: InputPortId|
                #![all_triggers]
                final(self).has_input_port(q) == old(self).has_input_port(q),
            forall|q: InputPortId|
                old(self).has_input_port(q) ==> #[trigger] final(self).input_port(q) == old(
                    self,
                ).input_port(q),
            forall|c: ConnectionId|
                #![all_triggers]
                final(self).has_connection(c) == old(self).has_connection(c),
            forall|c: ConnectionId|
                old(self).has_connection(c) ==> #[trigger] final(self).connection(c) == old(
                    self,
                ).connection(c),
    {
        let owned = String::from_str(name);
        let p = self.add_output_port_raw(node, owned, ty);
        let ghost mid = *self;
        self.with_state_output_port_created(node, name, ty, p);
        proof {
            assert(structure_eq(mid, *self));
            lemma_wf_from_structure_eq(mid, *self);
            assert forall|n: NodeId| #[trigger] self.has_node(n) implies self.node_state(n)
                is Some by {
                assert(old(self).has_node(n));
                if n != node {
                    assert(mid.node_state(n) == old(self).node_state(n));
                }
            }
        }
        p
    }

    /// Replace an input port's default value; observable by future
    /// evaluations only.
    pub fn set_default_value<R: InputPortReference<N>>(&mut self, port: R, value: N::DataValue)
        requires
            old(self).wf(),
            R::spec_resolve(port, *old(self)) is Some,
            old(self).has_input_port(R::spec_resolve(port, *old(self))->Some_0),
        ensures
            final(self).wf(),
            final(self).input_port(R::spec_resolve(port, *old(self))->Some_0).default == Some(
                value,
            ),
            final(self).input_port(R::spec_resolve(port, *old(self))->Some_0).node == old(
                self,
            ).input_port(R::spec_resolve(port, *old(self))->Some_0).node,
            final(self).input_port(R::spec_resolve(port, *old(self))->Some_0).name == old(
                self,
            ).input_port(R::spec_resolve(port, *old(self))->Some_0).name,
            final(self).input_port(R::spec_resolve(port, *old(self))->Some_0).ty == old(
                self,
            ).input_port(R::spec_resolve(port, *old(self))->Some_0).ty,
            final(self).input_port(
                R::spec_resolve(port, *old(self))->Some_0,
            ).incoming_connections == old(self).input_port(
                R::spec_resolve(port, *old(self))->Some_0,
            ).incoming_connections,
            forall|n: NodeId| #![all_triggers] final(self).has_node(n) == old(self).has_node(n),
            forall|n: NodeId|
                old(self).has_node(n) ==> #[trigger] final(self).node_inputs(n) == old(
                    self,
                ).node_inputs(n) && final(self).node_outputs(n) == old(self).node_outputs(n)
                    && final(self).node_state(n) == old(self).node_state(n),
            forall|q: InputPortId|
                #![all_triggers]
                final(self).has_input_port(q) == old(self).has_input_port(q),
            forall|q: InputPortId|
                old(self).has_input_port(q) && q != R::spec_resolve(port, *old(self))->Some_0
                    ==> #[trigger] final(self).input_port(q) == old(self).input_port(q),
            forall|q: OutputPortId|
                #![all_triggers]
                final(self).has_output_port(q) == old(self).has_output_port(q),
            forall|q: OutputPortId|
                old(self).has_output_port(q) ==> #[trigger] final(self).output_port(q) == old(
                    self,
                ).output_port(q),
            forall|c: ConnectionId|
                #![all_triggers]
                final(self).has_connection(c) == old(self).has_connection(c),
            forall|c: ConnectionId|
                old(self).has_connection(c) ==> #[trigger] final(self).connection(c) == old(
                    self,
                ).connection(c),
    {
        let resolved = port.resolve(self);
        let p = match resolved {
            Some(p) => p,
            None => { proof { assert(false); } unreached() },
        };
        let port_rec = self.input_ports.borrow_mut(p.index, p.generation);
        port_rec.default = Some(value);
        proof {
            let g1 = *old(self);
            let g2 = *self;
            assert(g2.input_port(p).incoming_connections == g1.input_port(
                p,
            ).incoming_connections);
            assert forall|n: NodeId| #[trigger] g2.has_node(n) implies {
                &&& forall|k: int|
                    0 <= k < g2.node_inputs(n).len() ==> {
                        let e = #[trigger] g2.node_inputs(n)[k];
                        &&& (g2.has_input_port(e.1) || g2.input_port_retired(e.1))
                        &&& g2.has_input_port(e.1) ==> g2.input_port(e.1).node == n
                            && g2.input_port(e.1).name@ == e.0@
                    }
                &&& forall|k: int|
                    0 <= k < g2.node_outputs(n).len() ==> {
                        let e = #[trigger] g2.node_outputs(n)[k];
                        &&& (g2.has_output_port(e.1) || g2.output_port_retired(e.1))
                        &&& g2.has_output_port(e.1) ==> g2.output_port(e.1).node == n
                            && g2.output_port(e.1).name@ == e.0@
                    }
            } by {
                assert(g1.has_node(n));
                assert forall|k: int| 0 <= k < g2.node_inputs(n).len() implies {
                    let e = #[trigger] g2.node_inputs(n)[k];
                    &&& (g2.has_input_port(e.1) || g2.input_port_retired(e.1))
                    &&& g2.has_input_port(e.1) ==> g2.input_port(e.1).node == n && g2.input_port(
                        e.1,
                    ).name@ == e.0@
                } by {
                    let e = g1.node_inputs(n)[k];
                    assert(g1.has_input_port(e.1) || g1.input_port_retired(e.1));
                    if g1.has_input_port(e.1) && e.1 == p {
                        assert(g2.input_port(p).node == g1.input_port(p).node);
                        assert(g2.input_port(p).name == g1.input_port(p).name);
                    }
                }
                assert forall|k: int| 0 <= k < g2.node_outputs(n).len() implies {
                    let e = #[trigger] g2.node_outputs(n)[k];
                    &&& (g2.has_output_port(e.1) || g2.output_port_retired(e.1))
                    &&& g2.has_output_port(e.1) ==> g2.output_port(e.1).node == n
                        && g2.output_port(e.1).name@ == e.0@
                } by {
                    let e = g1.node_outputs(n)[k];
                    assert(g1.has_output_port(e.1) || g1.output_port_retired(e.1));
                }
            }
            assert(g2.wf_nodes());
            assert forall|q: InputPortId| #[trigger] g2.has_input_port(q) implies {
                let port_v = g2.input_port(q);
                &&& g2.has_node(port_v.node)
                &&& exists|k: int|
                    0 <= k < g2.node_inputs(port_v.node).len() && (#[trigger] g2.node_inputs(
                        port_v.node,
                    )[k]).1 == q
                &&& port_v.outgoing_connections@.len() == 0
                &&& forall|j: int|
                    0 <= j < port_v.incoming_connections@.len() ==> g2.has_connection(
                        #[trigger] port_v.incoming_connections@[j],
                    ) && g2.connection(port_v.incoming_connections@[j]).end_port == q
                &&& forall|j1: int, j2: int|
                    0 <= j1 < j2 < port_v.incoming_connections@.len()
                        ==> #[trigger] port_v.incoming_connections@[j1]
                        != #[trigger] port_v.incoming_connections@[j2]
            } by {
                assert(g1.has_input_port(q));
                let old_port = g1.input_port(q);
                assert(g2.input_port(q).node == old_port.node);
                assert(g2.input_port(q).incoming_connections == old_port.incoming_connections);
                assert(g2.input_port(q).outgoing_connections == old_port.outgoing_connections);
                let k = choose|k: int|
                    0 <= k < g1.node_inputs(old_port.node).len() && (#[trigger] g1.node_inputs(
                        old_port.node,
                    )[k]).1 == q;
                assert((g2.node_inputs(old_port.node)[k]).1 == q);
                assert forall|j: int|
                    0 <= j < g2.input_port(q).incoming_connections@.len() implies g2.has_connection(
                    #[trigger] g2.input_port(q).incoming_connections@[j],
                ) && g2.connection(g2.input_port(q).incoming_connections@[j]).end_port == q by {
                    assert(g1.has_connection(old_port.incoming_connections@[j]));
                }
            }
            assert(g2.wf_input_ports());
            assert forall|q: OutputPortId| #[trigger] g2.has_output_port(q) implies {
                let port_v = g2.output_port(q);
                &&& g2.has_node(port_v.node)
                &&& exists|k: int|
                    0 <= k < g2.node_outputs(port_v.node).len() && (#[trigger] g2.node_outputs(
                        port_v.node,
                    )[k]).1 == q
                &&& port_v.incoming_connections@.len() == 0
                &&& forall|j: int|
                    0 <= j < port_v.outgoing_connections@.len() ==> g2.has_connection(
                        #[trigger] port_v.outgoing_connections@[j],
                    ) && g2.connection(port_v.outgoing_connections@[j]).start_port == q
                &&& forall|j1: int, j2: int|
                    0 <= j1 < j2 < port_v.outgoing_connections@.len()
                        ==> #[trigger] port_v.outgoing_connections@[j1]
                        != #[trigger] port_v.outgoing_connections@[j2]
            } by {
                assert(g1.has_output_port(q));
                let port_v = g1.output_port(q);
                assert(g2.output_port(q) == port_v);
                let k = choose|k: int|
                    0 <= k < g1.node_outputs(port_v.node).len() && (#[trigger] g1.node_outputs(
                        port_v.node,
                    )[k]).1 == q;
                assert((g2.node_outputs(port_v.node)[k]).1 == q);
                assert forall|j: int|
                    0 <= j < port_v.outgoing_connections@.len() implies g2.has_connection(
                    #[trigger] port_v.outgoing_connections@[j],
                ) && g2.connection(port_v.outgoing_connections@[j]).start_port == q by {
                    assert(g1.has_connection(port_v.outgoing_connections@[j]));
                }
            }
            assert(g2.wf_output_ports());
            assert forall|c: ConnectionId| #[trigger] g2.has_connection(c) implies {
                let conn = g2.connection(c);
                &&& g2.has_output_port(conn.start_port)
                &&& g2.has_input_port(conn.end_port)
                &&& g2.output_port(conn.start_port).outgoing_connections@.contains(c)
                &&& g2.input_port(conn.end_port).incoming_connections@.contains(c)
                &&& g2.output_port(conn.start_port).node != g2.input_port(conn.end_port).node
                &&& g2.output_port(conn.start_port).ty.convertible_to(
                    g2.input_port(conn.end_port).ty,
                )
            } by {
                assert(g1.has_connection(c));
                let conn = g1.connection(c);
                assert(g2.connection(c) == conn);
                assert(g1.has_input_port(conn.end_port));
                if conn.end_port == p {
                    assert(g2.input_port(p).incoming_connections == g1.input_port(
                        p,
                    ).incoming_connections);
                    assert(g2.input_port(p).ty == g1.input_port(p).ty);
                    assert(g2.input_port(p).node == g1.input_port(p).node);
                }
            }
            assert(g2.wf_connections());
        }
    }
}

/// The two-phase construction capability: a template splits into the node
/// state and a callback that runs after the node and its initial ports exist
/// in the store, receiving the finalized id for id-dependent setup.
pub trait NodeTemplate<N: Node>: Sized {
    type Callback: NodeTemplateCallback<N>;

    fn split(self) -> (N, Self::Callback);
}

/// The post-creation phase of a template: free to mutate the store further
/// (for instance to register dynamic ports), as long as it keeps it
/// well-formed and removes no node.
pub trait NodeTemplateCallback<N: Node>: Sized {
    fn post_create(self, graph: &mut Graph<N>, node_id: NodeId)
        requires
            old(graph).wf(),
            old(graph).states_present(),
        ensures
            final(graph).wf(),
            final(graph).states_present(),
            forall|n: NodeId| old(graph).has_node(n) ==> #[trigger] final(graph).has_node(n),
    ;
}

/// The callback that does nothing after creation.
#[derive(Clone, Copy, Debug)]
pub struct EmptyNodeCallback;

impl<N: Node> NodeTemplateCallback<N> for EmptyNodeCallback {
    fn post_create(self, graph: &mut Graph<N>, node_id: NodeId) {
    }
}

impl<N: Node> NodeTemplate<N> for N {
    type Callback = EmptyNodeCallback;

    fn split(self) -> (N, EmptyNodeCallback) {
        (self, EmptyNodeCallback)
    }
}

impl<N: Node> Graph<N> {
    /// Insert a bare node with no ports.
    fn insert_node_record(&mut self, state: N) -> (id: NodeId)
        requires
            old(self).wf(),
        ensures
            final(self).wf(),
            !old(self).has_node(id),
            final(self).has_node(id),
            final(self).node_state(id) == Some(state),
            final(self).node_inputs(id).len() == 0,
            final(self).node_outputs(id).len() == 0,
            forall|n: NodeId|
                #![all_triggers]
                n != id ==> final(self).has_node(n) == old(self).has_node(n),
            forall|n: NodeId|
                old(self).has_node(n) ==> #[trigger] final(self).node_inputs(n) == old(
                    self,
                ).node_inputs(n),
            forall|n: NodeId|
                old(self).has_node(n) ==> #[trigger] final(self).node_outputs(n) == old(
                    self,
                ).node_outputs(n),
            forall|n: NodeId|
                old(self).has_node(n) ==> #[trigger] final(self).node_state(n) == old(
                    self,
                ).node_state(n),
            forall|q: InputPortId|
                #![all_triggers]
                final(self).has_input_port(q) == old(self).has_input_port(q),
            forall|q: InputPortId|
                old(self).has_input_port(q) ==> #[trigger] final(self).input_port(q) == old(
                    self,
                ).input_port(q),
            forall|q: InputPortId|
                #![all_triggers]
                final(self).input_port_retired(q) == old(self).input_port_retired(q),
            forall|q: OutputPortId|
                #![all_triggers]
                final(self).has_output_port(q) == old(self).has_output_port(q),
            forall|q: OutputPortId|
                old(self).has_output_port(q) ==> #[trigger] final(self).output_port(q) == old(
                    self,
                ).output_port(q),
            forall|q: OutputPortId|
                #![all_triggers]
                final(self).output_port_retired(q) == old(self).output_port_retired(q),
            forall|c: ConnectionId|
                #![all_triggers]
                final(self).has_connection(c) == old(self).has_connection(c),
            forall|c: ConnectionId|
                old(self).has_connection(c) ==> #[trigger] final(self).connection(c) == old(
                    self,
                ).connection(c),
    {
        let key = self.node_data.insert(
            NodeRecord { data: NodeData { inputs: Vec::new(), outputs: Vec::new() }, state: Some(state) },
        );
        let id = NodeId { index: key.0, generation: key.1 };
        proof {
            let g1 = *old(self);
            let g2 = *self;
            assert forall|n: NodeId| #[trigger] g2.has_node(n) implies {
                &&& forall|k: int|
                    0 <= k < g2.node_inputs(n).len() ==> {
                        let e = #[trigger] g2.node_inputs(n)[k];
                        &&& (g2.has_input_port(e.1) || g2.input_port_retired(e.1))
                        &&& g2.has_input_port(e.1) ==> g2.input_port(e.1).node == n
                            && g2.input_port(e.1).name@ == e.0@
                    }
                &&& forall|k: int|
                    0 <= k < g2.node_outputs(n).len() ==> {
                        let e = #[trigger] g2.node_outputs(n)[k];
                        &&& (g2.has_output_port(e.1) || g2.output_port_retired(e.1))
                        &&& g2.has_output_port(e.1) ==> g2.output_port(e.1).node == n
                            && g2.output_port(e.1).name@ == e.0@
                    }
            } by {
                if n != id {
                    assert(g1.has_node(n));
                    assert(g2.node_inputs(n) == g1.node_inputs(n));
                    assert(g2.node_outputs(n) == g1.node_outputs(n));
                    assert forall|k: int| 0 <= k < g2.node_inputs(n).len() implies {
                        let e = #[trigger] g2.node_inputs(n)[k];
                        &&& (g2.has_input_port(e.1) || g2.input_port_retired(e.1))
                        &&& g2.has_input_port(e.1) ==> g2.input_port(e.1).node == n
                            && g2.input_port(e.1).name@ == e.0@
                    } by {
                        let e = g1.node_inputs(n)[k];
                        assert(g1.has_input_port(e.1) || g1.input_port_retired(e.1));
                    }
                    assert forall|k: int| 0 <= k < g2.node_outputs(n).len() implies {
                        let e = #[trigger] g2.node_outputs(n)[k];
                        &&& (g2.has_output_port(e.1) || g2.output_port_retired(e.1))
                        &&& g2.has_output_port(e.1) ==> g2.output_port(e.1).node == n
                            && g2.output_port(e.1).name@ == e.0@
                    } by {
                        let e = g1.node_outputs(n)[k];
                        assert(g1.has_output_port(e.1) || g1.output_port_retired(e.1));
                    }
                }
            }
            assert(g2.wf_nodes());
            assert forall|q: InputPortId| #[trigger] g2.has_input_port(q) implies {
                let port = g2.input_port(q);
                &&& g2.has_node(port.node)
                &&& exists|k: int|
                    0 <= k < g2.node_inputs(port.node).len() && (#[trigger] g2.node_inputs(
                        port.node,
                    )[k]).1 == q
                &&& port.outgoing_connections@.len() == 0
                &&& forall|j: int|
                    0 <= j < port.incoming_connections@.len() ==> g2.has_connection(
                        #[trigger] port.incoming_connections@[j],
                    ) && g2.connection(port.incoming_connections@[j]).end_port == q
                &&& forall|j1: int, j2: int|
                    0 <= j1 < j2 < port.incoming_connections@.len()
                        ==> #[trigger] port.incoming_connections@[j1]
                        != #[trigger] port.incoming_connections@[j2]
            } by {
                assert(g1.has_input_port(q));
                let port = g1.input_port(q);
                assert(g2.input_port(q) == port);
                assert(g1.has_node(port.node));
                assert(port.node != id);
                assert(g2.node_inputs(port.node) == g1.node_inputs(port.node));
                let k = choose|k: int|
                    0 <= k < g1.node_inputs(port.node).len() && (#[trigger] g1.node_inputs(
                        port.node,
                    )[k]).1 == q;
                assert((g2.node_inputs(port.node)[k]).1 == q);
                assert forall|j: int|
                    0 <= j < port.incoming_connections@.len() implies g2.has_connection(
                    #[trigger] port.incoming_connections@[j],
                ) && g2.connection(port.incoming_connections@[j]).end_port == q by {
                    assert(g1.has_connection(port.incoming_connections@[j]));
                }
            }
            assert(g2.wf_input_ports());
            assert forall|q: OutputPortId| #[trigger] g2.has_output_port(q) implies {
                let port = g2.output_port(q);
                &&& g2.has_node(port.node)
                &&& exists|k: int|
                    0 <= k < g2.node_outputs(port.node).len() && (#[trigger] g2.node_outputs(
                        port.node,
                    )[k]).1 == q
                &&& port.incoming_connections@.len() == 0
                &&& forall|j: int|
                    0 <= j < port.outgoing_connections@.len() ==> g2.has_connection(
                        #[trigger] port.outgoing_connections@[j],
                    ) && g2.connection(port.outgoing_connections@[j]).start_port == q
                &&& forall|j1: int, j2: int|
                    0 <= j1 < j2 < port.outgoing_connections@.len()
                        ==> #[trigger] port.outgoing_connections@[j1]
                        != #[trigger] port.outgoing_connections@[j2]
            } by {
                assert(g1.has_output_port(q));
                let port = g1.output_port(q);
                assert(g2.output_port(q) == port);
                assert(g1.has_node(port.node));
                assert(port.node != id);
                assert(g2.node_outputs(port.node) == g1.node_outputs(port.node));
                let k = choose|k: int|
                    0 <= k < g1.node_outputs(port.node).len() && (#[trigger] g1.node_outputs(
                        port.node,
                    )[k]).1 == q;
                assert((g2.node_outputs(port.node)[k]).1 == q);
                assert forall|j: int|
                    0 <= j < port.outgoing_connections@.len() implies g2.has_connection(
                    #[trigger] port.outgoing_connections@[j],
                ) && g2.connection(port.outgoing_connections@[j]).start_port == q by {
                    assert(g1.has_connection(port.outgoing_connections@[j]));
                }
            }
            assert(g2.wf_output_ports());
            assert forall|c: ConnectionId| #[trigger] g2.has_connection(c) implies {
                let conn = g2.connection(c);
                &&& g2.has_output_port(conn.start_port)
                &&& g2.has_input_port(conn.end_port)
                &&& g2.output_port(conn.start_port).outgoing_connections@.contains(c)
                &&& g2.input_port(conn.end_port).incoming_connections@.contains(c)
                &&& g2.output_port(conn.start_port).node != g2.input_port(conn.end_port).node
                &&& g2.output_port(conn.start_port).ty.convertible_to(
                    g2.input_port(conn.end_port).ty,
                )
            } by {
                assert(g1.has_connection(c));
                let conn = g1.connection(c);
                assert(g2.connection(c) == conn);
                assert(g1.has_output_port(conn.start_port));
                assert(g1.has_input_port(conn.end_port));
            }
            assert(g2.wf_connections());
        }
        id
    }

    /// Register a node with the given state and the given ports, all in one
    /// step: the strongest-specified construction path. Input and output
    /// ports are appended in the order given; the returned vectors list the
    /// new port ids at matching positions. No lifecycle hook and no
    /// post-creation callback runs.
    #[verifier::rlimit(100)]
    #[verifier::spinoff_prover]
    pub fn create_node_with_ports(
        &mut self,
        state: N,
        inputs: Vec<(String, N::DataType, Option<N::DataValue>)>,
        outputs: Vec<(String, N::DataType)>,
    ) -> (r: (NodeId, Vec<InputPortId>, Vec<OutputPortId>))
        requires
            old(self).wf(),
            old(self).states_present(),
        ensures
            final(self).wf(),
            final(self).states_present(),
            !old(self).has_node(r.0),
            final(self).has_node(r.0),
            final(self).node_state(r.0) == Some(state),
            r.1@.len() == inputs@.len(),
            r.2@.len() == outputs@.len(),
            final(self).node_inputs(r.0).len() == inputs@.len(),
            final(self).node_outputs(r.0).len() == outputs@.len(),
            forall|k: int|
                0 <= k < inputs@.len() ==> {
                    &&& (#[trigger] final(self).node_inputs(r.0)[k]).0 == inputs@[k].0
                    &&& final(self).node_inputs(r.0)[k].1 == r.1@[k]
                    &&& final(self).has_input_port(r.1@[k])
                    &&& final(self).input_port(r.1@[k]).node == r.0
                    &&& final(self).input_port(r.1@[k]).name == inputs@[k].0
                    &&& final(self).input_port(r.1@[k]).ty == inputs@[k].1
                    &&& final(self).input_port(r.1@[k]).default == inputs@[k].2
                    &&& final(self).input_port(r.1@[k]).incoming_connections@.len() == 0
                    &&& !old(self).has_input_port(r.1@[k])
                },
            forall|k: int|
                0 <= k < outputs@.len() ==> {
                    &&& (#[trigger] final(self).node_outputs(r.0)[k]).0 == outputs@[k].0
                    &&& final(self).node_outputs(r.0)[k].1 == r.2@[k]
                    &&& final(self).has_output_port(r.2@[k])
                    &&& final(self).output_port(r.2@[k]).node == r.0
                    &&& final(self).output_port(r.2@[k]).name == outputs@[k].0
                    &&& final(self).output_port(r.2@[k]).ty == outputs@[k].1
                    &&& final(self).output_port(r.2@[k]).outgoing_connections@.len() == 0
                    &&& !old(self).has_output_port(r.2@[k])
                },
            forall|n: NodeId|
                #![all_triggers]
                n != r.0 ==> final(self).has_node(n) == old(self).has_node(n),
            forall|n: NodeId|
                old(self).has_node(n) ==> #[trigger] final(self).node_inputs(n) == old(
                    self,
                ).node_inputs(n),
            forall|n: NodeId|
                old(self).has_node(n) ==> #[trigger] final(self).node_outputs(n) == old(
                    self,
                ).node_outputs(n),
            forall|n: NodeId|
                old(self).has_node(n) ==> #[trigger] final(self).node_state(n) == old(
                    self,
                ).node_state(n),
            forall|q: InputPortId|
                old(self).has_input_port(q) ==> #[trigger] final(self).has_input_port(q)
                    && final(self).input_port(q) == old(self).input_port(q),
            forall|q: OutputPortId|
                old(self).has_output_port(q) ==> #[trigger] final(self).has_output_port(q)
                    && final(self).output_port(q) == old(self).output_port(q),
            forall|c: ConnectionId|
                #![all_triggers]
                final(self).has_connection(c) == old(self).has_connection(c),
            forall|c: ConnectionId|
                old(self).has_connection(c) ==> #[trigger] final(self).connection(c) == old(
                    self,
                ).connection(c),
    {
        let id = self.insert_node_record(state);
        let mut input_ids: Vec<InputPortId> = Vec::new();
        let n_in = inputs.len();
        let mut k: usize = 0;
        while k < n_in
            invariant
                self.wf(),
                self.has_node(id),
                !old(self).has_node(id),
                n_in == inputs@.len(),
                0 <= k <= n_in,
                input_ids@.len() == k,
                self.node_state(id) == Some(state),
                self.node_inputs(id).len() == k,
                self.node_outputs(id).len() == 0,
                forall|j: int|
                    0 <= j < k ==> {
                        &&& (#[trigger] self.node_inputs(id)[j]).0 == inputs@[j].0
                        &&& self.node_inputs(id)[j].1 == input_ids@[j]
                        &&& self.has_input_port(input_ids@[j])
                        &&& self.input_port(input_ids@[j]).node == id
                        &&& self.input_port(input_ids@[j]).name == inputs@[j].0
                        &&& self.input_port(input_ids@[j]).ty == inputs@[j].1
                        &&& self.input_port(input_ids@[j]).default == inputs@[j].2
                        &&& self.input_port(input_ids@[j]).incoming_connections@.len() == 0
                        &&& !old(self).has_input_port(input_ids@[j])
                    },
                forall|n: NodeId|
                    #![all_triggers]
                    n != id ==> self.has_node(n) == old(self).has_node(n),
                forall|n: NodeId|
                    old(self).has_node(n) ==> #[trigger] self.node_inputs(n) == old(
                        self,
                    ).node_inputs(n),
                forall|n: NodeId|
                    old(self).has_node(n) ==> #[trigger] self.node_outputs(n) == old(
                        self,
                    ).node_outputs(n),
                forall|n: NodeId|
                    old(self).has_node(n) ==> #[trigger] self.node_state(n) == old(
                        self,
                    ).node_state(n),
                forall|q: InputPortId|
                    old(self).has_input_port(q) ==> #[trigger] self.has_input_port(q)
                        && self.input_port(q) == old(self).input_port(q),
                forall|q: InputPortId|
                    #![all_triggers]
                    self.input_port_retired(q) == old(self).input_port_retired(q),
                forall|q: OutputPortId|
                    #![all_triggers]
                    self.has_output_port(q) == old(self).has_output_port(q),
                forall|q: OutputPortId|
                    old(self).has_output_port(q) ==> #[trigger] self.output_port(q) == old(
                        self,
                    ).output_port(q),
                forall|q: OutputPortId|
                    #![all_triggers]
                    self.output_port_retired(q) == old(self).output_port_retired(q),
                forall|c: ConnectionId|
                    #![all_triggers]
                    self.has_connection(c) == old(self).has_connection(c),
                forall|c: ConnectionId|
                    old(self).has_connection(c) ==> #[trigger] self.connection(c) == old(
                        self,
                    ).connection(c),
            decreases n_in - k,
        {
            let ghost pre = *self;
            let ghost ids_pre = input_ids@;
            let name = inputs[k].0.clone();
            let ty = inputs[k].1;
            let default = match &inputs[k].2 {
                Some(d) => Some(d.duplicate()),
                None => None,
            };
            let p = self.add_input_port_raw(id, name, ty, default);
            input_ids.push(p);
            proof {
                assert(input_ids@ == ids_pre.push(p));
                assert(self.node_inputs(id) == pre.node_inputs(id).push((name, p)));
                assert forall|j: int| 0 <= j < k + 1 implies {
                    &&& (#[trigger] self.node_inputs(id)[j]).0 == inputs@[j].0
                    &&& self.node_inputs(id)[j].1 == input_ids@[j]
                    &&& self.has_input_port(input_ids@[j])
                    &&& self.input_port(input_ids@[j]).node == id
                    &&& self.input_port(input_ids@[j]).name == inputs@[j].0
                    &&& self.input_port(input_ids@[j]).ty == inputs@[j].1
                    &&& self.input_port(input_ids@[j]).default == inputs@[j].2
                    &&& self.input_port(input_ids@[j]).incoming_connections@.len() == 0
                    &&& !old(self).has_input_port(input_ids@[j])
                } by {
                    if j < k {
                        assert(self.node_inputs(id)[j] == pre.node_inputs(id)[j]);
                        assert(input_ids@[j] == ids_pre[j]);
                        assert(pre.has_input_port(ids_pre[j]));
                        assert(ids_pre[j] != p);
                    } else {
                        assert(self.node_inputs(id)[j] == (name, p));
                        assert(input_ids@[j] == p);
                    }
                }
            }
            k += 1;
        }
        let mut output_ids: Vec<OutputPortId> = Vec::new();
        let n_out = outputs.len();
        let mut k2: usize = 0;
        while k2 < n_out
            invariant
                self.wf(),
                self.has_node(id),
                !old(self).has_node(id),
                n_in == inputs@.len(),
                n_out == outputs@.len(),
                0 <= k2 <= n_out,
                input_ids@.len() == n_in,
                output_ids@.len() == k2,
                self.node_state(id) == Some(state),
                self.node_inputs(id).len() == n_in,
                self.node_outputs(id).len() == k2,
                forall|j: int|
                    0 <= j < n_in ==> {
                        &&& (#[trigger] self.node_inputs(id)[j]).0 == inputs@[j].0
                        &&& self.node_inputs(id)[j].1 == input_ids@[j]
                        &&& self.has_input_port(input_ids@[j])
                        &&& self.input_port(input_ids@[j]).node == id
                        &&& self.input_port(input_ids@[j]).name == inputs@[j].0
                        &&& self.input_port(input_ids@[j]).ty == inputs@[j].1
                        &&& self.input_port(input_ids@[j]).default == inputs@[j].2
                        &&& self.input_port(input_ids@[j]).incoming_connections@.len() == 0
                        &&& !old(self).has_input_port(input_ids@[j])
                    },
                forall|j: int|
                    0 <= j < k2 ==> {
                        &&& (#[trigger] self.node_outputs(id)[j]).0 == outputs@[j].0
                        &&& self.node_outputs(id)[j].1 == output_ids@[j]
                        &&& self.has_output_port(output_ids@[j])
                        &&& self.output_port(output_ids@[j]).node == id
                        &&& self.output_port(output_ids@[j]).name == outputs@[j].0
                        &&& self.output_port(output_ids@[j]).ty == outputs@[j].1
                        &&& self.output_port(output_ids@[j]).outgoing_connections@.len() == 0
                        &&& !old(self).has_output_port(output_ids@[j])
                    },
                forall|n: NodeId|
                    #![all_triggers]
                    n != id ==> self.has_node(n) == old(self).has_node(n),
                forall|n: NodeId|
                    old(self).has_node(n) ==> #[trigger] self.node_inputs(n) == old(
                        self,
                    ).node_inputs(n),
                forall|n: NodeId|
                    old(self).has_node(n) ==> #[trigger] self.node_outputs(n) == old(
                        self,
                    ).node_outputs(n),
                forall|n: NodeId|
                    old(self).has_node(n) ==> #[trigger] self.node_state(n) == old(
                        self,
                    ).node_state(n),
                forall|q: InputPortId|
                    old(self).has_input_port(q) ==> #[trigger] self.has_input_port(q)
                        && self.input_port(q) == old(self).input_port(q),
                forall|q: InputPortId|
                    #![all_triggers]
                    self.input_port_retired(q) == old(self).input_port_retired(q),
                forall|q: OutputPortId|
                    old(self).has_output_port(q) ==> #[trigger] self.has_output_port(q)
                        && self.output_port(q) == old(self).output_port(q),
                forall|q: OutputPortId|
                    #![all_triggers]
                    self.output_port_retired(q) == old(self).output_port_retired(q),
                forall|c: ConnectionId|
                    #![all_triggers]
                    self.has_connection(c) == old(self).has_connection(c),
                forall|c: ConnectionId|
                    old(self).has_connection(c) ==> #[trigger] self.connection(c) == old(
                        self,
                    ).connection(c),
            decreases n_out - k2,
        {
            let ghost pre = *self;
            let ghost ids_pre = output_ids@;
            let name = outputs[k2].0.clone();
            let ty = outputs[k2].1;
            let p = self.add_output_port_raw(id, name, ty);
            output_ids.push(p);
            proof {
                assert(output_ids@ == ids_pre.push(p));
                assert(self.node_outputs(id) == pre.node_outputs(id).push((name, p)));
                assert forall|j: int| 0 <= j < k2 + 1 implies {
                    &&& (#[trigger] self.node_outputs(id)[j]).0 == outputs@[j].0
                    &&& self.node_outputs(id)[j].1 == output_ids@[j]
                    &&& self.has_output_port(output_ids@[j])
                    &&& self.output_port(output_ids@[j]).node == id
                    &&& self.output_port(output_ids@[j]).name == outputs@[j].0
                    &&& self.output_port(output_ids@[j]).ty == outputs@[j].1
                    &&& self.output_port(output_ids@[j]).outgoing_connections@.len() == 0
                    &&& !old(self).has_output_port(output_ids@[j])
                } by {
                    if j < k2 {
                        assert(self.node_outputs(id)[j] == pre.node_outputs(id)[j]);
                        assert(output_ids@[j] == ids_pre[j]);
                        assert(pre.has_output_port(ids_pre[j]));
                        assert(ids_pre[j] != p);
                    } else {
                        assert(self.node_outputs(id)[j] == (name, p));
                        assert(output_ids@[j] == p);
                    }
                }
            }
            k2 += 1;
        }
        proof {
            assert forall|n: NodeId| #[trigger] self.has_node(n) implies self.node_state(n)
                is Some by {
                if n != id {
                    assert(old(self).has_node(n));
                }
            }
        }
        (id, input_ids, output_ids)
    }

    /// Register the template's node state, materialize its declared initial
    /// ports, then run the template's post-creation callback, which may
    /// mutate the store further. Returns the new node's id.
    pub fn create_node<T: NodeTemplate<N>>(&mut self, node: T) -> (id: NodeId)
        requires
            old(self).wf(),
            old(self).states_present(),
        ensures
            final(self).wf(),
            final(self).states_present(),
            !old(self).has_node(id),
            final(self).has_node(id),
            forall|n: NodeId| old(self).has_node(n) ==> #[trigger] final(self).has_node(n),
    {
        let (state, callback) = node.split();
        let ports = state.initial_ports();
        let mut rest = ports.inputs;
        let n_inputs = rest.len();
        let mut with_defaults: Vec<(String, N::DataType, Option<N::DataValue>)> = Vec::new();
        let mut moved: usize = 0;
        while moved < n_inputs
            invariant
                0 <= moved <= n_inputs,
                rest@.len() == n_inputs - moved,
                with_defaults@.len() == moved,
            decreases n_inputs - moved,
        {
            let (name, ty, default) = rest.remove(0);
            with_defaults.push((name, ty, Some(default)));
            moved += 1;
        }
        let (id, _, _) = self.create_node_with_ports(state, with_defaults, ports.outputs);
        callback.post_create(self, id);
        id
    }

    /// As `create_node`, with caller-specified extra ports created after the
    /// initial ones; returns the node id and the ids of the extra ports in
    /// the order given.
    pub fn create_node_with<T: NodeTemplate<N>>(
        &mut self,
        node: T,
        inputs: Vec<(String, N::DataType, N::DataValue)>,
        outputs: Vec<(String, N::DataType)>,
    ) -> (r: (NodeId, Vec<InputPortId>, Vec<OutputPortId>))
        requires
            old(self).wf(),
            old(self).states_present(),
        ensures
            final(self).wf(),
            final(self).states_present(),
            !old(self).has_node(r.0),
            final(self).has_node(r.0),
            r.1@.len() == inputs@.len(),
            r.2@.len() == outputs@.len(),
            forall|n: NodeId| old(self).has_node(n) ==> #[trigger] final(self).has_node(n),
    {
        let (state, callback) = node.split();
        let ports = state.initial_ports();
        let n_initial_inputs = ports.inputs.len();
        let n_initial_outputs = ports.outputs.len();
        let mut initial_inputs = ports.inputs;
        let mut all_inputs: Vec<(String, N::DataType, Option<N::DataValue>)> = Vec::new();
        let mut all_outputs = ports.outputs;
        let mut moved0: usize = 0;
        while moved0 < n_initial_inputs
            invariant
                0 <= moved0 <= n_initial_inputs,
                initial_inputs@.len() == n_initial_inputs - moved0,
                all_inputs@.len() == moved0,
            decreases n_initial_inputs - moved0,
        {
            let (name, ty, default) = initial_inputs.remove(0);
            all_inputs.push((name, ty, Some(default)));
            moved0 += 1;
        }
        let n_extra_inputs = inputs.len();
        let n_extra_outputs = outputs.len();
        let mut rest_inputs = inputs;
        let mut rest_outputs = outputs;
        let mut moved: usize = 0;
        while moved < n_extra_inputs
            invariant
                0 <= moved <= n_extra_inputs,
                rest_inputs@.len() == n_extra_inputs - moved,
                all_inputs@.len() == n_initial_inputs + moved,
            decreases n_extra_inputs - moved,
        {
            let (name, ty, default) = rest_inputs.remove(0);
            all_inputs.push((name, ty, Some(default)));
            moved += 1;
        }
        let mut moved2: usize = 0;
        while moved2 < n_extra_outputs
            invariant
                0 <= moved2 <= n_extra_outputs,
                rest_outputs@.len() == n_extra_outputs - moved2,
                all_outputs@.len() == n_initial_outputs + moved2,
            decreases n_extra_outputs - moved2,
        {
            let item = rest_outputs.remove(0);
            all_outputs.push(item);
            moved2 += 1;
        }
        let (id, all_input_ids, all_output_ids) = self.create_node_with_ports(
            state,
            all_inputs,
            all_outputs,
        );
        let mut extra_input_ids: Vec<InputPortId> = Vec::new();
        let mut i: usize = n_initial_inputs;
        while i < all_input_ids.len()
            invariant
                n_initial_inputs <= i <= all_input_ids@.len(),
                all_input_ids@.len() == n_initial_inputs + n_extra_inputs,
                extra_input_ids@.len() == i - n_initial_inputs,
            decreases all_input_ids@.len() - i,
        {
            extra_input_ids.push(all_input_ids[i]);
            i += 1;
        }
        let mut extra_output_ids: Vec<OutputPortId> = Vec::new();
        let mut i2: usize = n_initial_outputs;
        while i2 < all_output_ids.len()
            invariant
                n_initial_outputs <= i2 <= all_output_ids@.len(),
                all_output_ids@.len() == n_initial_outputs + n_extra_outputs,
                extra_output_ids@.len() == i2 - n_initial_outputs,
            decreases all_output_ids@.len() - i2,
        {
            extra_output_ids.push(all_output_ids[i2]);
            i2 += 1;
        }
        callback.post_create(self, id);
        (id, extra_input_ids, extra_output_ids)
    }
}

impl<N: Node> Graph<N> {
    /// Both ports may be linked: they belong to different nodes and the
    /// output's type converts to the input's type.
    pub open spec fn spec_can_connect(self, sp: OutputPortId, ep: InputPortId) -> bool {
        self.output_port(sp).node != self.input_port(ep).node && self.output_port(
            sp,
        ).ty.convertible_to(self.input_port(ep).ty)
    }

    /// Pure predicate for pre-validating a `connect` call: true exactly when
    /// the two resolved ports belong to different nodes and the output type
    /// converts to the input type.
    pub fn can_connect<RO: OutputPortReference<N>, RI: InputPortReference<N>>(
        &self,
        start_port: RO,
        end_port: RI,
    ) -> (r: bool)
        requires
            self.wf(),
            RO::spec_resolve(start_port, *self) is Some,
            self.has_output_port(RO::spec_resolve(start_port, *self)->Some_0),
            RI::spec_resolve(end_port, *self) is Some,
            self.has_input_port(RI::spec_resolve(end_port, *self)->Some_0),
        ensures
            r == self.spec_can_connect(
                RO::spec_resolve(start_port, *self)->Some_0,
                RI::spec_resolve(end_port, *self)->Some_0,
            ),
    {
        let sp = match start_port.resolve(self) {
            Some(p) => p,
            None => { proof { assert(false); } unreached() },
        };
        let ep = match end_port.resolve(self) {
            Some(p) => p,
            None => { proof { assert(false); } unreached() },
        };
        let start = match self.output_ports.get(sp.index, sp.generation) {
            Some(p) => p,
            None => { proof { assert(false); } unreached() },
        };
        let end = match self.input_ports.get(ep.index, ep.generation) {
            Some(p) => p,
            None => { proof { assert(false); } unreached() },
        };
        let differs = !(start.node.index == end.node.index && start.node.generation
            == end.node.generation);
        differs && start.ty.can_convert_to(end.ty)
    }

    /// Link an output port to an input port. All preconditions (both
    /// references resolve to live ports, distinct owning nodes, convertible
    /// types) are validated before any mutation, so a `connect` the caller
    /// has checked with `can_connect` is atomic. The connection is appended
    /// to the output port's outgoing list and the input port's incoming
    /// list, and both owning nodes are notified.
    pub fn connect<RO: OutputPortReference<N>, RI: InputPortReference<N>>(
        &mut self,
        start_port: RO,
        end_port: RI,
    ) -> (c: ConnectionId)
        requires
            old(self).wf(),
            old(self).states_present(),
            RO::spec_resolve(start_port, *old(self)) is Some,
            old(self).has_output_port(RO::spec_resolve(start_port, *old(self))->Some_0),
            RI::spec_resolve(end_port, *old(self)) is Some,
            old(self).has_input_port(RI::spec_resolve(end_port, *old(self))->Some_0),
            old(self).spec_can_connect(
                RO::spec_resolve(start_port, *old(self))->Some_0,
                RI::spec_resolve(end_port, *old(self))->Some_0,
            ),
        ensures
            final(self).wf(),
            final(self).states_present(),
            !old(self).has_connection(c),
            final(self).has_connection(c),
            final(self).connection(c).start_port == RO::spec_resolve(
                start_port,
                *old(self),
            )->Some_0,
            final(self).connection(c).end_port == RI::spec_resolve(end_port, *old(self))->Some_0,
            ({
                let sp = RO::spec_resolve(start_port, *old(self))->Some_0;
                &&& final(self).has_output_port(sp)
                &&& final(self).output_port(sp).outgoing_connections@ == old(self).output_port(
                    sp,
                ).outgoing_connections@.push(c)
                &&& final(self).output_port(sp).node == old(self).output_port(sp).node
                &&& final(self).output_port(sp).name == old(self).output_port(sp).name
                &&& final(self).output_port(sp).ty == old(self).output_port(sp).ty
            }),
            ({
                let ep = RI::spec_resolve(end_port, *old(self))->Some_0;
                &&& final(self).has_input_port(ep)
                &&& final(self).input_port(ep).incoming_connections@ == old(self).input_port(
                    ep,
                ).incoming_connections@.push(c)
                &&& final(self).input_port(ep).node == old(self).input_port(ep).node
                &&& final(self).input_port(ep).name == old(self).input_port(ep).name
                &&& final(self).input_port(ep).ty == old(self).input_port(ep).ty
                &&& final(self).input_port(ep).default == old(self).input_port(ep).default
            }),
            forall|n: NodeId| #![all_triggers] final(self).has_node(n) == old(self).has_node(n),
            forall|n: NodeId|
                old(self).has_node(n) ==> #[trigger] final(self).node_inputs(n) == old(
                    self,
                ).node_inputs(n),
            forall|n: NodeId|
                old(self).has_node(n) ==> #[trigger] final(self).node_outputs(n) == old(
                    self,
                ).node_outputs(n),
            forall|n: NodeId|
                old(self).has_node(n) && n != old(self).output_port(
                    RO::spec_resolve(start_port, *old(self))->Some_0,
                ).node && n != old(self).input_port(
                    RI::spec_resolve(end_port, *old(self))->Some_0,
                ).node ==> #[trigger] final(self).node_state(n) == old(self).node_state(n),
            forall|q: InputPortId|
                #![all_triggers]
                final(self).has_input_port(q) == old(self).has_input_port(q),
            forall|q: InputPortId|
                old(self).has_input_port(q) && q != RI::spec_resolve(end_port, *old(self))->Some_0
                    ==> #[trigger] final(self).input_port(q) == old(self).input_port(q),
            forall|q: OutputPortId|
                #![all_triggers]
                final(self).has_output_port(q) == old(self).has_output_port(q),
            forall|q: OutputPortId|
                old(self).has_output_port(q) && q != RO::spec_resolve(
                    start_port,
                    *old(self),
                )->Some_0 ==> #[trigger] final(self).output_port(q) == old(self).output_port(q),
            forall|c2: ConnectionId|
                #![all_triggers]
                c2 != c ==> final(self).has_connection(c2) == old(self).has_connection(c2),
            forall|c2: ConnectionId|
                old(self).has_connection(c2) ==> #[trigger] final(self).connection(c2) == old(
                    self,
                ).connection(c2),
    {
        let sp = match start_port.resolve(self) {
            Some(p) => p,
            None => { proof { assert(false); } unreached() },
        };
        let ep = match end_port.resolve(self) {
            Some(p) => p,
            None => { proof { assert(false); } unreached() },
        };
        let start_owner = match self.output_ports.get(sp.index, sp.generation) {
            Some(p) => p.node,
            None => { proof { assert(false); } unreached() },
        };
        let end_owner = match self.input_ports.get(ep.index, ep.generation) {
            Some(p) => p.node,
            None => { proof { assert(false); } unreached() },
        };
        let key = self.connections.insert(Connection { start_port: sp, end_port: ep });
        let c = ConnectionId { index: key.0, generation: key.1 };
        let start_ref = self.output_ports.borrow_mut(sp.index, sp.generation);
        start_ref.outgoing_connections.push(c);
        let end_ref = self.input_ports.borrow_mut(ep.index, ep.generation);
        end_ref.incoming_connections.push(c);
        proof {
            let g1 = *old(self);
            let g2 = *self;
            assert(g2.input_port(ep).incoming_connections@ == g1.input_port(
                ep,
            ).incoming_connections@.push(c));
            assert(g2.output_port(sp).outgoing_connections@ == g1.output_port(
                sp,
            ).outgoing_connections@.push(c));
            assert forall|n: NodeId| #[trigger] g2.has_node(n) implies {
                &&& forall|k: int|
                    0 <= k < g2.node_inputs(n).len() ==> {
                        let e = #[trigger] g2.node_inputs(n)[k];
                        &&& (g2.has_input_port(e.1) || g2.input_port_retired(e.1))
                        &&& g2.has_input_port(e.1) ==> g2.input_port(e.1).node == n
                            && g2.input_port(e.1).name@ == e.0@
                    }
                &&& forall|k: int|
                    0 <= k < g2.node_outputs(n).len() ==> {
                        let e = #[trigger] g2.node_outputs(n)[k];
                        &&& (g2.has_output_port(e.1) || g2.output_port_retired(e.1))
                        &&& g2.has_output_port(e.1) ==> g2.output_port(e.1).node == n
                            && g2.output_port(e.1).name@ == e.0@
                    }
            } by {
                assert(g1.has_node(n));
                assert forall|k: int| 0 <= k < g2.node_inputs(n).len() implies {
                    let e = #[trigger] g2.node_inputs(n)[k];
                    &&& (g2.has_input_port(e.1) || g2.input_port_retired(e.1))
                    &&& g2.has_input_port(e.1) ==> g2.input_port(e.1).node == n && g2.input_port(
                        e.1,
                    ).name@ == e.0@
                } by {
                    let e = g1.node_inputs(n)[k];
                    assert(g1.has_input_port(e.1) || g1.input_port_retired(e.1));
                    if g1.has_input_port(e.1) && e.1 == ep {
                        assert(g2.input_port(ep).node == g1.input_port(ep).node);
                        assert(g2.input_port(ep).name == g1.input_port(ep).name);
                    }
                }
                assert forall|k: int| 0 <= k < g2.node_outputs(n).len() implies {
                    let e = #[trigger] g2.node_outputs(n)[k];
                    &&& (g2.has_output_port(e.1) || g2.output_port_retired(e.1))
                    &&& g2.has_output_port(e.1) ==> g2.output_port(e.1).node == n
                        && g2.output_port(e.1).name@ == e.0@
                } by {
                    let e = g1.node_outputs(n)[k];
                    assert(g1.has_output_port(e.1) || g1.output_port_retired(e.1));
                    if g1.has_output_port(e.1) && e.1 == sp {
                        assert(g2.output_port(sp).node == g1.output_port(sp).node);
                        assert(g2.output_port(sp).name == g1.output_port(sp).name);
                    }
                }
            }
            assert(g2.wf_nodes());
            assert forall|q: InputPortId| #[trigger] g2.has_input_port(q) implies {
                let port = g2.input_port(q);
                &&& g2.has_node(port.node)
                &&& exists|k: int|
                    0 <= k < g2.node_inputs(port.node).len() && (#[trigger] g2.node_inputs(
                        port.node,
                    )[k]).1 == q
                &&& port.outgoing_connections@.len() == 0
                &&& forall|j: int|
                    0 <= j < port.incoming_connections@.len() ==> g2.has_connection(
                        #[trigger] port.incoming_connections@[j],
                    ) && g2.connection(port.incoming_connections@[j]).end_port == q
                &&& forall|j1: int, j2: int|
                    0 <= j1 < j2 < port.incoming_connections@.len()
                        ==> #[trigger] port.incoming_connections@[j1]
                        != #[trigger] port.incoming_connections@[j2]
            } by {
                assert(g1.has_input_port(q));
                let old_port = g1.input_port(q);
                assert(g2.input_port(q).node == old_port.node);
                assert(g1.has_node(old_port.node));
                let k = choose|k: int|
                    0 <= k < g1.node_inputs(old_port.node).len() && (#[trigger] g1.node_inputs(
                        old_port.node,
                    )[k]).1 == q;
                assert((g2.node_inputs(old_port.node)[k]).1 == q);
                if q == ep {
                    let inc = g2.input_port(q).incoming_connections@;
                    assert forall|j: int| 0 <= j < inc.len() implies g2.has_connection(
                        #[trigger] inc[j],
                    ) && g2.connection(inc[j]).end_port == q by {
                        if j < inc.len() - 1 {
                            assert(inc[j] == old_port.incoming_connections@[j]);
                            assert(g1.has_connection(inc[j]));
                        } else {
                            assert(inc[j] == c);
                        }
                    }
                    assert forall|j1: int, j2: int|
                        0 <= j1 < j2 < inc.len() implies #[trigger] inc[j1] != #[trigger] inc[j2] by {
                        if j2 == inc.len() - 1 {
                            assert(inc[j1] == old_port.incoming_connections@[j1]);
                            assert(g1.has_connection(inc[j1]));
                            assert(!g1.has_connection(c));
                        } else {
                            assert(inc[j1] == old_port.incoming_connections@[j1]);
                            assert(inc[j2] == old_port.incoming_connections@[j2]);
                        }
                    }
                } else {
                    assert(g2.input_port(q) == old_port);
                    assert forall|j: int|
                        0 <= j < old_port.incoming_connections@.len() implies g2.has_connection(
                        #[trigger] old_port.incoming_connections@[j],
                    ) && g2.connection(old_port.incoming_connections@[j]).end_port == q by {
                        assert(g1.has_connection(old_port.incoming_connections@[j]));
                    }
                }
            }
            assert(g2.wf_input_ports());
            assert forall|q: OutputPortId| #[trigger] g2.has_output_port(q) implies {
                let port = g2.output_port(q);
                &&& g2.has_node(port.node)
                &&& exists|k: int|
                    0 <= k < g2.node_outputs(port.node).len() && (#[trigger] g2.node_outputs(
                        port.node,
                    )[k]).1 == q
                &&& port.incoming_connections@.len() == 0
                &&& forall|j: int|
                    0 <= j < port.outgoing_connections@.len() ==> g2.has_connection(
                        #[trigger] port.outgoing_connections@[j],
                    ) && g2.connection(port.outgoing_connections@[j]).start_port == q
                &&& forall|j1: int, j2: int|
                    0 <= j1 < j2 < port.outgoing_connections@.len()
                        ==> #[trigger] port.outgoing_connections@[j1]
                        != #[trigger] port.outgoing_connections@[j2]
            } by {
                assert(g1.has_output_port(q));
                let old_port = g1.output_port(q);
                assert(g2.output_port(q).node == old_port.node);
                assert(g1.has_node(old_port.node));
                let k = choose|k: int|
                    0 <= k < g1.node_outputs(old_port.node).len() && (#[trigger] g1.node_outputs(
                        old_port.node,
                    )[k]).1 == q;
                assert((g2.node_outputs(old_port.node)[k]).1 == q);
                if q == sp {
                    let out = g2.output_port(q).outgoing_connections@;
                    assert forall|j: int| 0 <= j < out.len() implies g2.has_connection(
                        #[trigger] out[j],
                    ) && g2.connection(out[j]).start_port == q by {
                        if j < out.len() - 1 {
                            assert(out[j] == old_port.outgoing_connections@[j]);
                            assert(g1.has_connection(out[j]));
                        } else {
                            assert(out[j] == c);
                        }
                    }
                    assert forall|j1: int, j2: int|
                        0 <= j1 < j2 < out.len() implies #[trigger] out[j1] != #[trigger] out[j2] by {
                        if j2 == out.len() - 1 {
                            assert(out[j1] == old_port.outgoing_connections@[j1]);
                            assert(g1.has_connection(out[j1]));
                            assert(!g1.has_connection(c));
                        } else {
                            assert(out[j1] == old_port.outgoing_connections@[j1]);
                            assert(out[j2] == old_port.outgoing_connections@[j2]);
                        }
                    }
                } else {
                    assert(g2.output_port(q) == old_port);
                    assert forall|j: int|
                        0 <= j < old_port.outgoing_connections@.len() implies g2.has_connection(
                        #[trigger] old_port.outgoing_connections@[j],
                    ) && g2.connection(old_port.outgoing_connections@[j]).start_port == q by {
                        assert(g1.has_connection(old_port.outgoing_connections@[j]));
                    }
                }
            }
            assert(g2.wf_output_ports());
            assert forall|c2: ConnectionId| #[trigger] g2.has_connection(c2) implies {
                let conn = g2.connection(c2);
                &&& g2.has_output_port(conn.start_port)
                &&& g2.has_input_port(conn.end_port)
                &&& g2.output_port(conn.start_port).outgoing_connections@.contains(c2)
                &&& g2.input_port(conn.end_port).incoming_connections@.contains(c2)
                &&& g2.output_port(conn.start_port).node != g2.input_port(conn.end_port).node
                &&& g2.output_port(conn.start_port).ty.convertible_to(
                    g2.input_port(conn.end_port).ty,
                )
            } by {
                if c2 == c {
                    let idx = g2.output_port(sp).outgoing_connections@.len() - 1;
                    assert(g2.output_port(sp).outgoing_connections@[idx] == c);
                    let idx2 = g2.input_port(ep).incoming_connections@.len() - 1;
                    assert(g2.input_port(ep).incoming_connections@[idx2] == c);
                } else {
                    assert(g1.has_connection(c2));
                    let conn = g1.connection(c2);
                    assert(g2.connection(c2) == conn);
                    assert(g1.has_output_port(conn.start_port));
                    assert(g1.has_input_port(conn.end_port));
                    assert(g1.output_port(conn.start_port).outgoing_connections@.contains(c2));
                    if conn.start_port == sp {
                        let j = choose|j: int|
                            0 <= j < g1.output_port(sp).outgoing_connections@.len()
                                && g1.output_port(sp).outgoing_connections@[j] == c2;
                        assert(g2.output_port(sp).outgoing_connections@[j] == c2);
                    }
                    if conn.end_port == ep {
                        let j = choose|j: int|
                            0 <= j < g1.input_port(ep).incoming_connections@.len()
                                && g1.input_port(ep).incoming_connections@[j] == c2;
                        assert(g2.input_port(ep).incoming_connections@[j] == c2);
                    }
                }
            }
            assert(g2.wf_connections());
        }
        let ghost g_mid = *self;
        self.with_state_connection_added(start_owner, None, Some(sp), c);
        proof {
            assert(structure_eq(g_mid, *self));
            lemma_wf_from_structure_eq(g_mid, *self);
        }
        let ghost g_mid2 = *self;
        self.with_state_connection_added(end_owner, Some(ep), None, c);
        proof {
            assert(structure_eq(g_mid2, *self));
            lemma_wf_from_structure_eq(g_mid2, *self);
            assert forall|n: NodeId| #[trigger] self.has_node(n) implies self.node_state(n)
                is Some by {
                assert(old(self).has_node(n));
                if n != start_owner && n != end_owner {
                    assert(g_mid.node_state(n) == old(self).node_state(n));
                    assert(g_mid2.node_state(n) == g_mid.node_state(n));
                }
            }
        }
        c
    }
}

/// Filtering with pointwise-equivalent predicates yields the same sequence.
proof fn lemma_filter_equiv<T>(s: Seq<T>, p: spec_fn(T) -> bool, q: spec_fn(T) -> bool)
    requires
        forall|i: int| 0 <= i < s.len() ==> (p(#[trigger] s[i]) <==> q(s[i])),
    ensures
        s.filter(p) == s.filter(q),
    decreases s.len(),
{
    reveal(Seq::filter);
    if s.len() > 0 {
        assert forall|i: int| 0 <= i < s.drop_last().len() implies (p(
            #[trigger] s.drop_last()[i],
        ) <==> q(s.drop_last()[i])) by {
            assert(s.drop_last()[i] == s[i]);
        }
        lemma_filter_equiv(s.drop_last(), p, q);
        assert(p(s.last()) <==> q(s.last()));
    }
}

/// Two filters in a row are one filter by the conjunction.
proof fn lemma_filter_compose<T>(
    s: Seq<T>,
    p: spec_fn(T) -> bool,
    q: spec_fn(T) -> bool,
    pq: spec_fn(T) -> bool,
)
    requires
        forall|x: T| #[trigger] pq(x) <==> (p(x) && q(x)),
    ensures
        s.filter(p).filter(q) == s.filter(pq),
    decreases s.len(),
{
    reveal(Seq::filter);
    if s.len() > 0 {
        lemma_filter_compose(s.drop_last(), p, q, pq);
        if p(s.last()) {
            assert(s.filter(p) == s.drop_last().filter(p).push(s.last()));
            assert(s.filter(p).drop_last() == s.drop_last().filter(p));
            assert(s.filter(p).last() == s.last());
        } else {
            assert(s.filter(p) == s.drop_last().filter(p));
        }
        assert(pq(s.last()) <==> (p(s.last()) && q(s.last())));
    }
}

/// Membership in a sequence extended by one element: exactly the old
/// members and the new element.
pub(crate) proof fn lemma_seq_push_contains<T>(s: Seq<T>, y: T, x: T)
    ensures
        s.push(y).contains(x) <==> (s.contains(x) || x == y),
{
    assert(s.push(y)[s.len() as int] == y);
    if s.contains(x) {
        let i = choose|i: int| 0 <= i < s.len() && s[i] == x;
        assert(s.push(y)[i] == x);
    }
    if s.push(y).contains(x) {
        let i = choose|i: int| 0 <= i < s.push(y).len() && s.push(y)[i] == x;
        if i < s.len() {
            assert(s[i] == x);
        }
    }
}

/// Relies on itertools' `unique` (`Itertools::unique`): it yields each
/// distinct element of the input once, keeping first occurrences, so the
/// result holds exactly the distinct elements of the input.
#[verifier::external_body]
fn dedup_node_ids(v: Vec<NodeId>) -> (r: Vec<NodeId>)
    ensures
        forall|i: int, j: int| 0 <= i < j < r@.len() ==> r@[i] != r@[j],
        forall|x: NodeId| #[trigger] r@.contains(x) == v@.contains(x),
{
    v.into_iter().unique().collect()
}

impl<N: Node> Graph<N> {
    /// The start (producing output) ports of every connection arriving at an
    /// input port, in the order the connections are attached.
    pub fn get_incoming_connections<R: InputPortReference<N>>(&self, port: R) -> (r: Vec<
        OutputPortId,
    >)
        requires
            self.wf(),
            R::spec_resolve(port, *self) is Some,
            self.has_input_port(R::spec_resolve(port, *self)->Some_0),
        ensures
            ({
                let p = R::spec_resolve(port, *self)->Some_0;
                &&& r@.len() == self.input_port(p).incoming_connections@.len()
                &&& forall|j: int|
                    0 <= j < r@.len() ==> #[trigger] r@[j] == self.connection(
                        self.input_port(p).incoming_connections@[j],
                    ).start_port
            }),
    {
        let p = match port.resolve(self) {
            Some(p) => p,
            None => { proof { assert(false); } unreached() },
        };
        let port_rec = match self.input_ports.get(p.index, p.generation) {
            Some(x) => x,
            None => { proof { assert(false); } unreached() },
        };
        let n = port_rec.incoming_connections.len();
        let mut r: Vec<OutputPortId> = Vec::new();
        let mut j: usize = 0;
        while j < n
            invariant
                self.wf(),
                self.has_input_port(p),
                port_rec == self.input_port(p),
                n == port_rec.incoming_connections@.len(),
                0 <= j <= n,
                r@.len() == j,
                forall|i: int|
                    0 <= i < j ==> #[trigger] r@[i] == self.connection(
                        self.input_port(p).incoming_connections@[i],
                    ).start_port,
            decreases n - j,
        {
            let c = port_rec.incoming_connections[j];
            let conn = match self.connections.get(c.index, c.generation) {
                Some(x) => x,
                None => { proof { assert(false); } unreached() },
            };
            r.push(conn.start_port);
            j += 1;
        }
        r
    }

    /// The end (consuming input) ports of every connection leaving an output
    /// port, in the order the connections are attached.
    pub fn get_outgoing_connections<R: OutputPortReference<N>>(&self, port: R) -> (r: Vec<
        InputPortId,
    >)
        requires
            self.wf(),
            R::spec_resolve(port, *self) is Some,
            self.has_output_port(R::spec_resolve(port, *self)->Some_0),
        ensures
            ({
                let p = R::spec_resolve(port, *self)->Some_0;
                &&& r@.len() == self.output_port(p).outgoing_connections@.len()
                &&& forall|j: int|
                    0 <= j < r@.len() ==> #[trigger] r@[j] == self.connection(
                        self.output_port(p).outgoing_connections@[j],
                    ).end_port
            }),
    {
        let p = match port.resolve(self) {
            Some(p) => p,
            None => { proof { assert(false); } unreached() },
        };
        let port_rec = match self.output_ports.get(p.index, p.generation) {
            Some(x) => x,
            None => { proof { assert(false); } unreached() },
        };
        let n = port_rec.outgoing_connections.len();
        let mut r: Vec<InputPortId> = Vec::new();
        let mut j: usize = 0;
        while j < n
            invariant
                self.wf(),
                self.has_output_port(p),
                port_rec == self.output_port(p),
                n == port_rec.outgoing_connections@.len(),
                0 <= j <= n,
                r@.len() == j,
                forall|i: int|
                    0 <= i < j ==> #[trigger] r@[i] == self.connection(
                        self.output_port(p).outgoing_connections@[i],
                    ).end_port,
            decreases n - j,
        {
            let c = port_rec.outgoing_connections[j];
            let conn = match self.connections.get(c.index, c.generation) {
                Some(x) => x,
                None => { proof { assert(false); } unreached() },
            };
            r.push(conn.end_port);
            j += 1;
        }
        r
    }

    /// The deduplicated set of nodes owning the output side of any connection
    /// feeding any of this node's input ports: exactly the nodes `a` with
    /// `dep_edge(a, node)`, each listed once.
    pub fn get_direct_dependencies(&self, node: NodeId) -> (r: Vec<NodeId>)
        requires
            self.wf(),
            self.has_node(node),
        ensures
            forall|i: int, j: int| 0 <= i < j < r@.len() ==> r@[i] != r@[j],
            forall|a: NodeId| #[trigger] r@.contains(a) == self.dep_edge(a, node),
    {
        let entries = match self.node_data.get(node.index, node.generation) {
            Some(rec) => &rec.data.inputs,
            None => { proof { assert(false); } unreached() },
        };
        let n = entries.len();
        let mut acc: Vec<NodeId> = Vec::new();
        let mut k: usize = 0;
        while k < n
            invariant
                self.wf(),
                self.has_node(node),
                entries@ == self.node_inputs(node),
                n == entries@.len(),
                0 <= k <= n,
                forall|a: NodeId| #[trigger] acc@.contains(a) ==> self.dep_edge(a, node),
                forall|kk: int, j: int|
                    0 <= kk < k && self.has_input_port(self.node_inputs(node)[kk].1) && 0 <= j
                        < self.input_port(
                        self.node_inputs(node)[kk].1,
                    ).incoming_connections@.len() ==> acc@.contains(
                        self.output_port(
                            self.connection(
                                #[trigger] self.input_port(
                                    self.node_inputs(node)[kk].1,
                                ).incoming_connections@[j],
                            ).start_port,
                        ).node,
                    ),
            decreases n - k,
        {
            let pid = entries[k].1;
            match self.input_ports.get(pid.index, pid.generation) {
                None => (),
                Some(port_rec) => {
                    let m = port_rec.incoming_connections.len();
                    let mut j: usize = 0;
                    while j < m
                        invariant
                            self.wf(),
                            self.has_node(node),
                            entries@ == self.node_inputs(node),
                            n == entries@.len(),
                            0 <= k < n,
                            pid == self.node_inputs(node)[k as int].1,
                            self.has_input_port(pid),
                            port_rec == self.input_port(pid),
                            m == port_rec.incoming_connections@.len(),
                            0 <= j <= m,
                            forall|a: NodeId| #[trigger] acc@.contains(a) ==> self.dep_edge(
                                a,
                                node,
                            ),
                            forall|kk: int, jj: int|
                                0 <= kk < k && self.has_input_port(self.node_inputs(node)[kk].1)
                                    && 0 <= jj < self.input_port(
                                    self.node_inputs(node)[kk].1,
                                ).incoming_connections@.len() ==> acc@.contains(
                                    self.output_port(
                                        self.connection(
                                            #[trigger] self.input_port(
                                                self.node_inputs(node)[kk].1,
                                            ).incoming_connections@[jj],
                                        ).start_port,
                                    ).node,
                                ),
                            forall|jj: int|
                                0 <= jj < j ==> acc@.contains(
                                    self.output_port(
                                        self.connection(
                                            #[trigger] self.input_port(
                                                pid,
                                            ).incoming_connections@[jj],
                                        ).start_port,
                                    ).node,
                                ),
                        decreases m - j,
                    {
                        let c = port_rec.incoming_connections[j];
                        let conn = match self.connections.get(c.index, c.generation) {
                            Some(x) => x,
                            None => { proof { assert(false); } unreached() },
                        };
                        let producer = match self.output_ports.get(
                            conn.start_port.index,
                            conn.start_port.generation,
                        ) {
                            Some(x) => x.node,
                            None => { proof { assert(false); } unreached() },
                        };
                        proof {
                            assert(self.input_port(pid).node == node);
                            assert(self.dep_edge(producer, node));
                        }
                        let ghost acc_pre = acc@;
                        acc.push(producer);
                        proof {
                            assert(acc@ == acc_pre.push(producer));
                            assert forall|a: NodeId| #[trigger] acc@.contains(a) implies self.dep_edge(
                                a,
                                node,
                            ) by {
                                lemma_seq_push_contains(acc_pre, producer, a);
                            }
                            assert forall|kk: int, jj: int|
                                0 <= kk < k && self.has_input_port(self.node_inputs(node)[kk].1)
                                    && 0 <= jj < self.input_port(
                                    self.node_inputs(node)[kk].1,
                                ).incoming_connections@.len() implies acc@.contains(
                                self.output_port(
                                    self.connection(
                                        #[trigger] self.input_port(
                                            self.node_inputs(node)[kk].1,
                                        ).incoming_connections@[jj],
                                    ).start_port,
                                ).node,
                            ) by {
                                let x = self.output_port(
                                    self.connection(
                                        self.input_port(
                                            self.node_inputs(node)[kk].1,
                                        ).incoming_connections@[jj],
                                    ).start_port,
                                ).node;
                                assert(acc_pre.contains(x));
                                lemma_seq_push_contains(acc_pre, producer, x);
                            }
                            assert forall|jj: int| 0 <= jj < j + 1 implies acc@.contains(
                                self.output_port(
                                    self.connection(
                                        #[trigger] self.input_port(pid).incoming_connections@[jj],
                                    ).start_port,
                                ).node,
                            ) by {
                                let x = self.output_port(
                                    self.connection(
                                        self.input_port(pid).incoming_connections@[jj],
                                    ).start_port,
                                ).node;
                                if jj < j {
                                    assert(acc_pre.contains(x));
                                }
                                lemma_seq_push_contains(acc_pre, producer, x);
                            }
                        }
                        j += 1;
                    }
                },
            }
            k += 1;
        }
        proof {
            assert forall|a: NodeId| #[trigger] self.dep_edge(a, node) implies acc@.contains(
                a,
            ) by {
                let c = choose|c: ConnectionId|
                    #![trigger self.connection(c)]
                    self.has_connection(c) && self.output_port(self.connection(c).start_port).node
                        == a && self.input_port(self.connection(c).end_port).node == node;
                let p = self.connection(c).end_port;
                assert(self.has_input_port(p));
                let kk = choose|kk: int|
                    0 <= kk < self.node_inputs(node).len() && (#[trigger] self.node_inputs(
                        node,
                    )[kk]).1 == p;
                assert(self.input_port(p).incoming_connections@.contains(c));
                let j = choose|j: int|
                    0 <= j < self.input_port(p).incoming_connections@.len() && self.input_port(
                        p,
                    ).incoming_connections@[j] == c;
                assert(acc@.contains(
                    self.output_port(
                        self.connection(
                            self.input_port(self.node_inputs(node)[kk].1).incoming_connections@[j],
                        ).start_port,
                    ).node,
                ));
            }
        }
        dedup_node_ids(acc)
    }
}

/// The predicate "is not one of these connections", used to describe how a
/// cascading delete prunes the counterpart side's connection lists.
pub open spec fn excluding(excl: Seq<ConnectionId>) -> spec_fn(ConnectionId) -> bool {
    |x: ConnectionId| !excl.contains(x)
}

/// The predicate "is not this connection".
spec fn not_equal_to(c: ConnectionId) -> spec_fn(ConnectionId) -> bool {
    |x: ConnectionId| x != c
}

/// Filtering with a predicate that holds of every element changes nothing.
proof fn lemma_filter_all<T>(s: Seq<T>, p: spec_fn(T) -> bool)
    requires
        forall|i: int| 0 <= i < s.len() ==> p(#[trigger] s[i]),
    ensures
        s.filter(p) == s,
    decreases s.len(),
{
    reveal(Seq::filter);
    if s.len() > 0 {
        let rest = s.drop_last();
        assert forall|i: int| 0 <= i < rest.len() implies p(#[trigger] rest[i]) by {
            assert(rest[i] == s[i]);
        }
        lemma_filter_all(rest, p);
        assert(p(s.last()));
        assert(rest.push(s.last()) =~= s);
    }
}

/// Filtering a duplicate-free sequence yields a duplicate-free sequence.
proof fn lemma_filter_nodup<T>(s: Seq<T>, p: spec_fn(T) -> bool)
    requires
        forall|i1: int, i2: int| 0 <= i1 < i2 < s.len() ==> s[i1] != s[i2],
    ensures
        forall|i1: int, i2: int|
            0 <= i1 < i2 < s.filter(p).len() ==> s.filter(p)[i1] != s.filter(p)[i2],
    decreases s.len(),
{
    reveal(Seq::filter);
    if s.len() > 0 {
        let rest = s.drop_last();
        assert forall|i1: int, i2: int| 0 <= i1 < i2 < rest.len() implies rest[i1] != rest[i2] by {
            assert(rest[i1] == s[i1]);
            assert(rest[i2] == s[i2]);
        }
        lemma_filter_nodup(rest, p);
        if p(s.last()) {
            let f = s.filter(p);
            assert(f == rest.filter(p).push(s.last()));
            assert forall|i1: int, i2: int| 0 <= i1 < i2 < f.len() implies f[i1] != f[i2] by {
                if i2 == f.len() - 1 {
                    assert(f[i1] == rest.filter(p)[i1]);
                    assert(rest.filter(p).contains(f[i1]));
                    rest.lemma_filter_contains_rev(p, f[i1]);
                    let w = choose|w: int| 0 <= w < rest.len() && rest[w] == f[i1];
                    assert(rest[w] == s[w]) by {
                        assert(rest =~= s.subrange(0, s.len() - 1));
                    }
                    assert(s[w] != s[s.len() - 1]);
                    assert(f[i2] == s.last());
                }
            }
        }
    }
}

impl<N: Node> Graph<N> {
    /// The node owns the output side of one of these connections: its state
    /// may have been touched by a removal hook.
    pub open spec fn spec_notified_of_removal(
        self,
        removed: Seq<ConnectionId>,
        n: NodeId,
    ) -> bool {
        exists|j: int|
            0 <= j < removed.len() && self.output_port(
                self.connection(#[trigger] removed[j]).start_port,
            ).node == n
    }

    /// Remove an input port. Every connection attached to it is removed as
    /// well: each such connection disappears from its start port's outgoing
    /// list, and the start port's owning node is notified through its
    /// `output_connection_removed` hook. Returns `None`, changing nothing,
    /// when the reference does not resolve to a live port; otherwise
    /// succeeds unconditionally. The port's directory entry stays in place,
    /// so no other port's ordinal position moves.
    #[verifier::rlimit(100)]
    #[verifier::spinoff_prover]
    pub fn delete_input_port<R: InputPortReference<N>>(&mut self, port: R) -> (r: Option<()>)
        requires
            old(self).wf(),
            old(self).states_present(),
        ensures
            final(self).wf(),
            final(self).states_present(),
            (r is Some) == (R::spec_resolve(port, *old(self)) is Some && old(self).has_input_port(
                R::spec_resolve(port, *old(self))->Some_0,
            )),
            r is None ==> *final(self) == *old(self),
            r is Some ==> ({
                let p = R::spec_resolve(port, *old(self))->Some_0;
                let removed = old(self).input_port(p).incoming_connections@;
                &&& !final(self).has_input_port(p)
                &&& final(self).input_port_retired(p)
                &&& forall|q: InputPortId|
                    #![all_triggers]
                    q != p ==> final(self).has_input_port(q) == old(self).has_input_port(q)
                &&& forall|q: InputPortId|
                    old(self).has_input_port(q) && q != p ==> #[trigger] final(self).input_port(q)
                        == old(self).input_port(q)
                &&& forall|j: int|
                    0 <= j < removed.len() ==> !final(self).has_connection(#[trigger] removed[j])
                &&& forall|c: ConnectionId|
                    #![all_triggers]
                    !removed.contains(c) ==> final(self).has_connection(c) == old(
                        self,
                    ).has_connection(c)
                &&& forall|c: ConnectionId|
                    old(self).has_connection(c) && !removed.contains(c)
                        ==> #[trigger] final(self).connection(c) == old(self).connection(c)
                &&& forall|q: OutputPortId|
                    #![all_triggers]
                    final(self).has_output_port(q) == old(self).has_output_port(q)
                &&& forall|q: OutputPortId|
                    old(self).has_output_port(q) ==> {
                        &&& (#[trigger] final(self).output_port(q)).node == old(
                            self,
                        ).output_port(q).node
                        &&& final(self).output_port(q).name == old(self).output_port(q).name
                        &&& final(self).output_port(q).ty == old(self).output_port(q).ty
                        &&& final(self).output_port(q).outgoing_connections@ == old(
                            self,
                        ).output_port(q).outgoing_connections@.filter(excluding(removed))
                    }
                &&& forall|n: NodeId| #![all_triggers] final(self).has_node(n) == old(
                    self,
                ).has_node(n)
                &&& forall|n: NodeId|
                    old(self).has_node(n) ==> #[trigger] final(self).node_inputs(n) == old(
                        self,
                    ).node_inputs(n)
                &&& forall|n: NodeId|
                    old(self).has_node(n) ==> #[trigger] final(self).node_outputs(n) == old(
                        self,
                    ).node_outputs(n)
                &&& forall|n: NodeId|
                    old(self).has_node(n) && !old(self).spec_notified_of_removal(removed, n)
                        ==> #[trigger] final(self).node_state(n) == old(self).node_state(n)
            }),
    {
        let p = match port.resolve(self) {
            Some(p) => p,
            None => {
                return None;
            },
        };
        if self.input_ports.get(p.index, p.generation).is_none() {
            return None;
        }
        let ghost g0 = *old(self);
        let port_rec = self.input_ports.remove(p.index, p.generation);
        let inc = port_rec.incoming_connections;
        let ghost removed_all = g0.input_port(p).incoming_connections@;
        let m = inc.len();
        proof {
            assert forall|n: NodeId| #[trigger] self.has_node(n) implies self.node_state(n)
                is Some by {
                assert(g0.has_node(n));
                assert(self.node_state(n) == g0.node_state(n));
            }
            assert(removed_all.take(0) =~= Seq::<ConnectionId>::empty());
            assert forall|jj: int| 0 <= jj < removed_all.len() implies self.has_connection(
                #[trigger] removed_all[jj],
            ) && self.connection(removed_all[jj]) == g0.connection(removed_all[jj]) by {
                assert(g0.wf_input_ports());
                assert(g0.has_input_port(p));
                assert(g0.input_port(p).incoming_connections@[jj] == removed_all[jj]);
                assert(g0.has_connection(g0.input_port(p).incoming_connections@[jj]));
            }
            assert forall|q: OutputPortId| g0.has_output_port(q) implies self.output_port(
                q,
            ).outgoing_connections@ == g0.output_port(q).outgoing_connections@.filter(
                excluding(removed_all.take(0)),
            ) by {
                assert(self.output_port(q) == g0.output_port(q));
                assert forall|i: int|
                    0 <= i < g0.output_port(q).outgoing_connections@.len() implies excluding(
                    removed_all.take(0),
                )(#[trigger] g0.output_port(q).outgoing_connections@[i]) by {}
                lemma_filter_all(
                    g0.output_port(q).outgoing_connections@,
                    excluding(removed_all.take(0)),
                );
            }
        }
        let mut j: usize = 0;
        while j < m
            invariant
                self.node_data.wf(),
                self.connections.wf(),
                self.input_ports.wf(),
                self.output_ports.wf(),
                g0.wf(),
                g0.states_present(),
                g0.has_input_port(p),
                inc@ == removed_all,
                removed_all == g0.input_port(p).incoming_connections@,
                m == removed_all.len(),
                0 <= j <= m,
                !self.has_input_port(p),
                self.input_port_retired(p),
                forall|q: InputPortId|
                    #![all_triggers]
                    q != p ==> self.has_input_port(q) == g0.has_input_port(q),
                forall|q: InputPortId|
                    g0.has_input_port(q) && q != p ==> #[trigger] self.input_port(q)
                        == g0.input_port(q),
                forall|q: InputPortId|
                    g0.input_port_retired(q) ==> #[trigger] self.input_port_retired(q),
                forall|jj: int|
                    0 <= jj < j ==> !self.has_connection(#[trigger] removed_all[jj]),
                forall|jj: int|
                    j <= jj < m ==> self.has_connection(#[trigger] removed_all[jj])
                        && self.connection(removed_all[jj]) == g0.connection(removed_all[jj]),
                forall|c: ConnectionId|
                    #![all_triggers]
                    !removed_all.contains(c) ==> self.has_connection(c) == g0.has_connection(c),
                forall|c: ConnectionId|
                    g0.has_connection(c) && !removed_all.contains(c) ==> #[trigger] self.connection(
                        c,
                    ) == g0.connection(c),
                forall|q: OutputPortId|
                    #![all_triggers]
                    self.has_output_port(q) == g0.has_output_port(q),
                forall|q: OutputPortId|
                    g0.has_output_port(q) ==> {
                        &&& (#[trigger] self.output_port(q)).node == g0.output_port(q).node
                        &&& self.output_port(q).name == g0.output_port(q).name
                        &&& self.output_port(q).ty == g0.output_port(q).ty
                        &&& self.output_port(q).default == g0.output_port(q).default
                        &&& self.output_port(q).incoming_connections == g0.output_port(
                            q,
                        ).incoming_connections
                        &&& self.output_port(q).outgoing_connections@ == g0.output_port(
                            q,
                        ).outgoing_connections@.filter(excluding(removed_all.take(j as int)))
                    },
                forall|q: OutputPortId|
                    #![all_triggers]
                    self.output_port_retired(q) == g0.output_port_retired(q),
                forall|n: NodeId| #![all_triggers] self.has_node(n) == g0.has_node(n),
                forall|n: NodeId|
                    g0.has_node(n) ==> #[trigger] self.node_inputs(n) == g0.node_inputs(n),
                forall|n: NodeId|
                    g0.has_node(n) ==> #[trigger] self.node_outputs(n) == g0.node_outputs(n),
                forall|n: NodeId| #[trigger] self.has_node(n) ==> self.node_state(n) is Some,
                forall|n: NodeId|
                    g0.has_node(n) && !g0.spec_notified_of_removal(removed_all.take(j as int), n)
                        ==> #[trigger] self.node_state(n) == g0.node_state(n),
            decreases m - j,
        {
            let ghost s_top = *self;
            let c = inc[j];
            proof {
                assert(g0.has_connection(c));
                assert(g0.connection(c).end_port == p);
            }
            let conn = self.connections.remove(c.index, c.generation);
            let sp = conn.start_port;
            let ghost g_after_conn = *self;
            let src = match self.output_ports.get(sp.index, sp.generation) {
                Some(x) => x,
                None => { proof { assert(false); } unreached() },
            };
            let owner = src.node;
            let len_src = src.outgoing_connections.len();
            let mut filtered: Vec<ConnectionId> = Vec::new();
            let mut t: usize = 0;
            while t < len_src
                invariant
                    len_src == src.outgoing_connections@.len(),
                    0 <= t <= len_src,
                    filtered@ == src.outgoing_connections@.take(t as int).filter(
                        not_equal_to(c),
                    ),
                decreases len_src - t,
            {
                let x = src.outgoing_connections[t];
                proof {
                    reveal(Seq::filter);
                    assert(src.outgoing_connections@.take(t as int + 1).drop_last()
                        == src.outgoing_connections@.take(t as int));
                    assert(src.outgoing_connections@.take(t as int + 1).last() == x);
                }
                if !(x == c) {
                    filtered.push(x);
                }
                t += 1;
            }
            proof {
                assert(src.outgoing_connections@.take(len_src as int)
                    =~= src.outgoing_connections@);
                assert(self.output_port(sp) == s_top.output_port(sp));
                assert(s_top.output_port(sp).outgoing_connections@ == g0.output_port(
                    sp,
                ).outgoing_connections@.filter(excluding(removed_all.take(j as int))));
                assert(filtered@ == self.output_port(sp).outgoing_connections@.filter(
                    not_equal_to(c),
                ));
            }
            let dst = self.output_ports.borrow_mut(sp.index, sp.generation);
            dst.outgoing_connections = filtered;
            proof {
                let take_j = removed_all.take(j as int);
                let take_j1 = removed_all.take(j as int + 1);
                assert(take_j1 == take_j.push(c));
                // the pruned list of `sp` matches the next exclusion set
                assert forall|x: ConnectionId| #[trigger] excluding(take_j1)(x) <==> (excluding(
                    take_j,
                )(x) && not_equal_to(c)(x)) by {
                    lemma_seq_push_contains(take_j, c, x);
                }
                lemma_filter_compose(
                    g0.output_port(sp).outgoing_connections@,
                    excluding(take_j),
                    not_equal_to(c),
                    excluding(take_j1),
                );
                assert(self.output_port(sp).outgoing_connections@ == g0.output_port(
                    sp,
                ).outgoing_connections@.filter(excluding(take_j1)));
                // other output ports keep their lists; only the predicate advances
                assert forall|q: OutputPortId|
                    g0.has_output_port(q) && q != sp implies #[trigger] self.output_port(
                    q,
                ).outgoing_connections@ == g0.output_port(q).outgoing_connections@.filter(
                    excluding(take_j1),
                ) by {
                    assert(self.output_port(q) == s_top.output_port(q));
                    assert(s_top.output_port(q).outgoing_connections@ == g0.output_port(
                        q,
                    ).outgoing_connections@.filter(excluding(take_j)));
                    assert forall|i: int|
                        0 <= i < g0.output_port(q).outgoing_connections@.len() implies (excluding(
                        take_j,
                    )(#[trigger] g0.output_port(q).outgoing_connections@[i]) <==> excluding(
                        take_j1,
                    )(g0.output_port(q).outgoing_connections@[i])) by {
                        let x = g0.output_port(q).outgoing_connections@[i];
                        assert(g0.has_connection(x));
                        assert(g0.connection(x).start_port == q);
                        assert(x != c);
                        lemma_seq_push_contains(take_j, c, x);
                    }
                    lemma_filter_equiv(
                        g0.output_port(q).outgoing_connections@,
                        excluding(take_j),
                        excluding(take_j1),
                    );
                }
            }
            let ghost g_pre_hook = *self;
            self.with_state_connection_removed(owner, None, Some(sp), c);
            proof {
                let take_j1 = removed_all.take(j as int + 1);
                assert(g0.has_node(owner));
                assert forall|n: NodeId|
                    g0.has_node(n) && !g0.spec_notified_of_removal(take_j1, n)
                        implies #[trigger] self.node_state(n) == g0.node_state(n) by {
                    assert(g0.output_port(g0.connection(take_j1[j as int]).start_port).node
                        == owner);
                    assert(n != owner);
                    assert(!g0.spec_notified_of_removal(removed_all.take(j as int), n));
                    assert(g_pre_hook.node_state(n) == g0.node_state(n));
                }
            }
            proof {
                assert forall|q: InputPortId|
                    g0.has_input_port(q) && q != p implies #[trigger] self.input_port(q)
                    == g0.input_port(q) by {
                    assert(s_top.input_port(q) == g0.input_port(q));
                }
                assert forall|q: InputPortId|
                    g0.input_port_retired(q) implies #[trigger] self.input_port_retired(q) by {
                    assert(s_top.input_port_retired(q));
                }
                assert forall|q: OutputPortId| g0.has_output_port(q) implies {
                    &&& (#[trigger] self.output_port(q)).node == g0.output_port(q).node
                    &&& self.output_port(q).name == g0.output_port(q).name
                    &&& self.output_port(q).ty == g0.output_port(q).ty
                    &&& self.output_port(q).default == g0.output_port(q).default
                    &&& self.output_port(q).incoming_connections == g0.output_port(
                        q,
                    ).incoming_connections
                    &&& self.output_port(q).outgoing_connections@ == g0.output_port(
                        q,
                    ).outgoing_connections@.filter(excluding(removed_all.take(j as int + 1)))
                } by {
                    assert(self.output_port(q) == g_pre_hook.output_port(q));
                    assert(s_top.output_port(q).node == g0.output_port(q).node);
                    assert(s_top.output_port(q).name == g0.output_port(q).name);
                    assert(s_top.output_port(q).ty == g0.output_port(q).ty);
                    assert(s_top.output_port(q).default == g0.output_port(q).default);
                    assert(s_top.output_port(q).incoming_connections == g0.output_port(
                        q,
                    ).incoming_connections);
                    assert(g_pre_hook.output_port(q).outgoing_connections@ == g0.output_port(
                        q,
                    ).outgoing_connections@.filter(excluding(removed_all.take(j as int + 1))));
                }
                assert forall|c2: ConnectionId|
                    g0.has_connection(c2) && !removed_all.contains(c2)
                        implies #[trigger] self.connection(c2) == g0.connection(c2) by {
                    assert(s_top.connection(c2) == g0.connection(c2));
                }
                assert forall|n: NodeId|
                    g0.has_node(n) implies #[trigger] self.node_inputs(n) == g0.node_inputs(n) by {
                    assert(s_top.node_inputs(n) == g0.node_inputs(n));
                }
                assert forall|n: NodeId|
                    g0.has_node(n) implies #[trigger] self.node_outputs(n) == g0.node_outputs(
                    n,
                ) by {
                    assert(s_top.node_outputs(n) == g0.node_outputs(n));
                }
            }
            j += 1;
        }
        proof {
            assert(removed_all.take(m as int) == removed_all);
            let g2 = *self;
            // well-formedness of the pruned store
            assert forall|n: NodeId| #[trigger] g2.has_node(n) implies {
                &&& forall|k: int|
                    0 <= k < g2.node_inputs(n).len() ==> {
                        let e = #[trigger] g2.node_inputs(n)[k];
                        &&& (g2.has_input_port(e.1) || g2.input_port_retired(e.1))
                        &&& g2.has_input_port(e.1) ==> g2.input_port(e.1).node == n
                            && g2.input_port(e.1).name@ == e.0@
                    }
                &&& forall|k: int|
                    0 <= k < g2.node_outputs(n).len() ==> {
                        let e = #[trigger] g2.node_outputs(n)[k];
                        &&& (g2.has_output_port(e.1) || g2.output_port_retired(e.1))
                        &&& g2.has_output_port(e.1) ==> g2.output_port(e.1).node == n
                            && g2.output_port(e.1).name@ == e.0@
                    }
            } by {
                assert(g0.has_node(n));
                assert forall|k: int| 0 <= k < g2.node_inputs(n).len() implies {
                    let e = #[trigger] g2.node_inputs(n)[k];
                    &&& (g2.has_input_port(e.1) || g2.input_port_retired(e.1))
                    &&& g2.has_input_port(e.1) ==> g2.input_port(e.1).node == n && g2.input_port(
                        e.1,
                    ).name@ == e.0@
                } by {
                    let e = g0.node_inputs(n)[k];
                    assert(g0.has_input_port(e.1) || g0.input_port_retired(e.1));
                }
                assert forall|k: int| 0 <= k < g2.node_outputs(n).len() implies {
                    let e = #[trigger] g2.node_outputs(n)[k];
                    &&& (g2.has_output_port(e.1) || g2.output_port_retired(e.1))
                    &&& g2.has_output_port(e.1) ==> g2.output_port(e.1).node == n
                        && g2.output_port(e.1).name@ == e.0@
                } by {
                    let e = g0.node_outputs(n)[k];
                    assert(g0.has_output_port(e.1) || g0.output_port_retired(e.1));
                }
            }
            assert(g2.wf_nodes());
            assert forall|q: InputPortId| #[trigger] g2.has_input_port(q) implies {
                let port_v = g2.input_port(q);
                &&& g2.has_node(port_v.node)
                &&& exists|k: int|
                    0 <= k < g2.node_inputs(port_v.node).len() && (#[trigger] g2.node_inputs(
                        port_v.node,
                    )[k]).1 == q
                &&& port_v.outgoing_connections@.len() == 0
                &&& forall|jx: int|
                    0 <= jx < port_v.incoming_connections@.len() ==> g2.has_connection(
                        #[trigger] port_v.incoming_connections@[jx],
                    ) && g2.connection(port_v.incoming_connections@[jx]).end_port == q
                &&& forall|j1: int, j2: int|
                    0 <= j1 < j2 < port_v.incoming_connections@.len()
                        ==> #[trigger] port_v.incoming_connections@[j1]
                        != #[trigger] port_v.incoming_connections@[j2]
            } by {
                assert(q != p);
                assert(g0.has_input_port(q));
                let port_v = g0.input_port(q);
                assert(g2.input_port(q) == port_v);
                let k = choose|k: int|
                    0 <= k < g0.node_inputs(port_v.node).len() && (#[trigger] g0.node_inputs(
                        port_v.node,
                    )[k]).1 == q;
                assert((g2.node_inputs(port_v.node)[k]).1 == q);
                assert forall|jx: int|
                    0 <= jx < port_v.incoming_connections@.len() implies g2.has_connection(
                    #[trigger] port_v.incoming_connections@[jx],
                ) && g2.connection(port_v.incoming_connections@[jx]).end_port == q by {
                    let cx = port_v.incoming_connections@[jx];
                    assert(g0.has_connection(cx));
                    assert(g0.connection(cx).end_port == q);
                    if removed_all.contains(cx) {
                        let w = choose|w: int|
                            0 <= w < removed_all.len() && removed_all[w] == cx;
                        assert(g0.connection(removed_all[w]).end_port == p);
                        assert(false);
                    }
                }
            }
            assert(g2.wf_input_ports());
            assert forall|q: OutputPortId| #[trigger] g2.has_output_port(q) implies {
                let port_v = g2.output_port(q);
                &&& g2.has_node(port_v.node)
                &&& exists|k: int|
                    0 <= k < g2.node_outputs(port_v.node).len() && (#[trigger] g2.node_outputs(
                        port_v.node,
                    )[k]).1 == q
                &&& port_v.incoming_connections@.len() == 0
                &&& forall|jx: int|
                    0 <= jx < port_v.outgoing_connections@.len() ==> g2.has_connection(
                        #[trigger] port_v.outgoing_connections@[jx],
                    ) && g2.connection(port_v.outgoing_connections@[jx]).start_port == q
                &&& forall|j1: int, j2: int|
                    0 <= j1 < j2 < port_v.outgoing_connections@.len()
                        ==> #[trigger] port_v.outgoing_connections@[j1]
                        != #[trigger] port_v.outgoing_connections@[j2]
            } by {
                assert(g0.has_output_port(q));
                let old_port = g0.output_port(q);
                assert(g2.output_port(q).node == old_port.node);
                assert(g0.has_node(old_port.node));
                let k = choose|k: int|
                    0 <= k < g0.node_outputs(old_port.node).len() && (#[trigger] g0.node_outputs(
                        old_port.node,
                    )[k]).1 == q;
                assert((g2.node_outputs(old_port.node)[k]).1 == q);
                let pruned = g2.output_port(q).outgoing_connections@;
                assert(pruned == old_port.outgoing_connections@.filter(excluding(removed_all)));
                old_port.outgoing_connections@.filter_lemma(excluding(removed_all));
                assert forall|jx: int| 0 <= jx < pruned.len() implies g2.has_connection(
                    #[trigger] pruned[jx],
                ) && g2.connection(pruned[jx]).start_port == q by {
                    let cx = pruned[jx];
                    assert(excluding(removed_all)(cx));
                    assert(pruned.contains(cx));
                    old_port.outgoing_connections@.lemma_filter_contains_rev(
                        excluding(removed_all),
                        cx,
                    );
                    assert(old_port.outgoing_connections@.contains(cx));
                    assert(g0.has_connection(cx));
                    assert(g0.connection(cx).start_port == q);
                    assert(!removed_all.contains(cx));
                }
                assert forall|j1: int, j2: int|
                    0 <= j1 < j2 < old_port.outgoing_connections@.len() implies #[trigger] old_port.outgoing_connections@[j1]
                    != #[trigger] old_port.outgoing_connections@[j2] by {}
                lemma_filter_nodup(old_port.outgoing_connections@, excluding(removed_all));
            }
            assert(g2.wf_output_ports());
            assert forall|cx: ConnectionId| #[trigger] g2.has_connection(cx) implies {
                let conn = g2.connection(cx);
                &&& g2.has_output_port(conn.start_port)
                &&& g2.has_input_port(conn.end_port)
                &&& g2.output_port(conn.start_port).outgoing_connections@.contains(cx)
                &&& g2.input_port(conn.end_port).incoming_connections@.contains(cx)
                &&& g2.output_port(conn.start_port).node != g2.input_port(conn.end_port).node
                &&& g2.output_port(conn.start_port).ty.convertible_to(
                    g2.input_port(conn.end_port).ty,
                )
            } by {
                if removed_all.contains(cx) {
                    let w = choose|w: int| 0 <= w < removed_all.len() && removed_all[w] == cx;
                    assert(!g2.has_connection(removed_all[w]));
                    assert(false);
                }
                assert(g0.has_connection(cx));
                let conn = g0.connection(cx);
                assert(g2.connection(cx) == conn);
                assert(g0.has_output_port(conn.start_port));
                assert(g0.has_input_port(conn.end_port));
                if conn.end_port == p {
                    assert(g0.input_port(p).incoming_connections@.contains(cx));
                    let w = choose|w: int|
                        0 <= w < removed_all.len() && removed_all[w] == cx;
                    assert(false);
                }
                assert(g2.has_input_port(conn.end_port));
                assert(g2.input_port(conn.end_port).incoming_connections@.contains(cx));
                assert(g0.output_port(conn.start_port).outgoing_connections@.contains(cx));
                let wi = choose|wi: int|
                    0 <= wi < g0.output_port(conn.start_port).outgoing_connections@.len()
                        && g0.output_port(conn.start_port).outgoing_connections@[wi] == cx;
                g0.output_port(conn.start_port).outgoing_connections@.lemma_filter_contains(
                    excluding(removed_all),
                    wi,
                );
                assert(g2.output_port(conn.start_port).outgoing_connections@.contains(cx));
            }
            assert(g2.wf_connections());
        }
        Some(())
    }
}


impl<N: Node> Graph<N> {
    /// The node owns the input side of one of these connections: its state
    /// may have been touched by a removal hook.
    pub open spec fn spec_notified_of_input_removal(
        self,
        removed: Seq<ConnectionId>,
        n: NodeId,
    ) -> bool {
        exists|j: int|
            0 <= j < removed.len() && self.input_port(
                self.connection(#[trigger] removed[j]).end_port,
            ).node == n
    }

    /// Remove an output port. Every connection attached to it is removed as
    /// well: each such connection disappears from its end port's incoming
    /// list, and the end port's owning node is notified through its
    /// `input_connection_removed` hook. Returns `None`, changing nothing,
    /// when the reference does not resolve to a live port; otherwise
    /// succeeds unconditionally. The port's directory entry stays in place,
    /// so no other port's ordinal position moves.
    #[verifier::rlimit(100)]
    #[verifier::spinoff_prover]
    pub fn delete_output_port<R: OutputPortReference<N>>(&mut self, port: R) -> (r: Option<()>)
        requires
            old(self).wf(),
            old(self).states_present(),
        ensures
            final(self).wf(),
            final(self).states_present(),
            (r is Some) == (R::spec_resolve(port, *old(self)) is Some && old(self).has_output_port(
                R::spec_resolve(port, *old(self))->Some_0,
            )),
            r is None ==> *final(self) == *old(self),
            r is Some ==> ({
                let p = R::spec_resolve(port, *old(self))->Some_0;
                let removed = old(self).output_port(p).outgoing_connections@;
                &&& !final(self).has_output_port(p)
                &&& final(self).output_port_retired(p)
                &&& forall|q: OutputPortId|
                    #![all_triggers]
                    q != p ==> final(self).has_output_port(q) == old(self).has_output_port(q)
                &&& forall|q: OutputPortId|
                    old(self).has_output_port(q) && q != p ==> #[trigger] final(self).output_port(q)
                        == old(self).output_port(q)
                &&& forall|j: int|
                    0 <= j < removed.len() ==> !final(self).has_connection(#[trigger] removed[j])
                &&& forall|c: ConnectionId|
                    #![all_triggers]
                    !removed.contains(c) ==> final(self).has_connection(c) == old(
                        self,
                    ).has_connection(c)
                &&& forall|c: ConnectionId|
                    old(self).has_connection(c) && !removed.contains(c)
                        ==> #[trigger] final(self).connection(c) == old(self).connection(c)
                &&& forall|q: InputPortId|
                    #![all_triggers]
                    final(self).has_input_port(q) == old(self).has_input_port(q)
                &&& forall|q: InputPortId|
                    old(self).has_input_port(q) ==> {
                        &&& (#[trigger] final(self).input_port(q)).node == old(
                            self,
                        ).input_port(q).node
                        &&& final(self).input_port(q).name == old(self).input_port(q).name
                        &&& final(self).input_port(q).ty == old(self).input_port(q).ty
                        &&& final(self).input_port(q).incoming_connections@ == old(
                            self,
                        ).input_port(q).incoming_connections@.filter(excluding(removed))
                    }
                &&& forall|n: NodeId| #![all_triggers] final(self).has_node(n) == old(
                    self,
                ).has_node(n)
                &&& forall|n: NodeId|
                    old(self).has_node(n) ==> #[trigger] final(self).node_outputs(n) == old(
                        self,
                    ).node_outputs(n)
                &&& forall|n: NodeId|
                    old(self).has_node(n) ==> #[trigger] final(self).node_inputs(n) == old(
                        self,
                    ).node_inputs(n)
                &&& forall|n: NodeId|
                    old(self).has_node(n) && !old(self).spec_notified_of_input_removal(removed, n)
                        ==> #[trigger] final(self).node_state(n) == old(self).node_state(n)
            }),
    {
        let p = match port.resolve(self) {
            Some(p) => p,
            None => {
                return None;
            },
        };
        if self.output_ports.get(p.index, p.generation).is_none() {
            return None;
        }
        let ghost g0 = *old(self);
        let port_rec = self.output_ports.remove(p.index, p.generation);
        let inc = port_rec.outgoing_connections;
        let ghost removed_all = g0.output_port(p).outgoing_connections@;
        let m = inc.len();
        proof {
            assert forall|n: NodeId| #[trigger] self.has_node(n) implies self.node_state(n)
                is Some by {
                assert(g0.has_node(n));
                assert(self.node_state(n) == g0.node_state(n));
            }
            assert(removed_all.take(0) =~= Seq::<ConnectionId>::empty());
            assert forall|jj: int| 0 <= jj < removed_all.len() implies self.has_connection(
                #[trigger] removed_all[jj],
            ) && self.connection(removed_all[jj]) == g0.connection(removed_all[jj]) by {
                assert(g0.wf_output_ports());
                assert(g0.has_output_port(p));
                assert(g0.output_port(p).outgoing_connections@[jj] == removed_all[jj]);
                assert(g0.has_connection(g0.output_port(p).outgoing_connections@[jj]));
            }
            assert forall|q: InputPortId| g0.has_input_port(q) implies self.input_port(
                q,
            ).incoming_connections@ == g0.input_port(q).incoming_connections@.filter(
                excluding(removed_all.take(0)),
            ) by {
                assert(self.input_port(q) == g0.input_port(q));
                assert forall|i: int|
                    0 <= i < g0.input_port(q).incoming_connections@.len() implies excluding(
                    removed_all.take(0),
                )(#[trigger] g0.input_port(q).incoming_connections@[i]) by {}
                lemma_filter_all(
                    g0.input_port(q).incoming_connections@,
                    excluding(removed_all.take(0)),
                );
            }
        }
        let mut j: usize = 0;
        while j < m
            invariant
                self.node_data.wf(),
                self.connections.wf(),
                self.output_ports.wf(),
                self.input_ports.wf(),
                g0.wf(),
                g0.states_present(),
                g0.has_output_port(p),
                inc@ == removed_all,
                removed_all == g0.output_port(p).outgoing_connections@,
                m == removed_all.len(),
                0 <= j <= m,
                !self.has_output_port(p),
                self.output_port_retired(p),
                forall|q: OutputPortId|
                    #![all_triggers]
                    q != p ==> self.has_output_port(q) == g0.has_output_port(q),
                forall|q: OutputPortId|
                    g0.has_output_port(q) && q != p ==> #[trigger] self.output_port(q)
                        == g0.output_port(q),
                forall|q: OutputPortId|
                    g0.output_port_retired(q) ==> #[trigger] self.output_port_retired(q),
                forall|jj: int|
                    0 <= jj < j ==> !self.has_connection(#[trigger] removed_all[jj]),
                forall|jj: int|
                    j <= jj < m ==> self.has_connection(#[trigger] removed_all[jj])
                        && self.connection(removed_all[jj]) == g0.connection(removed_all[jj]),
                forall|c: ConnectionId|
                    #![all_triggers]
                    !removed_all.contains(c) ==> self.has_connection(c) == g0.has_connection(c),
                forall|c: ConnectionId|
                    g0.has_connection(c) && !removed_all.contains(c) ==> #[trigger] self.connection(
                        c,
                    ) == g0.connection(c),
                forall|q: InputPortId|
                    #![all_triggers]
                    self.has_input_port(q) == g0.has_input_port(q),
                forall|q: InputPortId|
                    g0.has_input_port(q) ==> {
                        &&& (#[trigger] self.input_port(q)).node == g0.input_port(q).node
                        &&& self.input_port(q).name == g0.input_port(q).name
                        &&& self.input_port(q).ty == g0.input_port(q).ty
                        &&& self.input_port(q).default == g0.input_port(q).default
                        &&& self.input_port(q).outgoing_connections == g0.input_port(
                            q,
                        ).outgoing_connections
                        &&& self.input_port(q).incoming_connections@ == g0.input_port(
                            q,
                        ).incoming_connections@.filter(excluding(removed_all.take(j as int)))
                    },
                forall|q: InputPortId|
                    #![all_triggers]
                    self.input_port_retired(q) == g0.input_port_retired(q),
                forall|n: NodeId| #![all_triggers] self.has_node(n) == g0.has_node(n),
                forall|n: NodeId|
                    g0.has_node(n) ==> #[trigger] self.node_outputs(n) == g0.node_outputs(n),
                forall|n: NodeId|
                    g0.has_node(n) ==> #[trigger] self.node_inputs(n) == g0.node_inputs(n),
                forall|n: NodeId| #[trigger] self.has_node(n) ==> self.node_state(n) is Some,
                forall|n: NodeId|
                    g0.has_node(n) && !g0.spec_notified_of_input_removal(removed_all.take(j as int), n)
                        ==> #[trigger] self.node_state(n) == g0.node_state(n),
            decreases m - j,
        {
            let ghost s_top = *self;
            let c = inc[j];
            proof {
                assert(g0.has_connection(c));
                assert(g0.connection(c).start_port == p);
            }
            let conn = self.connections.remove(c.index, c.generation);
            let ep = conn.end_port;
            let ghost g_after_conn = *self;
            let src = match self.input_ports.get(ep.index, ep.generation) {
                Some(x) => x,
                None => { proof { assert(false); } unreached() },
            };
            let owner = src.node;
            let len_src = src.incoming_connections.len();
            let mut filtered: Vec<ConnectionId> = Vec::new();
            let mut t: usize = 0;
            while t < len_src
                invariant
                    len_src == src.incoming_connections@.len(),
                    0 <= t <= len_src,
                    filtered@ == src.incoming_connections@.take(t as int).filter(
                        not_equal_to(c),
                    ),
                decreases len_src - t,
            {
                let x = src.incoming_connections[t];
                proof {
                    reveal(Seq::filter);
                    assert(src.incoming_connections@.take(t as int + 1).drop_last()
                        == src.incoming_connections@.take(t as int));
                    assert(src.incoming_connections@.take(t as int + 1).last() == x);
                }
                if !(x == c) {
                    filtered.push(x);
                }
                t += 1;
            }
            proof {
                assert(src.incoming_connections@.take(len_src as int)
                    =~= src.incoming_connections@);
                assert(self.input_port(ep) == s_top.input_port(ep));
                assert(s_top.input_port(ep).incoming_connections@ == g0.input_port(
                    ep,
                ).incoming_connections@.filter(excluding(removed_all.take(j as int))));
                assert(filtered@ == self.input_port(ep).incoming_connections@.filter(
                    not_equal_to(c),
                ));
            }
            let dst = self.input_ports.borrow_mut(ep.index, ep.generation);
            dst.incoming_connections = filtered;
            proof {
                let take_j = removed_all.take(j as int);
                let take_j1 = removed_all.take(j as int + 1);
                assert(take_j1 == take_j.push(c));
                // the pruned list of `ep` matches the next exclusion set
                assert forall|x: ConnectionId| #[trigger] excluding(take_j1)(x) <==> (excluding(
                    take_j,
                )(x) && not_equal_to(c)(x)) by {
                    lemma_seq_push_contains(take_j, c, x);
                }
                lemma_filter_compose(
                    g0.input_port(ep).incoming_connections@,
                    excluding(take_j),
                    not_equal_to(c),
                    excluding(take_j1),
                );
                assert(self.input_port(ep).incoming_connections@ == g0.input_port(
                    ep,
                ).incoming_connections@.filter(excluding(take_j1)));
                // other output ports keep their lists; only the predicate advances
                assert forall|q: InputPortId|
                    g0.has_input_port(q) && q != ep implies #[trigger] self.input_port(
                    q,
                ).incoming_connections@ == g0.input_port(q).incoming_connections@.filter(
                    excluding(take_j1),
                ) by {
                    assert(self.input_port(q) == s_top.input_port(q));
                    assert(s_top.input_port(q).incoming_connections@ == g0.input_port(
                        q,
                    ).incoming_connections@.filter(excluding(take_j)));
                    assert forall|i: int|
                        0 <= i < g0.input_port(q).incoming_connections@.len() implies (excluding(
                        take_j,
                    )(#[trigger] g0.input_port(q).incoming_connections@[i]) <==> excluding(
                        take_j1,
                    )(g0.input_port(q).incoming_connections@[i])) by {
                        let x = g0.input_port(q).incoming_connections@[i];
                        assert(g0.has_connection(x));
                        assert(g0.connection(x).end_port == q);
                        assert(x != c);
                        lemma_seq_push_contains(take_j, c, x);
                    }
                    lemma_filter_equiv(
                        g0.input_port(q).incoming_connections@,
                        excluding(take_j),
                        excluding(take_j1),
                    );
                }
            }
            let ghost g_pre_hook = *self;
            self.with_state_connection_removed(owner, Some(ep), None, c);
            proof {
                let take_j1 = removed_all.take(j as int + 1);
                assert(g0.has_node(owner));
                assert forall|n: NodeId|
                    g0.has_node(n) && !g0.spec_notified_of_input_removal(take_j1, n)
                        implies #[trigger] self.node_state(n) == g0.node_state(n) by {
                    assert(g0.input_port(g0.connection(take_j1[j as int]).end_port).node
                        == owner);
                    assert(n != owner);
                    assert(!g0.spec_notified_of_input_removal(removed_all.take(j as int), n));
                    assert(g_pre_hook.node_state(n) == g0.node_state(n));
                }
            }
            proof {
                assert forall|q: OutputPortId|
                    g0.has_output_port(q) && q != p implies #[trigger] self.output_port(q)
                    == g0.output_port(q) by {
                    assert(s_top.output_port(q) == g0.output_port(q));
                }
                assert forall|q: OutputPortId|
                    g0.output_port_retired(q) implies #[trigger] self.output_port_retired(q) by {
                    assert(s_top.output_port_retired(q));
                }
                assert forall|q: InputPortId| g0.has_input_port(q) implies {
                    &&& (#[trigger] self.input_port(q)).node == g0.input_port(q).node
                    &&& self.input_port(q).name == g0.input_port(q).name
                    &&& self.input_port(q).ty == g0.input_port(q).ty
                    &&& self.input_port(q).default == g0.input_port(q).default
                    &&& self.input_port(q).outgoing_connections == g0.input_port(
                        q,
                    ).outgoing_connections
                    &&& self.input_port(q).incoming_connections@ == g0.input_port(
                        q,
                    ).incoming_connections@.filter(excluding(removed_all.take(j as int + 1)))
                } by {
                    assert(self.input_port(q) == g_pre_hook.input_port(q));
                    assert(s_top.input_port(q).node == g0.input_port(q).node);
                    assert(s_top.input_port(q).name == g0.input_port(q).name);
                    assert(s_top.input_port(q).ty == g0.input_port(q).ty);
                    assert(s_top.input_port(q).default == g0.input_port(q).default);
                    assert(s_top.input_port(q).outgoing_connections == g0.input_port(
                        q,
                    ).outgoing_connections);
                    assert(g_pre_hook.input_port(q).incoming_connections@ == g0.input_port(
                        q,
                    ).incoming_connections@.filter(excluding(removed_all.take(j as int + 1))));
                }
                assert forall|c2: ConnectionId|
                    g0.has_connection(c2) && !removed_all.contains(c2)
                        implies #[trigger] self.connection(c2) == g0.connection(c2) by {
                    assert(s_top.connection(c2) == g0.connection(c2));
                }
                assert forall|n: NodeId|
                    g0.has_node(n) implies #[trigger] self.node_outputs(n) == g0.node_outputs(n) by {
                    assert(s_top.node_outputs(n) == g0.node_outputs(n));
                }
                assert forall|n: NodeId|
                    g0.has_node(n) implies #[trigger] self.node_inputs(n) == g0.node_inputs(
                    n,
                ) by {
                    assert(s_top.node_inputs(n) == g0.node_inputs(n));
                }
            }
            j += 1;
        }
        proof {
            assert(removed_all.take(m as int) == removed_all);
            let g2 = *self;
            // well-formedness of the pruned store
            assert forall|n: NodeId| #[trigger] g2.has_node(n) implies {
                &&& forall|k: int|
                    0 <= k < g2.node_outputs(n).len() ==> {
                        let e = #[trigger] g2.node_outputs(n)[k];
                        &&& (g2.has_output_port(e.1) || g2.output_port_retired(e.1))
                        &&& g2.has_output_port(e.1) ==> g2.output_port(e.1).node == n
                            && g2.output_port(e.1).name@ == e.0@
                    }
                &&& forall|k: int|
                    0 <= k < g2.node_inputs(n).len() ==> {
                        let e = #[trigger] g2.node_inputs(n)[k];
                        &&& (g2.has_input_port(e.1) || g2.input_port_retired(e.1))
                        &&& g2.has_input_port(e.1) ==> g2.input_port(e.1).node == n
                            && g2.input_port(e.1).name@ == e.0@
                    }
            } by {
                assert(g0.has_node(n));
                assert forall|k: int| 0 <= k < g2.node_outputs(n).len() implies {
                    let e = #[trigger] g2.node_outputs(n)[k];
                    &&& (g2.has_output_port(e.1) || g2.output_port_retired(e.1))
                    &&& g2.has_output_port(e.1) ==> g2.output_port(e.1).node == n && g2.output_port(
                        e.1,
                    ).name@ == e.0@
                } by {
                    let e = g0.node_outputs(n)[k];
                    assert(g0.has_output_port(e.1) || g0.output_port_retired(e.1));
                }
                assert forall|k: int| 0 <= k < g2.node_inputs(n).len() implies {
                    let e = #[trigger] g2.node_inputs(n)[k];
                    &&& (g2.has_input_port(e.1) || g2.input_port_retired(e.1))
                    &&& g2.has_input_port(e.1) ==> g2.input_port(e.1).node == n
                        && g2.input_port(e.1).name@ == e.0@
                } by {
                    let e = g0.node_inputs(n)[k];
                    assert(g0.has_input_port(e.1) || g0.input_port_retired(e.1));
                }
            }
            assert(g2.wf_nodes());
            assert forall|q: OutputPortId| #[trigger] g2.has_output_port(q) implies {
                let port_v = g2.output_port(q);
                &&& g2.has_node(port_v.node)
                &&& exists|k: int|
                    0 <= k < g2.node_outputs(port_v.node).len() && (#[trigger] g2.node_outputs(
                        port_v.node,
                    )[k]).1 == q
                &&& port_v.incoming_connections@.len() == 0
                &&& forall|jx: int|
                    0 <= jx < port_v.outgoing_connections@.len() ==> g2.has_connection(
                        #[trigger] port_v.outgoing_connections@[jx],
                    ) && g2.connection(port_v.outgoing_connections@[jx]).start_port == q
                &&& forall|j1: int, j2: int|
                    0 <= j1 < j2 < port_v.outgoing_connections@.len()
                        ==> #[trigger] port_v.outgoing_connections@[j1]
                        != #[trigger] port_v.outgoing_connections@[j2]
            } by {
                assert(q != p);
                assert(g0.has_output_port(q));
                let port_v = g0.output_port(q);
                assert(g2.output_port(q) == port_v);
                let k = choose|k: int|
                    0 <= k < g0.node_outputs(port_v.node).len() && (#[trigger] g0.node_outputs(
                        port_v.node,
                    )[k]).1 == q;
                assert((g2.node_outputs(port_v.node)[k]).1 == q);
                assert forall|jx: int|
                    0 <= jx < port_v.outgoing_connections@.len() implies g2.has_connection(
                    #[trigger] port_v.outgoing_connections@[jx],
                ) && g2.connection(port_v.outgoing_connections@[jx]).start_port == q by {
                    let cx = port_v.outgoing_connections@[jx];
                    assert(g0.has_connection(cx));
                    assert(g0.connection(cx).start_port == q);
                    if removed_all.contains(cx) {
                        let w = choose|w: int|
                            0 <= w < removed_all.len() && removed_all[w] == cx;
                        assert(g0.connection(removed_all[w]).start_port == p);
                        assert(false);
                    }
                }
            }
            assert(g2.wf_output_ports());
            assert forall|q: InputPortId| #[trigger] g2.has_input_port(q) implies {
                let port_v = g2.input_port(q);
                &&& g2.has_node(port_v.node)
                &&& exists|k: int|
                    0 <= k < g2.node_inputs(port_v.node).len() && (#[trigger] g2.node_inputs(
                        port_v.node,
                    )[k]).1 == q
                &&& port_v.outgoing_connections@.len() == 0
                &&& forall|jx: int|
                    0 <= jx < port_v.incoming_connections@.len() ==> g2.has_connection(
                        #[trigger] port_v.incoming_connections@[jx],
                    ) && g2.connection(port_v.incoming_connections@[jx]).end_port == q
                &&& forall|j1: int, j2: int|
                    0 <= j1 < j2 < port_v.incoming_connections@.len()
                        ==> #[trigger] port_v.incoming_connections@[j1]
                        != #[trigger] port_v.incoming_connections@[j2]
            } by {
                assert(g0.has_input_port(q));
                let old_port = g0.input_port(q);
                assert(g2.input_port(q).node == old_port.node);
                assert(g0.has_node(old_port.node));
                let k = choose|k: int|
                    0 <= k < g0.node_inputs(old_port.node).len() && (#[trigger] g0.node_inputs(
                        old_port.node,
                    )[k]).1 == q;
                assert((g2.node_inputs(old_port.node)[k]).1 == q);
                let pruned = g2.input_port(q).incoming_connections@;
                assert(pruned == old_port.incoming_connections@.filter(excluding(removed_all)));
                old_port.incoming_connections@.filter_lemma(excluding(removed_all));
                assert forall|jx: int| 0 <= jx < pruned.len() implies g2.has_connection(
                    #[trigger] pruned[jx],
                ) && g2.connection(pruned[jx]).end_port == q by {
                    let cx = pruned[jx];
                    assert(excluding(removed_all)(cx));
                    assert(pruned.contains(cx));
                    old_port.incoming_connections@.lemma_filter_contains_rev(
                        excluding(removed_all),
                        cx,
                    );
                    assert(old_port.incoming_connections@.contains(cx));
                    assert(g0.has_connection(cx));
                    assert(g0.connection(cx).end_port == q);
                    assert(!removed_all.contains(cx));
                }
                assert forall|j1: int, j2: int|
                    0 <= j1 < j2 < old_port.incoming_connections@.len() implies #[trigger] old_port.incoming_connections@[j1]
                    != #[trigger] old_port.incoming_connections@[j2] by {}
                lemma_filter_nodup(old_port.incoming_connections@, excluding(removed_all));
            }
            assert(g2.wf_input_ports());
            assert forall|cx: ConnectionId| #[trigger] g2.has_connection(cx) implies {
                let conn = g2.connection(cx);
                &&& g2.has_output_port(conn.start_port)
                &&& g2.has_input_port(conn.end_port)
                &&& g2.output_port(conn.start_port).outgoing_connections@.contains(cx)
                &&& g2.input_port(conn.end_port).incoming_connections@.contains(cx)
                &&& g2.output_port(conn.start_port).node != g2.input_port(conn.end_port).node
                &&& g2.output_port(conn.start_port).ty.convertible_to(
                    g2.input_port(conn.end_port).ty,
                )
            } by {
                if removed_all.contains(cx) {
                    let w = choose|w: int| 0 <= w < removed_all.len() && removed_all[w] == cx;
                    assert(!g2.has_connection(removed_all[w]));
                    assert(false);
                }
                assert(g0.has_connection(cx));
                let conn = g0.connection(cx);
                assert(g2.connection(cx) == conn);
                assert(g0.has_input_port(conn.end_port));
                assert(g0.has_output_port(conn.start_port));
                if conn.start_port == p {
                    assert(g0.output_port(p).outgoing_connections@.contains(cx));
                    let w = choose|w: int|
                        0 <= w < removed_all.len() && removed_all[w] == cx;
                    assert(false);
                }
                assert(g2.has_output_port(conn.start_port));
                assert(g2.output_port(conn.start_port).outgoing_connections@.contains(cx));
                assert(g0.input_port(conn.end_port).incoming_connections@.contains(cx));
                let wi = choose|wi: int|
                    0 <= wi < g0.input_port(conn.end_port).incoming_connections@.len()
                        && g0.input_port(conn.end_port).incoming_connections@[wi] == cx;
                g0.input_port(conn.end_port).incoming_connections@.lemma_filter_contains(
                    excluding(removed_all),
                    wi,
                );
                assert(g2.input_port(conn.end_port).incoming_connections@.contains(cx));
            }
            assert(g2.wf_connections());
        }
        Some(())
    }
}

impl<N: Node> Graph<N> {
    /// Read the connection record a live handle names.
    pub fn get_connection(&self, c: ConnectionId) -> (r: Option<&Connection>)
        ensures
            match r {
                Some(conn) => self.has_connection(c) && *conn == self.connection(c),
                None => !self.has_connection(c),
            },
    {
        self.connections.get(c.index, c.generation)
    }

    /// Resolve an input reference and read the port record it names.
    pub fn get_input_port_info<R: InputPortReference<N>>(&self, port: R) -> (r: Option<&Port<N>>)
        ensures
            match r {
                Some(p) => R::spec_resolve(port, *self) is Some && self.has_input_port(
                    R::spec_resolve(port, *self)->Some_0,
                ) && *p == self.input_port(R::spec_resolve(port, *self)->Some_0),
                None => R::spec_resolve(port, *self) is None || !self.has_input_port(
                    R::spec_resolve(port, *self)->Some_0,
                ),
            },
    {
        match port.resolve(self) {
            None => None,
            Some(p) => self.input_ports.get(p.index, p.generation),
        }
    }

    /// Resolve an output reference and read the port record it names.
    pub fn get_output_port_info<R: OutputPortReference<N>>(&self, port: R) -> (r: Option<
        &Port<N>,
    >)
        ensures
            match r {
                Some(p) => R::spec_resolve(port, *self) is Some && self.has_output_port(
                    R::spec_resolve(port, *self)->Some_0,
                ) && *p == self.output_port(R::spec_resolve(port, *self)->Some_0),
                None => R::spec_resolve(port, *self) is None || !self.has_output_port(
                    R::spec_resolve(port, *self)->Some_0,
                ),
            },
    {
        match port.resolve(self) {
            None => None,
            Some(p) => self.output_ports.get(p.index, p.generation),
        }
    }
}

impl<N: Node> Default for Graph<N> {
    /// The empty graph.
    fn default() -> (r: Self)
        ensures
            r.wf(),
            r.states_present(),
            forall|n: NodeId| !r.has_node(n),
            forall|p: InputPortId| !r.has_input_port(p),
            forall|p: OutputPortId| !r.has_output_port(p),
            forall|c: ConnectionId| !r.has_connection(c),
    {
        Graph::new()
    }
}

/// The state-equality capability: a decidable equivalence on node states,
/// used to find nodes by value.
pub trait NodeStateEq: Sized {
    /// The equivalence the executable comparison decides.
    spec fn state_eq(self, other: Self) -> bool;

    /// Decides `state_eq`.
    fn eq_state(&self, other: &Self) -> (r: bool)
        ensures
            r == self.state_eq(*other),
    ;
}

impl<N: Node + NodeStateEq> Graph<N> {
    /// The ids of all nodes whose state equals the given value, in slot
    /// order.
    pub fn find(&self, node: &N) -> (r: Vec<NodeId>)
        requires
            self.states_present(),
        ensures
            forall|i: int, j: int| 0 <= i < j < r@.len() ==> r@[i] != r@[j],
            forall|n: NodeId| #[trigger] r@.contains(n) ==> self.has_node(n) && self.node_state(
                n,
            )->Some_0.state_eq(*node),
            forall|n: NodeId|
                #[trigger] self.has_node(n) && self.node_state(n)->Some_0.state_eq(*node)
                    ==> r@.contains(n),
    {
        let count = self.node_data.slot_count();
        let mut r: Vec<NodeId> = Vec::new();
        let mut i: usize = 0;
        while i < count
            invariant
                self.states_present(),
                count == self.node_data.slots@.len(),
                0 <= i <= count,
                forall|k: int, j: int| 0 <= k < j < r@.len() ==> r@[k] != r@[j],
                forall|n: NodeId| #[trigger] r@.contains(n) ==> self.has_node(n)
                    && self.node_state(n)->Some_0.state_eq(*node) && n.index < i,
                forall|n: NodeId|
                    #[trigger] self.has_node(n) && n.index < i && self.node_state(
                        n,
                    )->Some_0.state_eq(*node) ==> r@.contains(n),
            decreases count - i,
        {
            match self.node_data.live_gen(i) {
                None => (),
                Some(g) => {
                    let id = NodeId { index: i, generation: g };
                    let rec = match self.node_data.get(i, g) {
                        Some(rec) => rec,
                        None => { proof { assert(false); } unreached() },
                    };
                    proof {
                        assert(self.has_node(id));
                        assert(self.node_state(id) is Some);
                    }
                    let matches_value = match &rec.state {
                        Some(s) => s.eq_state(node),
                        None => { proof { assert(false); } unreached() },
                    };
                    if matches_value {
                        let ghost r_pre = r@;
                        r.push(id);
                        proof {
                            assert forall|k: int, j: int|
                                0 <= k < j < r@.len() implies r@[k] != r@[j] by {
                                if j == r@.len() - 1 {
                                    assert(r@[k] == r_pre[k]);
                                    assert(r_pre.contains(r_pre[k]));
                                    assert(r_pre[k].index < i);
                                }
                            }
                            assert forall|n: NodeId| #[trigger] r@.contains(n) implies self.has_node(
                                n,
                            ) && self.node_state(n)->Some_0.state_eq(*node) && n.index < i + 1 by {
                                lemma_seq_push_contains(r_pre, id, n);
                            }
                            assert forall|n: NodeId|
                                #[trigger] self.has_node(n) && n.index < i + 1 && self.node_state(
                                    n,
                                )->Some_0.state_eq(*node) implies r@.contains(n) by {
                                lemma_seq_push_contains(r_pre, id, n);
                                if n.index < i {
                                    assert(r_pre.contains(n));
                                } else {
                                    assert(n == id);
                                }
                            }
                        }
                    } else {
                        proof {
                            assert forall|n: NodeId|
                                #[trigger] self.has_node(n) && n.index < i + 1 && self.node_state(
                                    n,
                                )->Some_0.state_eq(*node) implies r@.contains(n) by {
                                if n.index == i {
                                    assert(n == id);
                                    assert(false);
                                }
                            }
                        }
                    }
                },
            }
            i += 1;
        }
        r
    }
}

impl<N: Node> Graph<N> {
    /// Some connection arrives at one of the node's input ports.
    pub open spec fn node_has_incoming(self, n: NodeId) -> bool {
        exists|k: int|
            0 <= k < self.node_inputs(n).len() && self.has_input_port(
                (#[trigger] self.node_inputs(n)[k]).1,
            ) && self.input_port(self.node_inputs(n)[k].1).incoming_connections@.len() > 0
    }

    /// Some connection leaves one of the node's output ports.
    pub open spec fn node_has_outgoing(self, n: NodeId) -> bool {
        exists|k: int|
            0 <= k < self.node_outputs(n).len() && self.has_output_port(
                (#[trigger] self.node_outputs(n)[k]).1,
            ) && self.output_port(self.node_outputs(n)[k].1).outgoing_connections@.len() > 0
    }

    /// An exclusive upper bound on the `index` field of every node handle
    /// this graph has ever issued.
    pub closed spec fn node_index_bound(self) -> int {
        self.node_data.slots@.len() as int
    }

    /// How many node slots exist; every live node's index is below this.
    pub fn node_slot_count(&self) -> (r: usize)
        ensures
            r as int == self.node_index_bound(),
            forall|n: NodeId| #[trigger] self.has_node(n) ==> (n.index as int) < r as int,
    {
        self.node_data.slot_count()
    }

    /// The live node in slot `index`, if any; at most one generation is live
    /// per slot.
    pub fn live_node_at(&self, index: usize) -> (r: Option<NodeId>)
        ensures
            match r {
                Some(id) => id.index == index && self.has_node(id) && forall|m: NodeId|
                    m.index == index && #[trigger] self.has_node(m) ==> m == id,
                None => forall|m: NodeId| #[trigger] self.has_node(m) ==> m.index != index,
            },
    {
        match self.node_data.live_gen(index) {
            Some(g) => Some(NodeId { index, generation: g }),
            None => None,
        }
    }

    /// Decide whether any connection arrives at the node.
    pub fn has_incoming_connections(&self, n: NodeId) -> (r: bool)
        requires
            self.has_node(n),
        ensures
            r == self.node_has_incoming(n),
    {
        let entries = match self.node_data.get(n.index, n.generation) {
            Some(rec) => &rec.data.inputs,
            None => { proof { assert(false); } unreached() },
        };
        let len = entries.len();
        let mut k: usize = 0;
        while k < len
            invariant
                self.has_node(n),
                entries@ == self.node_inputs(n),
                len == entries@.len(),
                0 <= k <= len,
                forall|kk: int|
                    0 <= kk < k ==> !(self.has_input_port((#[trigger] self.node_inputs(n)[kk]).1)
                        && self.input_port(
                        self.node_inputs(n)[kk].1,
                    ).incoming_connections@.len() > 0),
            decreases len - k,
        {
            let pid = entries[k].1;
            match self.input_ports.get(pid.index, pid.generation) {
                Some(port) => {
                    if port.incoming_connections.len() > 0 {
                        return true;
                    }
                },
                None => (),
            }
            k += 1;
        }
        false
    }

    /// Decide whether any connection leaves the node.
    pub fn has_outgoing_connections(&self, n: NodeId) -> (r: bool)
        requires
            self.has_node(n),
        ensures
            r == self.node_has_outgoing(n),
    {
        let entries = match self.node_data.get(n.index, n.generation) {
            Some(rec) => &rec.data.outputs,
            None => { proof { assert(false); } unreached() },
        };
        let len = entries.len();
        let mut k: usize = 0;
        while k < len
            invariant
                self.has_node(n),
                entries@ == self.node_outputs(n),
                len == entries@.len(),
                0 <= k <= len,
                forall|kk: int|
                    0 <= kk < k ==> !(self.has_output_port((#[trigger] self.node_outputs(n)[kk]).1)
                        && self.output_port(
                        self.node_outputs(n)[kk].1,
                    ).outgoing_connections@.len() > 0),
            decreases len - k,
        {
            let pid = entries[k].1;
            match self.output_ports.get(pid.index, pid.generation) {
                Some(port) => {
                    if port.outgoing_connections.len() > 0 {
                        return true;
                    }
                },
                None => (),
            }
            k += 1;
        }
        false
    }
}

/// The two graphs have the same nodes, port directories, ports, and
/// connections; only the caller-supplied node states may differ.
pub closed spec fn structure_eq<N: Node>(g1: Graph<N>, g2: Graph<N>) -> bool {
    &&& forall|n: NodeId| #![all_triggers] g1.has_node(n) == g2.has_node(n)
    &&& forall|n: NodeId| g1.has_node(n) ==> #[trigger] g1.node_inputs(n) == g2.node_inputs(n)
    &&& forall|n: NodeId| g1.has_node(n) ==> #[trigger] g1.node_outputs(n) == g2.node_outputs(n)
    &&& forall|p: InputPortId| #![all_triggers] g1.has_input_port(p) == g2.has_input_port(p)
    &&& forall|p: InputPortId| #![all_triggers] g1.input_port_retired(p) == g2.input_port_retired(p)
    &&& forall|p: InputPortId|
        g1.has_input_port(p) ==> #[trigger] g1.input_port(p) == g2.input_port(p)
    &&& forall|p: OutputPortId| #![all_triggers] g1.has_output_port(p) == g2.has_output_port(p)
    &&& forall|p: OutputPortId|
        #![all_triggers]
        g1.output_port_retired(p) == g2.output_port_retired(p)
    &&& forall|p: OutputPortId|
        g1.has_output_port(p) ==> #[trigger] g1.output_port(p) == g2.output_port(p)
    &&& forall|c: ConnectionId| #![all_triggers] g1.has_connection(c) == g2.has_connection(c)
    &&& forall|c: ConnectionId| g1.has_connection(c) ==> #[trigger] g1.connection(c)
        == g2.connection(c)
}

/// Well-formedness depends only on the structure, not on node states: it
/// transfers across `structure_eq`.
proof fn lemma_wf_from_structure_eq<N: Node>(g1: Graph<N>, g2: Graph<N>)
    requires
        g1.wf(),
        structure_eq(g1, g2),
        g2.node_data.wf(),
        g2.connections.wf(),
        g2.input_ports.wf(),
        g2.output_ports.wf(),
    ensures
        g2.wf(),
{
    assert forall|n: NodeId| #[trigger] g2.has_node(n) implies {
        &&& forall|k: int|
            0 <= k < g2.node_inputs(n).len() ==> {
                let e = #[trigger] g2.node_inputs(n)[k];
                &&& (g2.has_input_port(e.1) || g2.input_port_retired(e.1))
                &&& g2.has_input_port(e.1) ==> g2.input_port(e.1).node == n && g2.input_port(
                    e.1,
                ).name@ == e.0@
            }
        &&& forall|k: int|
            0 <= k < g2.node_outputs(n).len() ==> {
                let e = #[trigger] g2.node_outputs(n)[k];
                &&& (g2.has_output_port(e.1) || g2.output_port_retired(e.1))
                &&& g2.has_output_port(e.1) ==> g2.output_port(e.1).node == n && g2.output_port(
                    e.1,
                ).name@ == e.0@
            }
    } by {
        assert(g1.has_node(n));
        assert(g1.node_inputs(n) == g2.node_inputs(n));
        assert(g1.node_outputs(n) == g2.node_outputs(n));
        assert forall|k: int| 0 <= k < g2.node_inputs(n).len() implies {
            let e = #[trigger] g2.node_inputs(n)[k];
            &&& (g2.has_input_port(e.1) || g2.input_port_retired(e.1))
            &&& g2.has_input_port(e.1) ==> g2.input_port(e.1).node == n && g2.input_port(e.1).name@
                == e.0@
        } by {
            let e = g1.node_inputs(n)[k];
            assert(g1.has_input_port(e.1) || g1.input_port_retired(e.1));
        }
        assert forall|k: int| 0 <= k < g2.node_outputs(n).len() implies {
            let e = #[trigger] g2.node_outputs(n)[k];
            &&& (g2.has_output_port(e.1) || g2.output_port_retired(e.1))
            &&& g2.has_output_port(e.1) ==> g2.output_port(e.1).node == n && g2.output_port(
                e.1,
            ).name@ == e.0@
        } by {
            let e = g1.node_outputs(n)[k];
            assert(g1.has_output_port(e.1) || g1.output_port_retired(e.1));
        }
    }
    assert(g2.wf_nodes());
    assert forall|p: InputPortId| #[trigger] g2.has_input_port(p) implies {
        let port = g2.input_port(p);
        &&& g2.has_node(port.node)
        &&& exists|k: int|
            0 <= k < g2.node_inputs(port.node).len() && (#[trigger] g2.node_inputs(port.node)[k]).1
                == p
        &&& port.outgoing_connections@.len() == 0
        &&& forall|j: int|
            0 <= j < port.incoming_connections@.len() ==> g2.has_connection(
                #[trigger] port.incoming_connections@[j],
            ) && g2.connection(port.incoming_connections@[j]).end_port == p
        &&& forall|j1: int, j2: int|
            0 <= j1 < j2 < port.incoming_connections@.len()
                ==> #[trigger] port.incoming_connections@[j1]
                != #[trigger] port.incoming_connections@[j2]
    } by {
        assert(g1.has_input_port(p));
        let port = g1.input_port(p);
        assert(g2.input_port(p) == port);
        assert(g1.has_node(port.node));
        let k = choose|k: int|
            0 <= k < g1.node_inputs(port.node).len() && (#[trigger] g1.node_inputs(port.node)[k]).1
                == p;
        assert(g1.node_inputs(port.node) == g2.node_inputs(port.node));
        assert((g2.node_inputs(port.node)[k]).1 == p);
        assert forall|j: int| 0 <= j < port.incoming_connections@.len() implies g2.has_connection(
            #[trigger] port.incoming_connections@[j],
        ) && g2.connection(port.incoming_connections@[j]).end_port == p by {
            assert(g1.has_connection(port.incoming_connections@[j]));
        }
    }
    assert(g2.wf_input_ports());
    assert forall|p: OutputPortId| #[trigger] g2.has_output_port(p) implies {
        let port = g2.output_port(p);
        &&& g2.has_node(port.node)
        &&& exists|k: int|
            0 <= k < g2.node_outputs(port.node).len() && (#[trigger] g2.node_outputs(port.node)[k]).1
                == p
        &&& port.incoming_connections@.len() == 0
        &&& forall|j: int|
            0 <= j < port.outgoing_connections@.len() ==> g2.has_connection(
                #[trigger] port.outgoing_connections@[j],
            ) && g2.connection(port.outgoing_connections@[j]).start_port == p
        &&& forall|j1: int, j2: int|
            0 <= j1 < j2 < port.outgoing_connections@.len()
                ==> #[trigger] port.outgoing_connections@[j1]
                != #[trigger] port.outgoing_connections@[j2]
    } by {
        assert(g1.has_output_port(p));
        let port = g1.output_port(p);
        assert(g2.output_port(p) == port);
        assert(g1.has_node(port.node));
        let k = choose|k: int|
            0 <= k < g1.node_outputs(port.node).len() && (#[trigger] g1.node_outputs(port.node)[k]).1
                == p;
        assert(g1.node_outputs(port.node) == g2.node_outputs(port.node));
        assert((g2.node_outputs(port.node)[k]).1 == p);
        assert forall|j: int| 0 <= j < port.outgoing_connections@.len() implies g2.has_connection(
            #[trigger] port.outgoing_connections@[j],
        ) && g2.connection(port.outgoing_connections@[j]).start_port == p by {
            assert(g1.has_connection(port.outgoing_connections@[j]));
        }
    }
    assert(g2.wf_output_ports());
    assert forall|c: ConnectionId| #[trigger] g2.has_connection(c) implies {
        let conn = g2.connection(c);
        &&& g2.has_output_port(conn.start_port)
        &&& g2.has_input_port(conn.end_port)
        &&& g2.output_port(conn.start_port).outgoing_connections@.contains(c)
        &&& g2.input_port(conn.end_port).incoming_connections@.contains(c)
        &&& g2.output_port(conn.start_port).node != g2.input_port(conn.end_port).node
        &&& g2.output_port(conn.start_port).ty.convertible_to(g2.input_port(conn.end_port).ty)
    } by {
        assert(g1.has_connection(c));
        let conn = g1.connection(c);
        assert(g2.connection(c) == conn);
        assert(g1.has_output_port(conn.start_port));
        assert(g1.has_input_port(conn.end_port));
    }
    assert(g2.wf_connections());
}

/// `structure_eq` is transitive, so it can be chained across a sequence of
/// state-only mutations.
pub proof fn lemma_structure_eq_trans<N: Node>(g1: Graph<N>, g2: Graph<N>, g3: Graph<N>)
    requires
        structure_eq(g1, g2),
        structure_eq(g2, g3),
    ensures
        structure_eq(g1, g3),
{
}

} // verus!
