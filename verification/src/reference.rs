//! Logical port references: direct handles, ordinal positions, names, and a
//! runtime-tagged choice between the latter two, each resolving to a concrete
//! handle against one graph snapshot.
//!
//! Resolution is a pure function of the reference and the graph: resolving
//! the same reference twice against an unmodified graph yields the same
//! handle both times.

use vstd::prelude::*;

use crate::{Graph, InputPortId, Node, NodeId, OutputPortId};

verus! {

/// Something that names an input port of a specific graph snapshot.
pub trait InputPortReference<N: Node>: Sized {
    /// What resolution yields: a pure function of reference and graph.
    spec fn spec_resolve(self, graph: Graph<N>) -> Option<InputPortId>;

    /// Resolve against one graph snapshot.
    fn resolve(&self, graph: &Graph<N>) -> (r: Option<InputPortId>)
        ensures
            r == self.spec_resolve(*graph),
    ;
}

/// Something that names an output port of a specific graph snapshot.
pub trait OutputPortReference<N: Node>: Sized {
    /// What resolution yields: a pure function of reference and graph.
    spec fn spec_resolve(self, graph: Graph<N>) -> Option<OutputPortId>;

    /// Resolve against one graph snapshot.
    fn resolve(&self, graph: &Graph<N>) -> (r: Option<OutputPortId>)
        ensures
            r == self.spec_resolve(*graph),
    ;
}

impl<N: Node> InputPortReference<N> for InputPortId {
    /// A direct handle resolves to itself.
    open spec fn spec_resolve(self, graph: Graph<N>) -> Option<InputPortId> {
        Some(self)
    }

    fn resolve(&self, graph: &Graph<N>) -> (r: Option<InputPortId>) {
        Some(*self)
    }
}

impl<N: Node> OutputPortReference<N> for OutputPortId {
    /// A direct handle resolves to itself.
    open spec fn spec_resolve(self, graph: Graph<N>) -> Option<OutputPortId> {
        Some(self)
    }

    fn resolve(&self, graph: &Graph<N>) -> (r: Option<OutputPortId>) {
        Some(*self)
    }
}

/// Resolution is idempotent: any two resolutions of one input reference
/// against one unmodified graph snapshot yield the same handle, because
/// every `resolve` pins its result to `spec_resolve`, a pure function of the
/// reference and the graph.
pub proof fn lemma_input_resolution_idempotent<N: Node, R: InputPortReference<N>>(
    reference: R,
    graph: Graph<N>,
    first: Option<InputPortId>,
    second: Option<InputPortId>,
)
    requires
        first == R::spec_resolve(reference, graph),
        second == R::spec_resolve(reference, graph),
    ensures
        first == second,
{
}

/// As `lemma_input_resolution_idempotent`, for output references.
pub proof fn lemma_output_resolution_idempotent<N: Node, R: OutputPortReference<N>>(
    reference: R,
    graph: Graph<N>,
    first: Option<OutputPortId>,
    second: Option<OutputPortId>,
)
    requires
        first == R::spec_resolve(reference, graph),
        second == R::spec_resolve(reference, graph),
    ensures
        first == second,
{
}

/// An input port named by `(node, ordinal position)`.
#[derive(Clone, Copy, PartialEq, Eq, Structural, Debug)]
pub struct NodeInputIndexReference(pub NodeId, pub usize);

impl<N: Node> InputPortReference<N> for NodeInputIndexReference {
    open spec fn spec_resolve(self, graph: Graph<N>) -> Option<InputPortId> {
        graph.spec_input_port_at(self.0, self.1 as int)
    }

    fn resolve(&self, graph: &Graph<N>) -> (r: Option<InputPortId>) {
        graph.get_input_port_at(self.0, self.1)
    }
}

/// An output port named by `(node, ordinal position)`.
#[derive(Clone, Copy, PartialEq, Eq, Structural, Debug)]
pub struct NodeOutputIndexReference(pub NodeId, pub usize);

impl<N: Node> OutputPortReference<N> for NodeOutputIndexReference {
    open spec fn spec_resolve(self, graph: Graph<N>) -> Option<OutputPortId> {
        graph.spec_output_port_at(self.0, self.1 as int)
    }

    fn resolve(&self, graph: &Graph<N>) -> (r: Option<OutputPortId>) {
        graph.get_output_port_at(self.0, self.1)
    }
}

/// An input port named by `(node, display name)`.
#[derive(Clone, PartialEq, Eq, Debug)]
pub struct NodeInputNameReference(pub NodeId, pub String);

impl<N: Node> InputPortReference<N> for NodeInputNameReference {
    open spec fn spec_resolve(self, graph: Graph<N>) -> Option<InputPortId> {
        graph.spec_input_port_named(self.0, self.1@)
    }

    fn resolve(&self, graph: &Graph<N>) -> (r: Option<InputPortId>) {
        graph.get_input_port(self.0, self.1.as_str())
    }
}

/// An output port named by `(node, display name)`.
#[derive(Clone, PartialEq, Eq, Debug)]
pub struct NodeOutputNameReference(pub NodeId, pub String);

impl<N: Node> OutputPortReference<N> for NodeOutputNameReference {
    open spec fn spec_resolve(self, graph: Graph<N>) -> Option<OutputPortId> {
        graph.spec_output_port_named(self.0, self.1@)
    }

    fn resolve(&self, graph: &Graph<N>) -> (r: Option<OutputPortId>) {
        graph.get_output_port(self.0, self.1.as_str())
    }
}

/// A runtime-tagged choice between an ordinal and a name reference to an
/// input port, for call sites that defer the decision to runtime.
#[derive(Clone, PartialEq, Eq, Debug)]
pub enum NodeInputDynamicReference {
    Index(NodeInputIndexReference),
    Name(NodeInputNameReference),
}

impl<N: Node> InputPortReference<N> for NodeInputDynamicReference {
    open spec fn spec_resolve(self, graph: Graph<N>) -> Option<InputPortId> {
        match self {
            NodeInputDynamicReference::Index(r) => r.spec_resolve(graph),
            NodeInputDynamicReference::Name(r) => r.spec_resolve(graph),
        }
    }

    fn resolve(&self, graph: &Graph<N>) -> (r: Option<InputPortId>) {
        match self {
            NodeInputDynamicReference::Index(r) => InputPortReference::<N>::resolve(r, graph),
            NodeInputDynamicReference::Name(r) => InputPortReference::<N>::resolve(r, graph),
        }
    }
}

/// A runtime-tagged choice between an ordinal and a name reference to an
/// output port.
#[derive(Clone, PartialEq, Eq, Debug)]
pub enum NodeOutputDynamicReference {
    Index(NodeOutputIndexReference),
    Name(NodeOutputNameReference),
}

impl<N: Node> OutputPortReference<N> for NodeOutputDynamicReference {
    open spec fn spec_resolve(self, graph: Graph<N>) -> Option<OutputPortId> {
        match self {
            NodeOutputDynamicReference::Index(r) => r.spec_resolve(graph),
            NodeOutputDynamicReference::Name(r) => r.spec_resolve(graph),
        }
    }

    fn resolve(&self, graph: &Graph<N>) -> (r: Option<OutputPortId>) {
        match self {
            NodeOutputDynamicReference::Index(r) => OutputPortReference::<N>::resolve(r, graph),
            NodeOutputDynamicReference::Name(r) => OutputPortReference::<N>::resolve(r, graph),
        }
    }
}

/// A node-relative way to pick an input or output port: by ordinal position
/// or by display name. Combined with a node id it becomes a full reference;
/// the walker combines it with the node currently being evaluated.
#[derive(Clone, PartialEq, Eq, Debug)]
pub enum PortIdentifier {
    Index(usize),
    Name(String),
}

impl PortIdentifier {
    /// The input-port reference this identifier makes on `node`.
    pub open spec fn spec_as_input(self, node: NodeId) -> NodeInputDynamicReference {
        match self {
            PortIdentifier::Index(i) => NodeInputDynamicReference::Index(
                NodeInputIndexReference(node, i),
            ),
            PortIdentifier::Name(s) => NodeInputDynamicReference::Name(
                NodeInputNameReference(node, s),
            ),
        }
    }

    /// The output-port reference this identifier makes on `node`.
    pub open spec fn spec_as_output(self, node: NodeId) -> NodeOutputDynamicReference {
        match self {
            PortIdentifier::Index(i) => NodeOutputDynamicReference::Index(
                NodeOutputIndexReference(node, i),
            ),
            PortIdentifier::Name(s) => NodeOutputDynamicReference::Name(
                NodeOutputNameReference(node, s),
            ),
        }
    }

    /// Combine with a node id into an input-port reference.
    pub fn as_input(&self, node: NodeId) -> (r: NodeInputDynamicReference)
        ensures
            r == self.spec_as_input(node),
    {
        match self {
            PortIdentifier::Index(i) => NodeInputDynamicReference::Index(
                NodeInputIndexReference(node, *i),
            ),
            PortIdentifier::Name(s) => NodeInputDynamicReference::Name(
                NodeInputNameReference(node, s.clone()),
            ),
        }
    }

    /// Combine with a node id into an output-port reference.
    pub fn as_output(&self, node: NodeId) -> (r: NodeOutputDynamicReference)
        ensures
            r == self.spec_as_output(node),
    {
        match self {
            PortIdentifier::Index(i) => NodeOutputDynamicReference::Index(
                NodeOutputIndexReference(node, *i),
            ),
            PortIdentifier::Name(s) => NodeOutputDynamicReference::Name(
                NodeOutputNameReference(node, s.clone()),
            ),
        }
    }
}

} // verus!
