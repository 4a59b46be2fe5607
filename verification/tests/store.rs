use node_graph::analyzer::GraphAnalyzer;
use node_graph::reference::PortIdentifier;
use node_graph::{
    DataType, Graph, InitialPorts, Node, NodeStateEq, Untyped,
};

#[derive(Debug, Clone, Copy, PartialEq)]
enum MathNode {
    Constant(i64),
    Double,
    Sink(i64),
    Bare,
}

impl Node for MathNode {
    type DataType = Untyped;
    type DataValue = i64;

    fn initial_ports(&self) -> InitialPorts<Self> {
        match self {
            MathNode::Constant(_) => InitialPorts {
                inputs: vec![],
                outputs: vec![("value".to_string(), Untyped)],
            },
            MathNode::Double => InitialPorts {
                inputs: vec![("in".to_string(), Untyped, 0)],
                outputs: vec![("out".to_string(), Untyped)],
            },
            MathNode::Sink(_) => InitialPorts {
                inputs: vec![("in".to_string(), Untyped, 0)],
                outputs: vec![],
            },
            MathNode::Bare => InitialPorts { inputs: vec![], outputs: vec![] },
        }
    }
}

impl NodeStateEq for MathNode {
    fn state_eq(self, other: Self) -> bool {
        self == other
    }

    fn eq_state(&self, other: &Self) -> bool {
        self == other
    }
}

#[test]
fn create_node_materializes_initial_ports() {
    let mut graph: Graph<MathNode> = Graph::new();
    let a = graph.create_node(MathNode::Double);
    let inputs = graph.get_input_ports(a).expect("node exists");
    assert_eq!(inputs.len(), 1);
    assert_eq!(inputs[0].0, "in".to_string());
    let outputs = graph.get_output_ports(a).expect("node exists");
    assert_eq!(outputs.len(), 1);
    assert_eq!(outputs[0].0, "out".to_string());
    assert_eq!(graph.get_node(a), Some(&MathNode::Double));
}

#[test]
fn create_node_with_appends_extra_ports_after_initial() {
    let mut graph: Graph<MathNode> = Graph::new();
    let (id, extra_in, extra_out) = graph.create_node_with(
        MathNode::Double,
        vec![("more".to_string(), Untyped, 5)],
        vec![("aux".to_string(), Untyped)],
    );
    assert_eq!(extra_in.len(), 1);
    assert_eq!(extra_out.len(), 1);
    // initial port sits at ordinal 0, the extra one after it
    assert_eq!(graph.get_input_port(id, "more"), Some(extra_in[0]));
    assert_eq!(graph.get_input_port_at(id, 1), Some(extra_in[0]));
    assert_eq!(graph.get_output_port_at(id, 1), Some(extra_out[0]));
    let info = graph.get_input_port_info(extra_in[0]).expect("port exists");
    assert_eq!(info.default, Some(5));
}

#[test]
fn create_input_port_and_set_default() {
    let mut graph: Graph<MathNode> = Graph::new();
    let a = graph.create_node(MathNode::Bare);
    let p = graph.create_input_port(a, "x", Untyped, 3);
    assert_eq!(graph.get_input_port(a, "x"), Some(p));
    graph.set_default_value(p, 7);
    let info = graph.get_input_port_info(p).expect("port exists");
    assert_eq!(info.default, Some(7));
}

#[test]
fn resolution_is_idempotent() {
    let mut graph: Graph<MathNode> = Graph::new();
    let a = graph.create_node(MathNode::Double);
    let first = graph.get_input_port(a, "in");
    let second = graph.get_input_port(a, "in");
    assert!(first.is_some());
    assert_eq!(first, second);
    let by_pos_1 = graph.get_output_port_at(a, 0);
    let by_pos_2 = graph.get_output_port_at(a, 0);
    assert!(by_pos_1.is_some());
    assert_eq!(by_pos_1, by_pos_2);
}

#[test]
fn connect_links_both_sides() {
    let mut graph: Graph<MathNode> = Graph::new();
    let a = graph.create_node(MathNode::Constant(5));
    let b = graph.create_node(MathNode::Sink(0));
    assert!(graph.can_connect(
        a.output(PortIdentifier::Index(0)),
        b.input(PortIdentifier::Name("in".to_string())),
    ));
    let _c = graph.connect(
        a.output(PortIdentifier::Index(0)),
        b.input(PortIdentifier::Name("in".to_string())),
    );
    let outgoing = graph.get_outgoing_connections(a.output(PortIdentifier::Index(0)));
    assert_eq!(outgoing.len(), 1);
    assert_eq!(Some(outgoing[0]), graph.get_input_port(b, "in"));
    let incoming = graph.get_incoming_connections(b.input(PortIdentifier::Index(0)));
    assert_eq!(incoming.len(), 1);
    assert_eq!(Some(incoming[0]), graph.get_output_port(a, "value"));
    let deps = graph.get_direct_dependencies(b);
    assert_eq!(deps, vec![a]);
}

#[test]
fn self_connection_is_rejected() {
    let mut graph: Graph<MathNode> = Graph::new();
    let d = graph.create_node(MathNode::Double);
    assert!(!graph.can_connect(
        d.output(PortIdentifier::Index(0)),
        d.input(PortIdentifier::Index(0)),
    ));
    // nothing was linked: the input side has no incoming connection
    let incoming = graph.get_incoming_connections(d.input(PortIdentifier::Index(0)));
    assert_eq!(incoming.len(), 0);
}

#[test]
fn cascading_delete_prunes_counterpart_lists() {
    let mut graph: Graph<MathNode> = Graph::new();
    let a = graph.create_node(MathNode::Constant(1));
    let b = graph.create_node(MathNode::Sink(0));
    let c = graph.create_node(MathNode::Sink(0));
    let _ab = graph.connect(
        a.output(PortIdentifier::Index(0)),
        b.input(PortIdentifier::Index(0)),
    );
    let _ac = graph.connect(
        a.output(PortIdentifier::Index(0)),
        c.input(PortIdentifier::Index(0)),
    );
    let out_port = graph.get_output_port(a, "value").unwrap();
    assert_eq!(graph.get_outgoing_connections(out_port).len(), 2);
    let b_in = graph.get_input_port(b, "in").unwrap();
    assert_eq!(graph.delete_input_port(b_in), Some(()));
    // the deleted port's handle is retired, never reused
    assert!(graph.get_input_port_info(b_in).is_none());
    // the counterpart list shrank by exactly one: the untouched connection stays
    let outgoing = graph.get_outgoing_connections(out_port);
    assert_eq!(outgoing.len(), 1);
    assert_eq!(Some(outgoing[0]), graph.get_input_port(c, "in"));
    // deleting again finds nothing and changes nothing
    assert_eq!(graph.delete_input_port(b_in), None);
}

#[test]
fn delete_output_port_prunes_incoming_lists() {
    let mut graph: Graph<MathNode> = Graph::new();
    let a = graph.create_node(MathNode::Constant(1));
    let b = graph.create_node(MathNode::Sink(0));
    let _ab = graph.connect(
        a.output(PortIdentifier::Index(0)),
        b.input(PortIdentifier::Index(0)),
    );
    let out_port = graph.get_output_port(a, "value").unwrap();
    assert_eq!(graph.delete_output_port(out_port), Some(()));
    assert!(graph.get_output_port_info(out_port).is_none());
    let incoming = graph.get_incoming_connections(b.input(PortIdentifier::Index(0)));
    assert_eq!(incoming.len(), 0);
}

#[test]
fn ordinal_positions_survive_deletion() {
    let mut graph: Graph<MathNode> = Graph::new();
    let (id, ins, _outs) = graph.create_node_with_ports(
        MathNode::Bare,
        vec![
            ("x".to_string(), Untyped, Some(0)),
            ("y".to_string(), Untyped, Some(0)),
        ],
        vec![],
    );
    assert_eq!(graph.delete_input_port(ins[0]), Some(()));
    // position one still names the second port; position zero is retired
    assert_eq!(graph.get_input_port_at(id, 1), Some(ins[1]));
    assert!(graph.get_input_port_info(ins[1]).is_some());
    assert!(graph.get_input_port_info(graph.get_input_port_at(id, 0).unwrap()).is_none());
}

#[test]
fn find_locates_nodes_by_state() {
    let mut graph: Graph<MathNode> = Graph::new();
    let a = graph.create_node(MathNode::Constant(5));
    let _b = graph.create_node(MathNode::Constant(7));
    let c = graph.create_node(MathNode::Constant(5));
    let found = graph.find(&MathNode::Constant(5));
    assert_eq!(found.len(), 2);
    assert!(found.contains(&a));
    assert!(found.contains(&c));
    assert_eq!(graph.find(&MathNode::Double).len(), 0);
}

#[test]
fn categorization_partitions_all_nodes() {
    let mut graph: Graph<MathNode> = Graph::new();
    let a = graph.create_node(MathNode::Constant(2));
    let b = graph.create_node(MathNode::Double);
    let c = graph.create_node(MathNode::Sink(0));
    let d = graph.create_node(MathNode::Bare);
    graph.connect(
        a.output(PortIdentifier::Index(0)),
        b.input(PortIdentifier::Index(0)),
    );
    graph.connect(
        b.output(PortIdentifier::Index(0)),
        c.input(PortIdentifier::Index(0)),
    );
    let analyzer = GraphAnalyzer::new(&graph);
    let categories = analyzer.catagorize_nodes();
    assert_eq!(categories.entry, vec![a]);
    assert_eq!(categories.net, vec![b]);
    assert_eq!(categories.exit, vec![c]);
    assert_eq!(categories.loose, vec![d]);
}

#[test]
fn loose_means_no_active_connection_even_with_ports() {
    let mut graph: Graph<MathNode> = Graph::new();
    // has declared ports, but nothing connected: still loose
    let a = graph.create_node(MathNode::Double);
    let analyzer = GraphAnalyzer::new(&graph);
    let categories = analyzer.catagorize_nodes();
    assert_eq!(categories.loose, vec![a]);
    assert!(categories.entry.is_empty());
    assert!(categories.exit.is_empty());
    assert!(categories.net.is_empty());
}

#[test]
fn execution_path_respects_dependencies() {
    let mut graph: Graph<MathNode> = Graph::new();
    // diamond: a feeds b and c, both feed d
    let a = graph.create_node(MathNode::Constant(1));
    let b = graph.create_node(MathNode::Double);
    let c = graph.create_node(MathNode::Double);
    let (d, d_ins, _) = graph.create_node_with_ports(
        MathNode::Sink(0),
        vec![
            ("left".to_string(), Untyped, Some(0)),
            ("right".to_string(), Untyped, Some(0)),
        ],
        vec![],
    );
    graph.connect(
        a.output(PortIdentifier::Index(0)),
        b.input(PortIdentifier::Index(0)),
    );
    graph.connect(
        a.output(PortIdentifier::Index(0)),
        c.input(PortIdentifier::Index(0)),
    );
    graph.connect(b.output(PortIdentifier::Index(0)), d_ins[0]);
    graph.connect(c.output(PortIdentifier::Index(0)), d_ins[1]);
    let analyzer = GraphAnalyzer::new(&graph);
    let path = analyzer.generate_execution_path(&vec![d]);
    assert_eq!(path.len(), 4);
    let pos = |n| path.iter().position(|&x| x == n).unwrap();
    // every connection's producer comes strictly before its consumer
    assert!(pos(a) < pos(b));
    assert!(pos(a) < pos(c));
    assert!(pos(b) < pos(d));
    assert!(pos(c) < pos(d));
}

#[test]
fn complete_path_covers_exit_nodes() {
    let mut graph: Graph<MathNode> = Graph::new();
    let a = graph.create_node(MathNode::Constant(1));
    let b = graph.create_node(MathNode::Sink(0));
    let _loose = graph.create_node(MathNode::Bare);
    graph.connect(
        a.output(PortIdentifier::Index(0)),
        b.input(PortIdentifier::Index(0)),
    );
    let analyzer = GraphAnalyzer::new(&graph);
    let path = analyzer.generate_complete_execution_path();
    assert_eq!(path, vec![a, b]);
}

#[test]
fn type_tags_gate_connections() {
    // the trivial tag converts to itself
    assert!(Untyped.can_convert_to(Untyped));
}
