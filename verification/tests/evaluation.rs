use node_graph::reference::PortIdentifier;
use node_graph::walker::{GraphWalkContext, GraphWalker, NodeEvaluator, OutputCache};
use node_graph::{Graph, InitialPorts, Node, Untyped};

#[derive(Debug, Clone, Copy, PartialEq)]
enum EvalNode {
    Emit(i64),
    Double,
    Record(i64),
    SumAll(i64),
}

impl Node for EvalNode {
    type DataType = Untyped;
    type DataValue = i64;

    fn initial_ports(&self) -> InitialPorts<Self> {
        match self {
            EvalNode::Emit(_) => InitialPorts {
                inputs: vec![],
                outputs: vec![("value".to_string(), Untyped)],
            },
            EvalNode::Double => InitialPorts {
                inputs: vec![("in".to_string(), Untyped, 0)],
                outputs: vec![("out".to_string(), Untyped)],
            },
            EvalNode::Record(_) => InitialPorts {
                inputs: vec![("in".to_string(), Untyped, 0)],
                outputs: vec![],
            },
            // SumAll declares no initial ports; its no-default input is
            // registered explicitly by the tests
            EvalNode::SumAll(_) => InitialPorts { inputs: vec![], outputs: vec![] },
        }
    }
}

struct Eval;

impl NodeEvaluator<EvalNode> for Eval {
    fn evaluate(
        &self,
        state: &mut EvalNode,
        graph: &Graph<EvalNode>,
        context: &mut GraphWalkContext<EvalNode>,
    ) {
        match *state {
            EvalNode::Emit(v) => context.set(graph, &PortIdentifier::Index(0), v),
            EvalNode::Double => {
                let x = context.get(graph, &PortIdentifier::Name("in".to_string()));
                context.set(graph, &PortIdentifier::Index(0), x * 2);
            }
            EvalNode::Record(_) => {
                let x = context.get(graph, &PortIdentifier::Name("in".to_string()));
                *state = EvalNode::Record(x);
            }
            EvalNode::SumAll(_) => {
                let values = context.get_all(graph, &PortIdentifier::Name("x".to_string()));
                let mut total: i64 = 0;
                for v in values {
                    total += v;
                }
                *state = EvalNode::SumAll(total);
            }
        }
    }
}

#[test]
fn linear_chain_computes_through() {
    let mut graph: Graph<EvalNode> = Graph::new();
    let a = graph.create_node(EvalNode::Emit(5));
    let b = graph.create_node(EvalNode::Double);
    let c = graph.create_node(EvalNode::Record(0));
    graph.connect(
        a.output(PortIdentifier::Index(0)),
        b.input(PortIdentifier::Name("in".to_string())),
    );
    graph.connect(
        b.output(PortIdentifier::Index(0)),
        c.input(PortIdentifier::Name("in".to_string())),
    );
    let mut walker = GraphWalker::new(&graph, None);
    assert_eq!(walker.path(), &vec![a, b, c]);
    walker.walk(&mut graph, &Eval);
    assert_eq!(graph.get_node(c), Some(&EvalNode::Record(10)));
}

#[test]
fn fan_in_yields_all_values_in_connection_order() {
    let mut graph: Graph<EvalNode> = Graph::new();
    let p1 = graph.create_node(EvalNode::Emit(3));
    let p2 = graph.create_node(EvalNode::Emit(4));
    let (s, s_ins, _) = graph.create_node_with_ports(
        EvalNode::SumAll(0),
        vec![("x".to_string(), Untyped, None)],
        vec![],
    );
    graph.connect(p1.output(PortIdentifier::Index(0)), s_ins[0]);
    graph.connect(p2.output(PortIdentifier::Index(0)), s_ins[0]);
    let mut walker = GraphWalker::new(&graph, None);
    walker.walk(&mut graph, &Eval);
    // a node author summing via get_all computes 7
    assert_eq!(graph.get_node(s), Some(&EvalNode::SumAll(7)));
    // get_all yields both, in connection order; get yields the first
    let mut after = GraphWalker::from_path(vec![], Some(walker.release_cache()));
    let context = after.get(s);
    assert_eq!(
        context.get_all(&graph, &PortIdentifier::Name("x".to_string())),
        vec![3, 4],
    );
    assert_eq!(
        context.try_get(&graph, &PortIdentifier::Name("x".to_string())),
        Some(3),
    );
    after.finish(context);
}

#[test]
fn default_is_used_when_nothing_arrives() {
    let mut graph: Graph<EvalNode> = Graph::new();
    let b = graph.create_node(EvalNode::Double);
    let p = graph.get_input_port(b, "in").unwrap();
    graph.set_default_value(p, 7);
    let mut walker: GraphWalker<EvalNode> = GraphWalker::from_path(vec![], None);
    let context = walker.get(b);
    // no incoming connection: the configured default comes back
    assert_eq!(
        context.get(&graph, &PortIdentifier::Name("in".to_string())),
        7,
    );
    walker.finish(context);
}

#[test]
fn cached_value_wins_over_default() {
    let mut graph: Graph<EvalNode> = Graph::new();
    let a = graph.create_node(EvalNode::Emit(9));
    let b = graph.create_node(EvalNode::Double);
    let p = graph.get_input_port(b, "in").unwrap();
    graph.set_default_value(p, 7);
    graph.connect(a.output(PortIdentifier::Index(0)), p);
    let mut walker = GraphWalker::new(&graph, None);
    walker.walk(&mut graph, &Eval);
    let mut after = GraphWalker::from_path(vec![], Some(walker.release_cache()));
    let context = after.get(b);
    // the producer ran and cached 9: that value, not the default, comes back
    assert_eq!(
        context.get(&graph, &PortIdentifier::Name("in".to_string())),
        9,
    );
    after.finish(context);
}

#[test]
fn missing_value_and_missing_default_is_an_error() {
    let mut graph: Graph<EvalNode> = Graph::new();
    let (s, _ins, _) = graph.create_node_with_ports(
        EvalNode::SumAll(0),
        vec![("x".to_string(), Untyped, None)],
        vec![],
    );
    let mut walker: GraphWalker<EvalNode> = GraphWalker::from_path(vec![], None);
    let context = walker.get(s);
    // resolvable, but neither a cached value nor a default exists
    assert!(context.can_get(&graph, &PortIdentifier::Name("x".to_string())));
    assert_eq!(
        context.try_get(&graph, &PortIdentifier::Name("x".to_string())),
        None,
    );
    // an identifier that names nothing does not resolve at all
    assert!(!context.can_get(&graph, &PortIdentifier::Name("y".to_string())));
    walker.finish(context);
}

#[test]
fn connected_but_uncached_is_strict() {
    let mut graph: Graph<EvalNode> = Graph::new();
    let a = graph.create_node(EvalNode::Emit(9));
    let b = graph.create_node(EvalNode::Double);
    let p = graph.get_input_port(b, "in").unwrap();
    graph.set_default_value(p, 7);
    graph.connect(a.output(PortIdentifier::Index(0)), p);
    // the producer has not run: strictly, no silent fallback to the default
    let mut walker: GraphWalker<EvalNode> = GraphWalker::from_path(vec![], None);
    let context = walker.get(b);
    assert_eq!(
        context.try_get(&graph, &PortIdentifier::Name("in".to_string())),
        None,
    );
    walker.finish(context);
}

#[test]
fn set_writes_the_cache() {
    let mut graph: Graph<EvalNode> = Graph::new();
    let a = graph.create_node(EvalNode::Emit(1));
    let out = graph.get_output_port(a, "value").unwrap();
    let mut walker: GraphWalker<EvalNode> = GraphWalker::from_path(vec![], None);
    let mut context = walker.get(a);
    assert!(context.can_set(&graph, &PortIdentifier::Index(0)));
    context.set(&graph, &PortIdentifier::Index(0), 42);
    // overwriting within the same walk is allowed; the newest value wins
    context.set(&graph, &PortIdentifier::Index(0), 43);
    walker.finish(context);
    let cache = walker.release_cache();
    assert_eq!(cache.get(out), Some(&43));
}

#[test]
fn cache_handoff_supports_incremental_evaluation() {
    let mut cache: OutputCache<i64> = OutputCache::new();
    let mut graph: Graph<EvalNode> = Graph::new();
    let a = graph.create_node(EvalNode::Emit(2));
    let out = graph.get_output_port(a, "value").unwrap();
    cache.insert(out, 11);
    let walker: GraphWalker<EvalNode> = GraphWalker::from_path(vec![a], Some(cache));
    assert_eq!(walker.path(), &vec![a]);
    let recovered = walker.release_cache();
    assert_eq!(recovered.get(out), Some(&11));
}

#[test]
fn walk_re_runs_the_full_path() {
    let mut graph: Graph<EvalNode> = Graph::new();
    let a = graph.create_node(EvalNode::Emit(5));
    let b = graph.create_node(EvalNode::Record(0));
    graph.connect(
        a.output(PortIdentifier::Index(0)),
        b.input(PortIdentifier::Index(0)),
    );
    let mut walker = GraphWalker::new(&graph, Some(&vec![b]));
    walker.walk(&mut graph, &Eval);
    assert_eq!(graph.get_node(b), Some(&EvalNode::Record(5)));
    // the path is immutable; re-invoking walk re-runs it
    walker.walk(&mut graph, &Eval);
    assert_eq!(graph.get_node(b), Some(&EvalNode::Record(5)));
}
