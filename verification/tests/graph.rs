use engage::config::{Config, Process, ReadyWhen};
use engage::error::BuildGraph;
use engage::graph::{
    build, externals, node, node_count, subgraph, Direction, EdgeKind, EdgeOrderVisit, ProcessGraph, StoppableVisit, VisitStep,
};
use engage::message::fmt_cycle;
use engage::name::{Name, Named};
use engage::run::waits_for_cancellation;
use petgraph::graph::NodeIndex;

fn name(s: &str) -> Name {
    Name::from_str(s).expect("hard-coded value should be valid")
}

fn names(ns: &[&str]) -> Vec<Name> {
    ns.iter().map(|s| name(s)).collect()
}

fn proc_(n: &str, after: &[&str], before: &[&str], ready_when: ReadyWhen) -> Named<Process> {
    Named {
        name: name(n),
        value: Process::new(vec!["true".to_string()], ready_when, Vec::new(), names(after), names(before)),
    }
}

fn config(ps: Vec<Named<Process>>) -> Config {
    Config::from_processes(ps).ok().expect("names are distinct")
}

fn edge(g: &ProcessGraph, a: usize, b: usize) -> Option<EdgeKind> {
    g.find_edge(NodeIndex::new(a), NodeIndex::new(b)).map(|e| g[e])
}

fn node_names(g: &ProcessGraph) -> Vec<String> {
    (0..node_count(g)).map(|i| node(g, i).name.as_str().to_string()).collect()
}

#[test]
fn build_after_and_before() {
    // b runs after a; c runs before a.
    let c = config(vec![
        proc_("a", &[], &[], ReadyWhen::Exited),
        proc_("b", &["a"], &[], ReadyWhen::Exited),
        proc_("c", &[], &["a"], ReadyWhen::Exited),
    ]);
    let (g, errors) = build(&c);
    assert!(errors.is_empty());
    assert_eq!(node_names(&g), vec!["a", "b", "c"]);
    assert_eq!(g.edge_count(), 2);
    assert_eq!(edge(&g, 0, 1), Some(EdgeKind::After));
    assert_eq!(edge(&g, 2, 0), Some(EdgeKind::Before));
    assert_eq!(edge(&g, 1, 0), None);
}

#[test]
fn build_reports_missing_dependencies_in_order() {
    let c = config(vec![
        proc_("a", &["x"], &["y"], ReadyWhen::Exited),
        proc_("b", &["a", "z"], &[], ReadyWhen::Exited),
    ]);
    let (g, errors) = build(&c);
    assert_eq!(g.edge_count(), 1);
    let got: Vec<(String, String, EdgeKind)> = errors
        .iter()
        .map(|e| match e {
            BuildGraph::DependencyNotFound { process, dependency, edge_kind } => {
                (process.as_str().to_string(), dependency.as_str().to_string(), *edge_kind)
            },
            BuildGraph::DependencyCycle(_) => panic!("no cycle expected"),
        })
        .collect();
    assert_eq!(
        got,
        vec![
            ("a".to_string(), "x".to_string(), EdgeKind::After),
            ("a".to_string(), "y".to_string(), EdgeKind::Before),
            ("b".to_string(), "z".to_string(), EdgeKind::After),
        ]
    );
}

fn cycles(errors: &[BuildGraph]) -> Vec<Vec<String>> {
    errors
        .iter()
        .filter_map(|e| match e {
            BuildGraph::DependencyCycle(ns) => {
                let mut v: Vec<String> = ns.iter().map(|n| n.as_str().to_string()).collect();
                v.sort();
                Some(v)
            },
            _ => None,
        })
        .collect()
}

#[test]
fn self_loop_is_a_cycle() {
    let c = config(vec![proc_("a", &["a"], &[], ReadyWhen::Exited), proc_("b", &[], &[], ReadyWhen::Exited)]);
    let (_, errors) = build(&c);
    assert_eq!(cycles(&errors), vec![vec!["a".to_string()]]);
    match &errors[0] {
        BuildGraph::DependencyCycle(ns) => assert_eq!(fmt_cycle(ns), "`a` depends on itself"),
        _ => panic!("expected a cycle"),
    }
}

#[test]
fn dependency_cycle_is_reported_once() {
    let c = config(vec![
        proc_("a", &["c"], &[], ReadyWhen::Exited),
        proc_("b", &["a"], &[], ReadyWhen::Exited),
        proc_("c", &["b"], &[], ReadyWhen::Exited),
        proc_("d", &["c"], &[], ReadyWhen::Exited),
    ]);
    let (_, errors) = build(&c);
    assert_eq!(cycles(&errors), vec![vec!["a".to_string(), "b".to_string(), "c".to_string()]]);
}

#[test]
fn acyclic_graph_has_no_cycle_reports() {
    let c = config(vec![
        proc_("a", &[], &["b"], ReadyWhen::Exited),
        proc_("b", &[], &[], ReadyWhen::Exited),
        proc_("c", &["a", "b"], &[], ReadyWhen::Exited),
    ]);
    let (_, errors) = build(&c);
    assert!(errors.is_empty());
}

fn chain() -> ProcessGraph {
    // a -> b -> c, and d alone.
    let c = config(vec![
        proc_("a", &[], &[], ReadyWhen::Exited),
        proc_("b", &["a"], &[], ReadyWhen::Exited),
        proc_("c", &["b"], &[], ReadyWhen::Exited),
        proc_("d", &[], &[], ReadyWhen::Exited),
    ]);
    build(&c).0
}

#[test]
fn subgraph_keeps_dependencies() {
    let g = chain();
    let sub = subgraph(&g, &names(&["b"])).ok().expect("b exists");
    assert_eq!(node_names(&sub), vec!["a", "b"]);
    assert_eq!(sub.edge_count(), 1);
    assert_eq!(edge(&sub, 0, 1), Some(EdgeKind::After));

    let sub = subgraph(&g, &names(&["d", "a"])).ok().expect("both exist");
    assert_eq!(node_names(&sub), vec!["a", "d"]);
    assert_eq!(sub.edge_count(), 0);
}

#[test]
fn subgraph_reports_missing_processes() {
    let g = chain();
    match subgraph(&g, &names(&["x", "a", "y"])) {
        Err(es) => {
            let missing: Vec<&str> = es.iter().map(|e| e.0.as_str()).collect();
            assert_eq!(missing, vec!["x", "y"]);
        },
        Ok(_) => panic!("x and y do not exist"),
    }
}

#[test]
fn subgraph_reports_each_missing_process_once_in_name_order() {
    let g = chain();
    match subgraph(&g, &names(&["y", "a", "x", "y"])) {
        Err(es) => {
            let missing: Vec<&str> = es.iter().map(|e| e.0.as_str()).collect();
            assert_eq!(missing, vec!["x", "y"]);
        },
        Ok(_) => panic!("x and y do not exist"),
    }
}

#[test]
fn externals_of_a_chain() {
    let g = chain();
    assert_eq!(externals(&g, Direction::Incoming), vec![0, 3]);
    assert_eq!(externals(&g, Direction::Outgoing), vec![2, 3]);
    assert_eq!(Direction::Incoming.opposite(), Direction::Outgoing);
}

#[test]
fn edge_order_visit_starts_only_after_dependencies() {
    // a first; b and c after a; d after b and c.
    let c = config(vec![
        proc_("a", &[], &[], ReadyWhen::Exited),
        proc_("b", &["a"], &[], ReadyWhen::Exited),
        proc_("c", &["a"], &[], ReadyWhen::Exited),
        proc_("d", &["b", "c"], &[], ReadyWhen::Exited),
    ]);
    let (g, errors) = build(&c);
    assert!(errors.is_empty());
    let (mut visit, first) = EdgeOrderVisit::start(&g, Direction::Incoming);
    assert_eq!(first, vec![0]);
    let mut next = visit.on_visited(&g, 0).expect("not done");
    next.sort();
    assert_eq!(next, vec![1, 2]);
    assert_eq!(visit.on_visited(&g, 1), Some(vec![]));
    assert_eq!(visit.on_visited(&g, 2), Some(vec![3]));
    assert_eq!(visit.on_visited(&g, 3), None);
}

#[test]
fn edge_order_visit_in_reverse() {
    let g = chain();
    let (mut visit, first) = EdgeOrderVisit::start(&g, Direction::Outgoing);
    assert_eq!(first, vec![2, 3]);
    assert_eq!(visit.on_visited(&g, 3), Some(vec![]));
    assert_eq!(visit.on_visited(&g, 2), Some(vec![1]));
    assert_eq!(visit.on_visited(&g, 1), Some(vec![0]));
    assert_eq!(visit.on_visited(&g, 0), None);
}

#[test]
fn empty_graph() {
    let g = build(&config(vec![])).0;
    assert_eq!(node_count(&g), 0);
    let (_, first) = EdgeOrderVisit::start(&g, Direction::Incoming);
    assert!(first.is_empty());
    assert!(!waits_for_cancellation(&g, false));
}

#[test]
fn waiting_for_cancellation() {
    let tasks = chain();
    assert!(!waits_for_cancellation(&tasks, false));
    let c = config(vec![
        proc_("db", &[], &[], ReadyWhen::Spawned),
        proc_("migrate", &["db"], &[], ReadyWhen::Exited),
    ]);
    assert!(!waits_for_cancellation(&build(&c).0, false));
    let c = config(vec![
        proc_("migrate", &[], &[], ReadyWhen::Exited),
        proc_("server", &["migrate"], &[], ReadyWhen::Spawned),
    ]);
    assert!(waits_for_cancellation(&build(&c).0, false));
    // A failure ends the run: nothing waits for the user then.
    assert!(!waits_for_cancellation(&build(&c).0, true));
}

#[test]
fn edge_kinds_and_widths() {
    assert_eq!(EdgeKind::Before.as_str(), "via 'before'");
    assert_eq!(EdgeKind::After.as_str(), "via 'after'");
    assert_eq!(EdgeKind::After.list_name(), "after");
    assert_eq!(engage::output::longest_name(&chain()), 1);
    let c = config(vec![proc_("web", &[], &[], ReadyWhen::Exited), proc_("database", &[], &[], ReadyWhen::Exited)]);
    assert_eq!(engage::output::longest_name(&build(&c).0), 8);
}

#[test]
fn redundant_dependency_releases_once() {
    // b after a, and a before b: two edges from a to b.
    let c = config(vec![
        proc_("a", &[], &["b"], ReadyWhen::Exited),
        proc_("b", &["a"], &[], ReadyWhen::Exited),
    ]);
    let (g, errors) = build(&c);
    assert!(errors.is_empty());
    assert_eq!(g.edge_count(), 2);
    let (mut visit, first) = EdgeOrderVisit::start(&g, Direction::Incoming);
    assert_eq!(first, vec![0]);
    assert_eq!(visit.on_visited(&g, 0), Some(vec![1]));
    assert_eq!(visit.on_visited(&g, 1), None);
}

#[test]
fn stoppable_visit_runs_to_the_end() {
    let g = chain();
    let (mut visit, first) = StoppableVisit::start(&g, Direction::Incoming);
    assert_eq!(first, vec![0, 3]);
    assert!(matches!(visit.on_done(&g, 3, true), VisitStep::Visit(v) if v.is_empty()));
    assert!(matches!(visit.on_done(&g, 0, true), VisitStep::Visit(v) if v == vec![1]));
    assert!(matches!(visit.on_done(&g, 1, true), VisitStep::Visit(v) if v == vec![2]));
    assert!(matches!(visit.on_done(&g, 2, true), VisitStep::Done));
}

#[test]
fn stoppable_visit_stops_on_failure() {
    let g = chain();
    let (mut visit, _) = StoppableVisit::start(&g, Direction::Incoming);
    assert!(matches!(visit.on_done(&g, 0, false), VisitStep::Stopped));
    // A later success changes nothing: the dependents of 3 are not started.
    assert!(matches!(visit.on_done(&g, 3, true), VisitStep::Stopped));
}

#[test]
fn stoppable_visit_stops_on_cancel() {
    let g = chain();
    let (mut visit, _) = StoppableVisit::start(&g, Direction::Incoming);
    visit.cancel();
    assert!(matches!(visit.on_done(&g, 0, true), VisitStep::Stopped));
}

#[test]
fn a_failure_next_to_a_service_ends_the_run() {
    let c = config(vec![
        proc_("a", &[], &[], ReadyWhen::Exited),
        proc_("s", &[], &[], ReadyWhen::Spawned),
    ]);
    let g = build(&c).0;
    assert!(waits_for_cancellation(&g, false));
    assert!(!waits_for_cancellation(&g, true));
}
