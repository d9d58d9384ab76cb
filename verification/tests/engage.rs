use engage::engage::{
    fmt_task_line, names_to_prefix, task_exit_ok, task_group_name_separator, Engage, EngageFileError, Group, Node,
    ParallelSchedule, Task, TaskGraph,
};
use engage::group_graph::GraphError;
use petgraph::graph::NodeIndex;

fn task(group: &str, name: &str, depends: &[&str]) -> Task {
    Task {
        name: name.to_string(),
        group: group.to_string(),
        script: format!("echo {name}"),
        ignored: Vec::new(),
        depends: depends.iter().map(|s| s.to_string()).collect(),
    }
}

fn group(name: &str, depends: &[&str]) -> Group {
    Group { name: name.to_string(), depends: depends.iter().map(|s| s.to_string()).collect() }
}

fn engage(tasks: Vec<Task>, groups: Vec<Group>) -> Engage {
    Engage { interpreter: vec!["bash".to_string(), "-c".to_string()], tasks, groups }
}

fn has_edge(g: &TaskGraph, a: usize, b: usize) -> bool {
    g.find_edge(NodeIndex::new(a), NodeIndex::new(b)).is_some()
}

fn describe(g: &TaskGraph, i: usize) -> String {
    match &g[NodeIndex::new(i)] {
        Node::Task(t) => names_to_prefix(&t.group, &t.name),
        Node::GroupStart(gr) => format!("start {}", gr.name),
        Node::GroupEnd => "end".to_string(),
    }
}

#[test]
fn prefixes() {
    assert_eq!(task_group_name_separator(), "::");
    assert_eq!(names_to_prefix("build", "lint"), "build::lint");
    assert_eq!(task("g", "t", &[]).to_prefix(), "g::t");
    let e = engage(vec![task("ab", "c", &[]), task("x", "longer", &[])], vec![]);
    assert_eq!(e.longest_prefix(), "x::longer".len());
    assert_eq!(engage(vec![], vec![]).longest_prefix(), 0);
}

#[test]
fn update_groups_adds_implied_groups_in_order() {
    let mut e = engage(
        vec![task("b", "1", &[]), task("a", "2", &[]), task("b", "3", &[]), task("c", "4", &[])],
        vec![group("a", &["c"])],
    );
    e.update_groups();
    let names: Vec<&str> = e.groups.iter().map(|g| g.name.as_str()).collect();
    assert_eq!(names, vec!["a", "b", "c"]);
    assert_eq!(e.groups[0].depends, vec!["c".to_string()]);
    assert!(e.groups[1].depends.is_empty());
    assert!(e.groups[2].depends.is_empty());
    // A second call changes nothing.
    e.update_groups();
    assert_eq!(e.groups.len(), 3);
}

#[test]
fn validate_interpreter() {
    assert_eq!(engage(vec![], vec![]).validate(), Ok(()));
    let e = Engage { interpreter: vec![], tasks: vec![], groups: vec![] };
    assert_eq!(e.validate(), Err(vec![EngageFileError::EmptyInterpreter]));
}

#[test]
fn exit_codes() {
    assert!(task_exit_ok(true, Some(0), &vec![]));
    assert!(!task_exit_ok(false, Some(1), &vec![]));
    assert!(task_exit_ok(false, Some(1), &vec![2, 1]));
    assert!(!task_exit_ok(false, None, &vec![1]));
}

#[test]
fn one_group_with_a_dependency() {
    let e = engage(vec![task("g", "a", &[]), task("g", "b", &["a"])], vec![group("g", &[])]);
    let g = e.to_graph().ok().expect("valid graph");
    let nodes: Vec<String> = (0..g.node_count()).map(|i| describe(&g, i)).collect();
    assert_eq!(nodes, vec!["start g", "end", "g::a", "g::b"]);
    // start -> a -> b -> end; the start edge of b and the end edge of a are gone.
    assert_eq!(g.edge_count(), 3);
    assert!(has_edge(&g, 0, 2));
    assert!(has_edge(&g, 2, 3));
    assert!(has_edge(&g, 3, 1));
    assert!(!has_edge(&g, 0, 3));
    assert!(!has_edge(&g, 2, 1));
}

#[test]
fn independent_tasks_run_between_start_and_end() {
    let e = engage(vec![task("g", "a", &[]), task("g", "b", &[])], vec![group("g", &[])]);
    let g = e.to_graph().ok().expect("valid graph");
    assert_eq!(g.node_count(), 4);
    assert_eq!(g.edge_count(), 4);
    for t in [2, 3] {
        assert!(has_edge(&g, 0, t));
        assert!(has_edge(&g, t, 1));
    }
}

#[test]
fn group_dependencies() {
    let e = engage(
        vec![task("first", "a", &[]), task("second", "b", &[])],
        vec![group("first", &[]), group("second", &["first", "missing"])],
    );
    let g = e.to_graph().ok().expect("valid graph");
    let nodes: Vec<String> = (0..g.node_count()).map(|i| describe(&g, i)).collect();
    assert_eq!(nodes, vec!["start first", "end", "first::a", "start second", "end", "second::b"]);
    // The end of `first` comes before the start of `second`; the unknown
    // group adds nothing.
    assert_eq!(g.edge_count(), 5);
    assert!(has_edge(&g, 1, 3));
}

#[test]
fn dependency_outside_the_group() {
    let e = engage(
        vec![task("g", "a", &[]), task("h", "b", &[]), task("g", "c", &["a", "b"])],
        vec![group("g", &[]), group("h", &[])],
    );
    match e.to_graph() {
        Err(GraphError::TaskNotInGroup { task, current_group }) => {
            assert_eq!(task, "b");
            assert_eq!(current_group, "g");
        },
        _ => panic!("expected a dependency outside the group"),
    }
}

#[test]
fn task_cycle() {
    let e = engage(vec![task("g", "a", &["b"]), task("g", "b", &["a"])], vec![group("g", &[])]);
    assert!(matches!(e.to_graph(), Err(GraphError::Cycle)));
    let e = engage(vec![task("g", "a", &["a"])], vec![group("g", &[])]);
    assert!(matches!(e.to_graph(), Err(GraphError::Cycle)));
}

#[test]
fn group_cycle() {
    let e = engage(
        vec![task("x", "a", &[]), task("y", "b", &[])],
        vec![group("x", &["y"]), group("y", &["x"])],
    );
    assert!(matches!(e.to_graph(), Err(GraphError::Cycle)));
}

#[test]
fn parallel_schedule_runs_each_node_after_its_dependencies() {
    let e = engage(vec![task("g", "a", &[]), task("g", "b", &["a"])], vec![group("g", &[])]);
    let g = e.to_graph().ok().expect("valid graph");
    // start(0) -> a(2) -> b(3) -> end(1)
    let (mut s, first) = ParallelSchedule::start(&g);
    assert_eq!(first, vec![0]);
    assert_eq!(s.on_visited(&g, 0), (vec![2], false));
    assert_eq!(s.on_visited(&g, 2), (vec![3], false));
    assert_eq!(s.on_visited(&g, 3), (vec![1], false));
    assert_eq!(s.on_visited(&g, 1), (vec![], true));
}

#[test]
fn task_commands() {
    let e = engage(vec![], vec![]);
    let (program, args) = e.task_command(&task("g", "t", &[]));
    assert_eq!(program, "bash");
    assert_eq!(args, vec!["-c".to_string(), "echo t".to_string()]);
    let e = Engage { interpreter: vec!["sh".to_string()], tasks: vec![], groups: vec![] };
    let (program, args) = e.task_command(&task("g", "t", &[]));
    assert_eq!(program, "sh");
    assert_eq!(args, vec!["echo t".to_string()]);
}

#[test]
fn task_lines() {
    assert_eq!(fmt_task_line(&task("g", "t", &[]), 6, "hello"), "  g::t \u{2502} hello");
    assert_eq!(fmt_task_line(&task("group", "task", &[]), 3, "x"), "group::task \u{2502} x");
}

#[test]
fn every_task_lies_between_its_group_start_and_end() {
    // c depends on b, b on a; d stands alone; a second entry group follows.
    let e = engage(
        vec![
            task("g", "a", &[]),
            task("g", "b", &["a"]),
            task("g", "c", &["b", "a"]),
            task("g", "d", &[]),
            task("h", "x", &[]),
        ],
        vec![group("g", &[]), group("h", &["g"])],
    );
    let g = e.to_graph().ok().expect("valid graph");
    let reach = |a: usize, b: usize| petgraph::algo::has_path_connecting(&g, NodeIndex::new(a), NodeIndex::new(b), None);
    // Entry g: start 0, end 1, tasks 2..6; entry h: start 6, end 7, task 8.
    for t in 2..6 {
        assert!(reach(0, t), "start reaches task {t}");
        assert!(reach(t, 1), "task {t} reaches end");
    }
    assert!(reach(6, 8) && reach(8, 7));
    // Dependencies come first; the end of g comes before the start of h.
    assert!(has_edge(&g, 2, 3));
    assert!(has_edge(&g, 3, 4));
    assert!(has_edge(&g, 2, 4));
    assert!(has_edge(&g, 1, 6));
    assert!(!reach(4, 2));
}

#[test]
fn listing_sorts_groups_and_tasks() {
    let e = engage(
        vec![task("b", "z", &[]), task("a", "y", &[]), task("b", "x", &[]), task("a", "w", &[])],
        vec![group("b", &[]), group("a", &[])],
    );
    assert_eq!(e.fmt_list(), "a:\n    w\n    y\n\nb:\n    x\n    z\n");
    let e = engage(vec![], vec![group("only", &[])]);
    assert_eq!(e.fmt_list(), "only:\n");
    assert_eq!(engage(vec![], vec![]).fmt_list(), "");
    // Byte order: upper case before lower case, shorter prefix first.
    let e = engage(vec![task("g", "ab", &[]), task("g", "B", &[]), task("g", "a", &[])], vec![group("g", &[])]);
    assert_eq!(e.fmt_list(), "g:\n    B\n    a\n    ab\n");
}
