//! Decisions made while running processes in a graph.
//!
//! Spawning processes, forwarding their output and sending them signals is
//! done by the caller; this module decides what each event leads to.

use vstd::prelude::*;

use crate::config::ReadyWhen;
use crate::graph::{dir_neighbors, graph_wf, process_edges, process_nodes, Direction, ProcessGraph};

verus! {

/// Calls `<str as PartialEq>::eq`: whether the strings are equal.
#[verifier::external_body]
pub(crate) fn str_eq(a: &str, b: &str) -> (r: bool)
    ensures
        r == (a@ == b@),
{
    a == b
}

/// Output kind.
#[derive(Debug, Clone, Copy, PartialEq, Eq, Structural)]
pub enum OutputKind {
    /// `stdout`.
    Stdout,
    /// `stderr`.
    Stderr,
}

impl OutputKind {
    /// Convert `"stdout"` or `"stderr"` into [`OutputKind`].
    pub fn from_str(s: &str) -> (r: OutputKind)
        requires
            s@ == "stdout"@ || s@ == "stderr"@,
        ensures
            s@ == "stdout"@ ==> r == OutputKind::Stdout,
            s@ != "stdout"@ ==> r == OutputKind::Stderr,
    {
        if str_eq(s, "stdout") {
            OutputKind::Stdout
        } else {
            OutputKind::Stderr
        }
    }

    /// Get a unique character for the current value: `O` or `E`.
    pub fn to_char(&self) -> (r: char)
        ensures
            r == (match self {
                OutputKind::Stdout => 'O',
                OutputKind::Stderr => 'E',
            }),
    {
        match self {
            OutputKind::Stdout => 'O',
            OutputKind::Stderr => 'E',
        }
    }

    /// The name of the stream.
    pub fn as_str(&self) -> (r: &'static str)
        ensures
            r@ == (match self {
                OutputKind::Stdout => "stdout"@,
                OutputKind::Stderr => "stderr"@,
            }),
    {
        match self {
            OutputKind::Stdout => "stdout",
            OutputKind::Stderr => "stderr",
        }
    }
}

/// How a process ended.
#[derive(Debug, Clone, Copy, PartialEq, Eq, Structural)]
pub enum ProcessExit {
    /// The process exited successfully.
    Succeeded,
    /// The process exited unsuccessfully after being asked to stop.
    CancelledWithError,
    /// The process exited unsuccessfully of its own accord.
    ExitedWithError,
}

/// Classify how a process ended, from whether its exit status is a success
/// and whether it was asked to stop before exiting.
pub fn exit_outcome(success: bool, cancelled: bool) -> (r: ProcessExit)
    ensures
        r == (if success {
            ProcessExit::Succeeded
        } else if cancelled {
            ProcessExit::CancelledWithError
        } else {
            ProcessExit::ExitedWithError
        }),
{
    if success {
        ProcessExit::Succeeded
    } else if cancelled {
        ProcessExit::CancelledWithError
    } else {
        ProcessExit::ExitedWithError
    }
}

/// Whether a process becomes ready as soon as it has been spawned (a
/// service), letting the processes that depend on it be spawned.
pub fn ready_at_spawn(ready_when: ReadyWhen) -> (r: bool)
    ensures
        r == (ready_when == ReadyWhen::Spawned),
{
    match ready_when {
        ReadyWhen::Spawned => true,
        ReadyWhen::Exited => false,
    }
}

/// Whether a process becomes ready when it exits: a task does, if it exited
/// successfully.
pub fn ready_at_exit(ready_when: ReadyWhen, exit: ProcessExit) -> (r: bool)
    ensures
        r == (ready_when == ReadyWhen::Exited && exit == ProcessExit::Succeeded),
{
    match (ready_when, exit) {
        (ReadyWhen::Exited, ProcessExit::Succeeded) => true,
        _ => false,
    }
}

/// Every process without dependents is a task.
pub open spec fn leaves_are_tasks(g: ProcessGraph) -> bool {
    forall|v: usize|
        v < process_nodes(g).len() && dir_neighbors(process_edges(g), v, Direction::Outgoing).len() == 0
            ==> #[trigger] process_nodes(g)[v as int].value.ready_when == ReadyWhen::Exited
}

/// Whether a run goes on waiting for the user to request cancellation once
/// its processes have been started. A run in which a process has failed to
/// spawn or exited unsuccessfully (`failed`) ends at once. Otherwise it waits
/// unless every process without dependents is a task, or there are no
/// processes: services keep running until the user asks them to stop.
pub fn waits_for_cancellation(graph: &ProcessGraph, failed: bool) -> (r: bool)
    requires
        graph_wf(*graph),
    ensures
        r == !(failed || leaves_are_tasks(*graph) || process_nodes(*graph).len() == 0),
{
    if failed {
        return false;
    }
    let leaves = crate::graph::externals(graph, Direction::Outgoing);
    let mut all_tasks = true;
    for i in 0..leaves.len()
        invariant
            forall|v: usize| #[trigger] leaves@.contains(v) <==> (v < process_nodes(*graph).len()
                && dir_neighbors(process_edges(*graph), v, Direction::Outgoing).len() == 0),
            all_tasks == forall|k: int| 0 <= k < i ==> process_nodes(*graph)[#[trigger] leaves@[k] as int].value.ready_when == ReadyWhen::Exited,
    {
        assert(leaves@.contains(leaves@[i as int]));
        let node = crate::graph::node(graph, leaves[i]);
        if node.value.ready_when != ReadyWhen::Exited {
            all_tasks = false;
        }
    }
    proof {
        if all_tasks {
            assert forall|v: usize|
                v < process_nodes(*graph).len() && dir_neighbors(process_edges(*graph), v, Direction::Outgoing).len() == 0
                implies #[trigger] process_nodes(*graph)[v as int].value.ready_when == ReadyWhen::Exited by {
                assert(leaves@.contains(v));
                let k = choose|k: int| 0 <= k < leaves@.len() && leaves@[k] == v;
                assert(process_nodes(*graph)[leaves@[k] as int].value.ready_when == ReadyWhen::Exited);
            }
        } else {
            let k = choose|k: int| 0 <= k < leaves@.len() && process_nodes(*graph)[#[trigger] leaves@[k] as int].value.ready_when != ReadyWhen::Exited;
            assert(leaves@.contains(leaves@[k]));
        }
    }
    let n = crate::graph::node_count(graph);
    !(all_tasks || n == 0)
}

} // verus!
