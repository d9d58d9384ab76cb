//! Engage files made of groups of tasks, each task running a script with an
//! interpreter.

use vstd::prelude::*;

use petgraph::graph::Graph;
use petgraph::Directed;

use crate::graph::{dir_neighbors, edges_in_range, has_edge, index_limit, is_cyclic, neighbors_visited, reachable, Direction};
use crate::text::{pad_start, push_char, push_padded, push_str};

verus! {

/// The separator between the task group and name.
pub fn task_group_name_separator() -> (r: &'static str)
    ensures
        r@ == "::"@,
{
    "::"
}

/// A task within the Engage file.
pub struct Task {
    /// Name of this specific task.
    pub name: String,
    /// The group that the task belongs to.
    pub group: String,
    /// The script to be executed.
    pub script: String,
    /// Any extra status codes to treat as successful.
    pub ignored: Vec<i32>,
    /// Other tasks that the task depends on, all within the same group.
    pub depends: Vec<String>,
}

/// A task group within the Engage file.
pub struct Group {
    /// Name of the group of tasks.
    pub name: String,
    /// List of groups that need to run before this one.
    pub depends: Vec<String>,
}

/// A specific group or task to run.
pub struct Just {
    /// The group to run.
    pub group: String,
    /// The task in that group to run.
    pub task: Option<String>,
}

/// Representation of the entire Engage file.
pub struct Engage {
    /// The interpreter that is used to run task scripts.
    pub interpreter: Vec<String>,
    /// The provided tasks.
    pub tasks: Vec<Task>,
    /// Configuration of task groups.
    pub groups: Vec<Group>,
}

/// The mathematical value of a [`Task`]: name, group, script, ignored exit
/// codes and the names it depends on.
pub type TaskView = (Seq<char>, Seq<char>, Seq<char>, Seq<i32>, Seq<Seq<char>>);

/// The names in a list of strings.
pub open spec fn strings_view(s: Seq<String>) -> Seq<Seq<char>> {
    s.map_values(|x: String| x@)
}

impl View for Task {
    type V = TaskView;

    open spec fn view(&self) -> TaskView {
        (self.name@, self.group@, self.script@, self.ignored@, strings_view(self.depends@))
    }
}

/// The mathematical value of a [`Group`]: name and the groups it depends on.
pub type GroupView = (Seq<char>, Seq<Seq<char>>);

impl View for Group {
    type V = GroupView;

    open spec fn view(&self) -> GroupView {
        (self.name@, strings_view(self.depends@))
    }
}

fn clone_strings(v: &Vec<String>) -> (r: Vec<String>)
    ensures
        r@ == v@,
{
    let mut r: Vec<String> = Vec::new();
    for i in 0..v.len()
        invariant
            r@ == v@.take(i as int),
    {
        r.push(v[i].clone());
        assert(r@ =~= v@.take(i + 1));
    }
    assert(v@.take(v@.len() as int) =~= v@);
    r
}

impl Clone for Task {
    fn clone(&self) -> (r: Self)
        ensures
            r@ == self@,
    {
        Task {
            name: self.name.clone(),
            group: self.group.clone(),
            script: self.script.clone(),
            ignored: self.ignored.clone(),
            depends: clone_strings(&self.depends),
        }
    }
}

impl Clone for Group {
    fn clone(&self) -> (r: Self)
        ensures
            r@ == self@,
    {
        Group { name: self.name.clone(), depends: clone_strings(&self.depends) }
    }
}

/// A node of the graph of groups and tasks.
pub enum Node {
    /// A task.
    Task(Task),
    /// The start of a group: it comes before each task of the group.
    GroupStart(Group),
    /// The end of a group: it comes after each task of the group.
    GroupEnd,
}

/// The mathematical value of a [`Node`].
pub enum NodeView {
    /// A task.
    Task(TaskView),
    /// The start of a group.
    GroupStart(GroupView),
    /// The end of a group.
    GroupEnd,
}

impl View for Node {
    type V = NodeView;

    open spec fn view(&self) -> NodeView {
        match self {
            Node::Task(t) => NodeView::Task(t@),
            Node::GroupStart(g) => NodeView::GroupStart(g@),
            Node::GroupEnd => NodeView::GroupEnd,
        }
    }
}

/// A graph of groups and tasks.
pub type TaskGraph = Graph<Node, u32, Directed, u32>;

/// The node weights of `g`, in index order.
pub uninterp spec fn task_nodes(g: Graph<Node, u32, Directed, u32>) -> Seq<Node>;

/// The edges of `g` as `(source, target, weight)`, in index order.
pub uninterp spec fn task_edges(g: Graph<Node, u32, Directed, u32>) -> Seq<(usize, usize, u32)>;

/// The views of the node weights of `g`.
pub open spec fn task_node_views(g: TaskGraph) -> Seq<NodeView> {
    task_nodes(g).map_values(|n: Node| n@)
}

/// Well-formedness of a graph of groups and tasks: its edges join its
/// nodes, and neither count is beyond the index type.
pub open spec fn task_graph_wf(g: TaskGraph) -> bool {
    &&& edges_in_range(task_edges(g), task_nodes(g).len() as int)
    &&& task_nodes(g).len() <= index_limit()
    &&& task_edges(g).len() <= index_limit()
}

/// Calls `Graph::new`: a graph without nodes or edges.
#[verifier::external_body]
pub(crate) fn tg_new() -> (g: TaskGraph)
    ensures
        task_nodes(g) == Seq::<Node>::empty(),
        task_edges(g) == Seq::<(usize, usize, u32)>::empty(),
{
    Graph::new()
}

/// Calls `Graph::add_node`: the weight is appended to the nodes, and its index
/// returned. `petgraph` panics when the `u32` index space is full.
#[verifier::external_body]
pub(crate) fn tg_add_node(g: &mut TaskGraph, w: Node) -> (r: usize)
    requires
        task_nodes(*old(g)).len() < index_limit(),
    ensures
        r == task_nodes(*old(g)).len(),
        task_nodes(*final(g)) == task_nodes(*old(g)).push(w),
        task_edges(*final(g)) == task_edges(*old(g)),
{
    g.add_node(w).index()
}

/// Calls `Graph::add_edge`: the edge is appended to the edges. `petgraph`
/// panics when an endpoint is not a node or the `u32` index space is full.
#[verifier::external_body]
pub(crate) fn tg_add_edge(g: &mut TaskGraph, a: usize, b: usize, w: u32)
    requires
        a < task_nodes(*old(g)).len(),
        b < task_nodes(*old(g)).len(),
        task_edges(*old(g)).len() < index_limit(),
    ensures
        task_nodes(*final(g)) == task_nodes(*old(g)),
        task_edges(*final(g)) == task_edges(*old(g)).push((a, b, w)),
{
    g.add_edge(petgraph::graph::NodeIndex::new(a), petgraph::graph::NodeIndex::new(b), w);
}

/// Calls `Graph::find_edge`: the index of an edge from `a` to `b`, if there
/// is one. Which one, where there are several, is left open.
#[verifier::external_body]
pub(crate) fn tg_find_edge(g: &TaskGraph, a: usize, b: usize) -> (r: Option<usize>)
    requires
        a < task_nodes(*g).len(),
        b < task_nodes(*g).len(),
    ensures
        r is Some <==> has_edge(task_edges(*g), a as int, b as int),
        r matches Some(e) ==> e < task_edges(*g).len() && task_edges(*g)[e as int].0 == a && task_edges(*g)[e as int].1 == b,
{
    g.find_edge(petgraph::graph::NodeIndex::new(a), petgraph::graph::NodeIndex::new(b)).map(|e| e.index())
}

/// Calls `Graph::remove_edge`: edge `e` is removed and the last edge takes
/// its index.
#[verifier::external_body]
pub(crate) fn tg_remove_edge(g: &mut TaskGraph, e: usize)
    requires
        e < task_edges(*old(g)).len(),
    ensures
        task_nodes(*final(g)) == task_nodes(*old(g)),
        task_edges(*final(g)) == swap_remove(task_edges(*old(g)), e as int),
{
    g.remove_edge(petgraph::graph::EdgeIndex::new(e));
}

/// Calls `petgraph::algo::is_cyclic_directed`: whether the graph has a
/// cycle.
#[verifier::external_body]
pub(crate) fn tg_is_cyclic(g: &TaskGraph) -> (r: bool)
    requires
        task_graph_wf(*g),
    ensures
        r == is_cyclic(task_edges(*g), task_nodes(*g).len() as int),
{
    petgraph::algo::is_cyclic_directed(g)
}

/// Calls `Graph::node_count`.
#[verifier::external_body]
pub(crate) fn tg_node_count(g: &TaskGraph) -> (r: usize)
    ensures
        r == task_nodes(*g).len(),
{
    g.node_count()
}

/// Calls `Graph::externals`: the nodes without edges in direction `dir`, in
/// increasing order.
#[verifier::external_body]
pub(crate) fn tg_externals(g: &TaskGraph, dir: Direction) -> (r: Vec<usize>)
    ensures
        forall|i: int, j: int| 0 <= i < j < r@.len() ==> #[trigger] r@[i] < #[trigger] r@[j],
        forall|v: usize| #[trigger] r@.contains(v) <==> (v < task_nodes(*g).len() && dir_neighbors(task_edges(*g), v, dir).len() == 0),
{
    let d = match dir {
        Direction::Outgoing => petgraph::Direction::Outgoing,
        Direction::Incoming => petgraph::Direction::Incoming,
    };
    g.externals(d).map(|x| x.index()).collect()
}

/// Calls `Graph::neighbors_directed`: the other end of each edge of node `a`
/// in direction `dir`, once per edge; only which nodes come, and how often, is
/// stated here.
#[verifier::external_body]
pub(crate) fn tg_neighbors(g: &TaskGraph, a: usize, dir: Direction) -> (r: Vec<usize>)
    requires
        a < task_nodes(*g).len(),
    ensures
        r@.to_multiset() == dir_neighbors(task_edges(*g), a, dir).to_multiset(),
{
    let d = match dir {
        Direction::Outgoing => petgraph::Direction::Outgoing,
        Direction::Incoming => petgraph::Direction::Incoming,
    };
    g.neighbors_directed(petgraph::graph::NodeIndex::new(a), d).map(|x| x.index()).collect()
}

/// Calls `petgraph::algo::has_path_connecting`: whether `b` can be reached
/// from `a` (always so when they are equal).
#[verifier::external_body]
pub(crate) fn tg_has_path(g: &TaskGraph, a: usize, b: usize) -> (r: bool)
    requires
        a < task_nodes(*g).len(),
        b < task_nodes(*g).len(),
    ensures
        r == reachable(task_edges(*g), a as int, b as int),
{
    petgraph::algo::has_path_connecting(g, petgraph::graph::NodeIndex::new(a), petgraph::graph::NodeIndex::new(b), None)
}

/// `s` with element `e` removed and the last element moved into its place.
pub open spec fn swap_remove<T>(s: Seq<T>, e: int) -> Seq<T> {
    if e == s.len() - 1 {
        s.drop_last()
    } else {
        s.drop_last().update(e, s.last())
    }
}

/// A unique combination of group and task names: `group::task`.
pub open spec fn prefix(group: Seq<char>, task: Seq<char>) -> Seq<char> {
    group + "::"@ + task
}

/// Get a unique combination of group and task names.
pub fn names_to_prefix(group: &str, task: &str) -> (r: String)
    ensures
        r@ == prefix(group@, task@),
{
    let mut s = String::new();
    push_str(&mut s, group);
    push_str(&mut s, task_group_name_separator());
    push_str(&mut s, task);
    assert(s@ =~= prefix(group@, task@));
    s
}

impl Task {
    /// Get the log prefix of the task.
    pub fn to_prefix(&self) -> (r: String)
        ensures
            r@ == prefix(self.group@, self.name@),
    {
        names_to_prefix(self.group.as_str(), self.name.as_str())
    }
}

/// A line of a task's output: the task's log prefix right-aligned in a field
/// of `width` characters, a space, a vertical line, a space and the line.
pub open spec fn task_line(t: TaskView, width: nat, line: Seq<char>) -> Seq<char> {
    pad_start(prefix(t.1, t.0), width) + seq![' ', '\u{2502}', ' '] + line
}

/// Format a line that `task` wrote, lined up with the other tasks' output
/// when `width` is the longest log prefix.
pub fn fmt_task_line(task: &Task, width: usize, line: &str) -> (r: String)
    ensures
        r@ == task_line(task@, width as nat, line@),
{
    let p = task.to_prefix();
    let mut s = String::new();
    push_padded(&mut s, p.as_str(), width);
    push_char(&mut s, ' ');
    push_char(&mut s, '\u{2502}');
    push_char(&mut s, ' ');
    push_str(&mut s, line);
    assert(s@ =~= task_line(task@, width as nat, line@));
    s
}

/// The length in bytes of the log prefix of `t`.
pub open spec fn prefix_len(t: Task) -> nat {
    vstd::utf8::encode_utf8(prefix(t.group@, t.name@)).len()
}

/// The longest log prefix length among `tasks`, 0 if there are none.
pub open spec fn longest_prefix_spec(tasks: Seq<Task>) -> nat
    decreases tasks.len(),
{
    if tasks.len() == 0 {
        0
    } else {
        let prev = longest_prefix_spec(tasks.drop_last());
        if prefix_len(tasks.last()) > prev {
            prefix_len(tasks.last())
        } else {
            prev
        }
    }
}

/// The longest log prefix is the longest of all: at least the length in
/// bytes of every task's `group::name`, and the length of one of them (0
/// where there are no tasks).
pub proof fn lemma_longest_prefix_is_max(tasks: Seq<Task>)
    ensures
        forall|i: int| 0 <= i < tasks.len() ==> vstd::utf8::encode_utf8(
            (#[trigger] tasks[i]).group@ + "::"@ + tasks[i].name@,
        ).len() <= longest_prefix_spec(tasks),
        tasks.len() == 0 ==> longest_prefix_spec(tasks) == 0,
        tasks.len() > 0 ==> exists|i: int| 0 <= i < tasks.len() && vstd::utf8::encode_utf8(
            (#[trigger] tasks[i]).group@ + "::"@ + tasks[i].name@,
        ).len() == longest_prefix_spec(tasks),
    decreases tasks.len(),
{
    if tasks.len() > 0 {
        let p = tasks.drop_last();
        lemma_longest_prefix_is_max(p);
        assert forall|i: int| 0 <= i < tasks.len() implies vstd::utf8::encode_utf8(
            (#[trigger] tasks[i]).group@ + "::"@ + tasks[i].name@,
        ).len() <= longest_prefix_spec(tasks) by {
            if i < p.len() {
                assert(tasks[i] == p[i]);
            }
        }
        if prefix_len(tasks.last()) > longest_prefix_spec(p) || p.len() == 0 {
            assert(tasks[tasks.len() - 1] == tasks.last());
        } else {
            let i = choose|i: int| 0 <= i < p.len() && vstd::utf8::encode_utf8(
                (#[trigger] p[i]).group@ + "::"@ + p[i].name@,
            ).len() == longest_prefix_spec(p);
            assert(tasks[i] == p[i]);
        }
    }
}

/// A task's exit counts as a success exactly when its status is a success
/// or it exited with a code that its list of ignored codes holds, wherever
/// in the list.
pub proof fn lemma_exit_ok(success: bool, code: Option<i32>, ignored: Seq<i32>)
    ensures
        exit_ok(success, code, ignored) <==> (success || exists|i: int|
            0 <= i < ignored.len() && code == Some(#[trigger] ignored[i])),
        forall|i: int| 0 <= i < ignored.len() ==> exit_ok(false, Some(#[trigger] ignored[i]), ignored),
        !exit_ok(false, None, ignored),
{
    assert forall|i: int| 0 <= i < ignored.len() implies exit_ok(false, Some(#[trigger] ignored[i]), ignored) by {
        assert(ignored.contains(ignored[i]));
    }
    if !success && exit_ok(success, code, ignored) {
        let c = code->0;
        let i = choose|i: int| 0 <= i < ignored.len() && ignored[i] == c;
        assert(code == Some(ignored[i]));
    }
}

/// The name of a group that the task list implies but the group list does
/// not declare yet, in order of first mention.
pub open spec fn implied_groups(declared: Seq<Seq<char>>, tasks: Seq<Task>) -> Seq<Seq<char>>
    decreases tasks.len(),
{
    if tasks.len() == 0 {
        Seq::empty()
    } else {
        let prev = implied_groups(declared, tasks.drop_last());
        let g = tasks.last().group@;
        if declared.contains(g) || prev.contains(g) {
            prev
        } else {
            prev.push(g)
        }
    }
}

/// The names of `groups`.
pub open spec fn group_names(groups: Seq<Group>) -> Seq<Seq<char>> {
    groups.map_values(|g: Group| g.name@)
}

/// An error within an Engage file of groups and tasks.
#[derive(Debug, Clone, Copy, PartialEq, Eq, Structural)]
pub enum EngageFileError {
    /// The interpreter list is empty.
    EmptyInterpreter,
}

/// Whether a task's exit counts as a success: its status is a success, or
/// its exit code is one of the codes it ignores.
pub open spec fn exit_ok(success: bool, code: Option<i32>, ignored: Seq<i32>) -> bool {
    success || (code matches Some(c) && ignored.contains(c))
}

impl Engage {
    /// Returns the length of the longest log prefix, in bytes.
    pub fn longest_prefix(&self) -> (r: usize)
        ensures
            r == longest_prefix_spec(self.tasks@),
    {
        let mut longest: usize = 0;
        for i in 0..self.tasks.len()
            invariant
                longest == longest_prefix_spec(self.tasks@.take(i as int)),
        {
            let ghost ts = self.tasks@.take(i + 1);
            assert(ts.drop_last() =~= self.tasks@.take(i as int));
            let p = self.tasks[i].to_prefix();
            let length = p.as_str().as_bytes().len();
            if length > longest {
                longest = length;
            }
        }
        assert(self.tasks@.take(self.tasks@.len() as int) =~= self.tasks@);
        longest
    }

    /// Updates the list of groups with any groups not explicitly declared:
    /// for each task whose group is not in the list, in task order, a group of
    /// that name without dependencies is appended.
    pub fn update_groups(&mut self)
        ensures
            final(self).tasks@ == old(self).tasks@,
            final(self).interpreter@ == old(self).interpreter@,
            final(self).groups@.len() == old(self).groups@.len() + implied_groups(
                group_names(old(self).groups@),
                old(self).tasks@,
            ).len(),
            forall|i: int| 0 <= i < old(self).groups@.len() ==> #[trigger] final(self).groups@[i] == old(self).groups@[i],
            group_names(final(self).groups@) == group_names(old(self).groups@) + implied_groups(
                group_names(old(self).groups@),
                old(self).tasks@,
            ),
            forall|i: int| old(self).groups@.len() <= i < final(self).groups@.len() ==> (#[trigger] final(self).groups@[i]).depends@.len() == 0,
    {
        let ghost declared = group_names(self.groups@);
        let ghost g0 = self.groups@;
        let n = self.tasks.len();
        for i in 0..n
            invariant
                n == self.tasks@.len(),
                self.tasks@ == old(self).tasks@,
                self.interpreter@ == old(self).interpreter@,
                g0 == old(self).groups@,
                declared == group_names(g0),
                group_names(self.groups@) == declared + implied_groups(declared, self.tasks@.take(i as int)),
                self.groups@.len() >= g0.len(),
                forall|k: int| 0 <= k < g0.len() ==> #[trigger] self.groups@[k] == g0[k],
                forall|k: int| g0.len() <= k < self.groups@.len() ==> (#[trigger] self.groups@[k]).depends@.len() == 0,
        {
            let ghost ts = self.tasks@.take(i + 1);
            assert(ts.drop_last() =~= self.tasks@.take(i as int));
            let mut found = false;
            for j in 0..self.groups.len()
                invariant
                    found == exists|k: int| 0 <= k < j && #[trigger] group_names(self.groups@)[k] == self.tasks@[i as int].group@,
                    i < self.tasks@.len(),
            {
                if self.groups[j].name == self.tasks[i].group {
                    assert(group_names(self.groups@)[j as int] == self.tasks@[i as int].group@);
                    found = true;
                }
            }
            let ghost prev = implied_groups(declared, self.tasks@.take(i as int));
            let ghost g = self.tasks@[i as int].group@;
            proof {
                lemma_concat_contains(declared, prev, g);
                assert(ts.last() == self.tasks@[i as int]);
            }
            if !found {
                let ghost before = self.groups@;
                let group = Group { name: self.tasks[i].group.clone(), depends: Vec::new() };
                self.groups.push(group);
                assert(group_names(self.groups@) =~= group_names(before).push(g));
            }
            assert(group_names(self.groups@) =~= declared + implied_groups(declared, ts));
        }
        assert(self.tasks@.take(self.tasks@.len() as int) =~= self.tasks@);
    }

    /// The program and the arguments that run `task`: the first element of
    /// the interpreter list, then the rest of that list followed by the
    /// task's script.
    pub fn task_command(&self, task: &Task) -> (r: (String, Vec<String>))
        requires
            self.interpreter@.len() > 0,
        ensures
            r.0@ == self.interpreter@[0]@,
            strings_view(r.1@) == strings_view(self.interpreter@.skip(1)).push(task.script@),
    {
        let program = self.interpreter[0].clone();
        let mut args: Vec<String> = Vec::new();
        for i in 1..self.interpreter.len()
            invariant
                1 <= i <= self.interpreter@.len(),
                strings_view(args@) == strings_view(self.interpreter@.skip(1).take(i - 1)),
        {
            let ghost prev = args@;
            args.push(self.interpreter[i].clone());
            assert(args@ == prev.push(self.interpreter@[i as int]));
            assert(self.interpreter@.skip(1).take(i as int) =~= self.interpreter@.skip(1).take(i - 1).push(
                self.interpreter@[i as int],
            ));
            assert(strings_view(args@) =~= strings_view(prev).push(self.interpreter@[i as int]@));
            assert(strings_view(self.interpreter@.skip(1).take(i as int)) =~= strings_view(
                self.interpreter@.skip(1).take(i - 1),
            ).push(self.interpreter@[i as int]@));
        }
        assert(self.interpreter@.skip(1).take(self.interpreter@.len() - 1) =~= self.interpreter@.skip(1));
        let ghost before = args@;
        args.push(task.script.clone());
        assert(strings_view(args@) =~= strings_view(before).push(task.script@));
        (program, args)
    }

    /// Validates the Engage file: the interpreter must name a program.
    pub fn validate(&self) -> (r: Result<(), Vec<EngageFileError>>)
        ensures
            r is Ok <==> self.interpreter@.len() > 0,
            r matches Err(es) ==> es@ == seq![EngageFileError::EmptyInterpreter],
    {
        let mut errors: Vec<EngageFileError> = Vec::new();
        if self.interpreter.len() == 0 {
            errors.push(EngageFileError::EmptyInterpreter);
        }
        if errors.len() == 0 {
            Ok(())
        } else {
            Err(errors)
        }
    }
}

/// After the groups are updated, every task's group is in the list of
/// groups.
pub proof fn lemma_update_groups_covers_tasks(declared: Seq<Seq<char>>, tasks: Seq<Task>, i: int)
    requires
        0 <= i < tasks.len(),
    ensures
        (declared + implied_groups(declared, tasks)).contains(tasks[i].group@),
    decreases tasks.len(),
{
    let prev = tasks.drop_last();
    let p = implied_groups(declared, prev);
    lemma_concat_contains(declared, implied_groups(declared, tasks), tasks[i].group@);
    lemma_concat_contains(declared, p, tasks[i].group@);
    lemma_implied_grows(declared, tasks);
    if i < tasks.len() - 1 {
        assert(prev[i] == tasks[i]);
        lemma_update_groups_covers_tasks(declared, prev, i);
    } else {
        let g = tasks.last().group@;
        if !(declared.contains(g) || p.contains(g)) {
            assert(implied_groups(declared, tasks)[p.len() as int] == g);
        }
    }
}

/// No group is implied by tasks whose groups are all declared.
proof fn lemma_implied_none(declared: Seq<Seq<char>>, tasks: Seq<Task>)
    requires
        forall|i: int| 0 <= i < tasks.len() ==> declared.contains(#[trigger] tasks[i].group@),
    ensures
        implied_groups(declared, tasks) == Seq::<Seq<char>>::empty(),
    decreases tasks.len(),
{
    if tasks.len() > 0 {
        let prev = tasks.drop_last();
        assert forall|i: int| 0 <= i < prev.len() implies declared.contains(#[trigger] prev[i].group@) by {
            assert(prev[i] == tasks[i]);
        }
        lemma_implied_none(declared, prev);
        assert(declared.contains(tasks[tasks.len() - 1].group@));
    }
}

/// Updating the groups twice is the same as updating them once: once every
/// task's group is declared, no group is implied any more.
pub proof fn lemma_update_groups_idempotent(declared: Seq<Seq<char>>, tasks: Seq<Task>)
    ensures
        implied_groups(declared + implied_groups(declared, tasks), tasks) == Seq::<Seq<char>>::empty(),
{
    let all = declared + implied_groups(declared, tasks);
    assert forall|i: int| 0 <= i < tasks.len() implies all.contains(#[trigger] tasks[i].group@) by {
        lemma_update_groups_covers_tasks(declared, tasks, i);
    }
    lemma_implied_none(all, tasks);
}

proof fn lemma_implied_grows(declared: Seq<Seq<char>>, tasks: Seq<Task>)
    requires
        tasks.len() > 0,
    ensures
        forall|x: Seq<char>| implied_groups(declared, tasks.drop_last()).contains(x) ==> #[trigger] implied_groups(declared, tasks).contains(x),
{
    let p = implied_groups(declared, tasks.drop_last());
    assert forall|x: Seq<char>| p.contains(x) implies #[trigger] implied_groups(declared, tasks).contains(x) by {
        let k = choose|k: int| 0 <= k < p.len() && p[k] == x;
        assert(implied_groups(declared, tasks)[k] == x);
    }
}

/// Whether a task's exit counts as a success, from whether its exit status
/// is a success, its exit code if it has one, and the codes it ignores.
pub fn task_exit_ok(success: bool, code: Option<i32>, ignored: &Vec<i32>) -> (r: bool)
    ensures
        r == exit_ok(success, code, ignored@),
{
    if success {
        return true;
    }
    match code {
        None => false,
        Some(c) => {
            for i in 0..ignored.len()
                invariant
                    forall|k: int| 0 <= k < i ==> ignored@[k] != c,
                    code == Some(c),
                    !success,
            {
                if ignored[i] == c {
                    assert(ignored@[i as int] == c);
                    assert(ignored@.contains(c));
                    assert(exit_ok(success, code, ignored@));
                    return true;
                }
            }
            false
        },
    }
}

proof fn lemma_concat_contains(a: Seq<Seq<char>>, b: Seq<Seq<char>>, x: Seq<char>)
    ensures
        (a + b).contains(x) == (a.contains(x) || b.contains(x)),
{
    if (a + b).contains(x) {
        let k = choose|k: int| 0 <= k < (a + b).len() && (a + b)[k] == x;
        if k < a.len() {
            assert(a[k] == x);
        } else {
            assert(b[k - a.len()] == x);
        }
    }
    if a.contains(x) {
        let k = choose|k: int| 0 <= k < a.len() && a[k] == x;
        assert((a + b)[k] == x);
    }
    if b.contains(x) {
        let k = choose|k: int| 0 <= k < b.len() && b[k] == x;
        assert((a + b)[a.len() + k] == x);
    }
}

} // verus!

verus! {

/// The decisions of running the nodes of a graph in parallel: the nodes
/// without incoming edges first, then each node once all the nodes with edges
/// into it have run.
pub struct ParallelSchedule {
    visited: Vec<bool>,
}

/// Node `n` is ready once `v` has run: it can be reached from `v`, all the
/// nodes with edges into it have run, and it has not run itself.
pub open spec fn ready_after(edges: Seq<(usize, usize, u32)>, visited: Seq<bool>, v: int, n: usize) -> bool {
    &&& reachable(edges, v, n as int)
    &&& neighbors_visited(edges, visited, n, Direction::Incoming)
    &&& !visited[n as int]
}

impl ParallelSchedule {
    /// Which nodes have run, by index.
    pub closed spec fn visited(&self) -> Seq<bool> {
        self.visited@
    }

    /// Begin: no node has run; the nodes to run first are those without
    /// incoming edges. An empty graph has nothing to run.
    pub fn start(graph: &TaskGraph) -> (r: (ParallelSchedule, Vec<usize>))
        ensures
            r.0.visited() == Seq::new(task_nodes(*graph).len(), |i: int| false),
            forall|i: int, j: int| 0 <= i < j < r.1@.len() ==> #[trigger] r.1@[i] < #[trigger] r.1@[j],
            forall|v: usize| #[trigger] r.1@.contains(v) <==> (v < task_nodes(*graph).len()
                && dir_neighbors(task_edges(*graph), v, Direction::Incoming).len() == 0),
    {
        let n = tg_node_count(graph);
        let mut visited: Vec<bool> = Vec::new();
        for i in 0..n
            invariant
                visited@ == Seq::new(i as nat, |k: int| false),
        {
            visited.push(false);
            assert(visited@ =~= Seq::new((i + 1) as nat, |k: int| false));
        }
        let starts = if n == 0 {
            Vec::new()
        } else {
            tg_externals(graph, Direction::Incoming)
        };
        (ParallelSchedule { visited }, starts)
    }

    /// Record that node `v` has run. Returns the nodes that become ready, in
    /// increasing order, and whether every node has now run.
    pub fn on_visited(&mut self, graph: &TaskGraph, v: usize) -> (r: (Vec<usize>, bool))
        requires
            old(self).visited().len() == task_nodes(*graph).len(),
            v < task_nodes(*graph).len(),
        ensures
            final(self).visited() == old(self).visited().update(v as int, true),
            forall|i: int, j: int| 0 <= i < j < r.0@.len() ==> #[trigger] r.0@[i] < #[trigger] r.0@[j],
            forall|n: usize| #[trigger] r.0@.contains(n) <==> (n < task_nodes(*graph).len()
                && ready_after(task_edges(*graph), final(self).visited(), v as int, n)),
            r.1 == crate::graph::all_visited(final(self).visited()),
    {
        self.visited.set(v, true);
        let ghost edges = task_edges(*graph);
        let count = self.visited.len();
        let mut ready: Vec<usize> = Vec::new();
        for n in 0..count
            invariant
                count == self.visited@.len(),
                count == task_nodes(*graph).len(),
                edges == task_edges(*graph),
                v < count,
                forall|i: int, j: int| 0 <= i < j < ready@.len() ==> #[trigger] ready@[i] < #[trigger] ready@[j],
                forall|i: int| 0 <= i < ready@.len() ==> #[trigger] ready@[i] < n,
                forall|m: usize| #[trigger] ready@.contains(m) <==> (m < n && ready_after(edges, self.visited@, v as int, m)),
        {
            let connected = tg_has_path(graph, v, n);
            let mut deps_done = true;
            if connected {
                let deps = tg_neighbors(graph, n, Direction::Incoming);
                for d in 0..deps.len()
                    invariant
                        deps_done == forall|k: int| 0 <= k < d ==> crate::graph::is_visited(self.visited@, #[trigger] deps@[k]),
                        count == self.visited@.len(),
                {
                    let w = deps[d];
                    if w >= count || !self.visited[w] {
                        deps_done = false;
                    }
                }
                proof {
                    crate::graph::lemma_all_in_same_multiset(deps@, dir_neighbors(edges, n, Direction::Incoming), self.visited@);
                }
            }
            let ghost before = ready@;
            if connected && deps_done && !self.visited[n] {
                ready.push(n);
            }
            proof {
                assert forall|m: usize| #[trigger] ready@.contains(m) implies (m < n + 1 && ready_after(edges, self.visited@, v as int, m)) by {
                    let k = choose|k: int| 0 <= k < ready@.len() && ready@[k] == m;
                    if k < before.len() {
                        assert(before[k] == m);
                        assert(before.contains(m));
                    } else {
                        assert(m == n);
                    }
                }
                assert forall|m: usize| (m < n + 1 && ready_after(edges, self.visited@, v as int, m)) implies #[trigger] ready@.contains(m) by {
                    if m < n {
                        assert(before.contains(m));
                        let k = choose|k: int| 0 <= k < before.len() && before[k] == m;
                        assert(ready@[k] == m);
                    } else {
                        assert(ready@[ready@.len() - 1] == m);
                    }
                }
            }
        }
        let mut full = true;
        for i in 0..count
            invariant
                count == self.visited@.len(),
                full == forall|k: int| 0 <= k < i ==> #[trigger] self.visited@[k],
        {
            if !self.visited[i] {
                full = false;
            }
        }
        (ready, full)
    }
}

/// Every node that has run had all the nodes with edges into it run first,
/// as a run of a [`ParallelSchedule`] keeps it.
pub open spec fn dependency_closed(edges: Seq<(usize, usize, u32)>, visited: Seq<bool>) -> bool {
    forall|w: usize| #[trigger] crate::graph::is_visited(visited, w) ==> neighbors_visited(edges, visited, w, Direction::Incoming)
}

/// Walking back along a path from a node that has run, in a dependency-closed
/// state, meets only nodes that have run.
proof fn lemma_path_back_visited(edges: Seq<(usize, usize, u32)>, visited: Seq<bool>, p: Seq<int>, i: int)
    requires
        crate::graph::is_path(edges, p),
        dependency_closed(edges, visited),
        0 <= i < p.len(),
        p[i] >= 0,
        crate::graph::is_visited(visited, p[i] as usize),
    ensures
        p[0] >= 0,
        crate::graph::is_visited(visited, p[0] as usize),
    decreases i,
{
    if i > 0 {
        assert(crate::graph::has_edge(edges, p[i - 1], p[i]));
        crate::graph::lemma_edge_neighbors(edges, p[i - 1], p[i]);
        let dn = dir_neighbors(edges, p[i] as usize, Direction::Incoming);
        let k = choose|k: int| 0 <= k < dn.len() && dn[k] == p[i - 1] as usize;
        assert(crate::graph::is_visited(visited, dn[k]));
        lemma_path_back_visited(edges, visited, p, i - 1);
    }
}

/// A node is made ready at most once in a run where each node runs once and
/// only after the nodes with edges into it: after running `v1` made `x`
/// ready, running a node `v2` that had not run by then does not make `x`
/// ready again.
pub proof fn lemma_ready_once(
    edges: Seq<(usize, usize, u32)>,
    vis1: Seq<bool>,
    v1: usize,
    vis2: Seq<bool>,
    v2: usize,
    x: usize,
)
    requires
        x < vis1.len(),
        ready_after(edges, vis1, v1 as int, x),
        vis2.len() == vis1.len(),
        forall|i: int| 0 <= i < vis1.len() && #[trigger] vis1[i] ==> vis2[i],
        v2 < vis2.len(),
        !vis2[v2 as int],
        dependency_closed(edges, vis2),
    ensures
        !ready_after(edges, vis2.update(v2 as int, true), v2 as int, x),
{
    let after = vis2.update(v2 as int, true);
    if ready_after(edges, after, v2 as int, x) {
        let p = choose|p: Seq<int>| #[trigger] crate::graph::is_path(edges, p) && p[0] == v2 as int && p.last() == x as int;
        assert(p.len() >= 2) by {
            if p.len() == 1 {
                assert(p[0] == p.last());
            }
        }
        let j = p.len() - 2;
        assert(crate::graph::has_edge(edges, p[j], p[j + 1]));
        assert(p[j + 1] == p.last());
        crate::graph::lemma_edge_neighbors(edges, p[j], x as int);
        let dn = dir_neighbors(edges, x, Direction::Incoming);
        let k = choose|k: int| 0 <= k < dn.len() && dn[k] == p[j] as usize;
        assert(crate::graph::is_visited(vis1, dn[k]));
        assert(crate::graph::is_visited(vis2, p[j] as usize));
        lemma_path_back_visited(edges, vis2, p, j);
        assert(vis2[v2 as int]);
    }
}

/// A node without incoming edges runs first, and no later run makes it
/// ready again.
pub proof fn lemma_start_not_ready(edges: Seq<(usize, usize, u32)>, visited: Seq<bool>, v: usize, x: usize)
    requires
        dir_neighbors(edges, x, Direction::Incoming).len() == 0,
        v < visited.len(),
        visited[v as int],
    ensures
        !ready_after(edges, visited, v as int, x),
{
    if ready_after(edges, visited, v as int, x) {
        let p = choose|p: Seq<int>| #[trigger] crate::graph::is_path(edges, p) && p[0] == v as int && p.last() == x as int;
        assert(p.len() >= 2) by {
            if p.len() == 1 {
                assert(p[0] == p.last());
            }
        }
        let j = p.len() - 2;
        assert(crate::graph::has_edge(edges, p[j], p[j + 1]));
        assert(p[j + 1] == p.last());
        crate::graph::lemma_edge_neighbors(edges, p[j], x as int);
    }
}

/// The nodes that have run after the first runs of `order`.
pub open spec fn ran_by(n: int, order: Seq<usize>) -> Seq<bool> {
    Seq::new(n as nat, |i: int| order.contains(i as usize))
}

/// `order` lists the runs of a [`ParallelSchedule`] over `n` nodes, in the
/// order in which they ended: each node at most once, and each node that the
/// schedule handed out (a node without incoming edges, or one that an
/// earlier run made ready) at some point.
pub open spec fn runs_all_handed_out(edges: Seq<(usize, usize, u32)>, n: int, order: Seq<usize>) -> bool {
    &&& order.no_duplicates()
    &&& forall|k: int| 0 <= k < order.len() ==> #[trigger] order[k] < n
    &&& forall|v: usize| v < n && #[trigger] dir_neighbors(edges, v, Direction::Incoming).len() == 0 ==> order.contains(v)
    &&& forall|k: int, x: usize|
        0 <= k < order.len() && x < n && #[trigger] ready_after(edges, ran_by(n, order.take(k + 1)), order[k] as int, x)
            ==> order.contains(x)
}

/// On a graph without cycles, a run of a [`ParallelSchedule`] that runs every
/// node it hands out runs every node.
pub proof fn lemma_schedule_complete(edges: Seq<(usize, usize, u32)>, n: int, order: Seq<usize>)
    requires
        edges_in_range(edges, n),
        n <= index_limit(),
        !is_cyclic(edges, n),
        runs_all_handed_out(edges, n, order),
    ensures
        forall|v: usize| v < n ==> #[trigger] order.contains(v),
{
    // A run of the schedule hands out at least what a traversal in edge
    // order against incoming edges does.
    assert forall|k: int, v: usize|
        0 <= k < order.len() && #[trigger] crate::graph::released(
            edges,
            crate::graph::visited_by(n, order.take(k + 1)),
            order[k],
            v,
            Direction::Incoming,
        ) implies order.contains(v) by {
        let ix = order[k];
        let vis = crate::graph::visited_by(n, order.take(k + 1));
        assert(vis == ran_by(n, order.take(k + 1)));
        crate::graph::lemma_neighbor_symmetric(edges, ix, v, Direction::Incoming);
        let dn = dir_neighbors(edges, v, Direction::Incoming);
        let j = choose|j: int| 0 <= j < dn.len() && dn[j] == ix;
        crate::graph::lemma_dir_neighbor_edge(edges, v, Direction::Incoming, j);
        crate::graph::lemma_edge_reachable(edges, ix as int, v as int);
        assert(ready_after(edges, vis, ix as int, v));
    }
    assert(crate::graph::visits_all_handed_out(edges, n, Direction::Incoming, order));
    crate::graph::lemma_traversal_complete(edges, n, Direction::Incoming, order);
}

} // verus!
