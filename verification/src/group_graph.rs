//! The graph of groups and tasks of an Engage file.
//!
//! Each group entry becomes a start node and an end node, with the group's
//! tasks between them: the start comes before each task and each task before
//! the end. A task that depends on other tasks of its group comes after them
//! instead of after the start, and a task that others depend on no longer
//! leads to the end directly. A group that depends on another group starts
//! after that group ends.

use vstd::prelude::*;

use crate::engage::{
    names_to_prefix, prefix, strings_view, swap_remove, task_edges, task_graph_wf, task_node_views, task_nodes, tg_add_edge,
    tg_add_node, tg_find_edge, tg_is_cyclic, tg_new, tg_remove_edge, Engage, Group, Node, NodeView, Task,
    TaskGraph, TaskView,
};
use crate::graph::{
    has_edge, index_limit, is_cyclic, is_path, lemma_edge_reachable, lemma_is_cyclic_same_multiset, lemma_pigeonhole,
    lemma_reachable_trans, lemma_repeat_cycle, reachable,
};

verus! {

/// The tasks of group `g`, in order.
pub open spec fn tasks_in(tasks: Seq<Task>, g: Seq<char>) -> Seq<TaskView>
    decreases tasks.len(),
{
    if tasks.len() == 0 {
        Seq::empty()
    } else {
        let prev = tasks_in(tasks.drop_last(), g);
        if tasks.last().group@ == g {
            prev.push(tasks.last()@)
        } else {
            prev
        }
    }
}

/// The number of nodes of the entry of group `g`: its start and end, and its
/// tasks.
pub open spec fn entry_size(tasks: Seq<Task>, g: Seq<char>) -> int {
    2 + tasks_in(tasks, g).len() as int
}

/// The index of the start node of group entry `e`.
pub open spec fn base(groups: Seq<Group>, tasks: Seq<Task>, e: int) -> int
    decreases e,
{
    if e <= 0 {
        0
    } else {
        base(groups, tasks, e - 1) + entry_size(tasks, groups[e - 1].name@)
    }
}

/// The nodes of the first `e` group entries: for each, its start, its end and
/// its tasks.
pub open spec fn expected_nodes(groups: Seq<Group>, tasks: Seq<Task>, e: int) -> Seq<NodeView>
    decreases e,
{
    if e <= 0 {
        Seq::empty()
    } else {
        let g = groups[e - 1];
        expected_nodes(groups, tasks, e - 1) + seq![NodeView::GroupStart(g@), NodeView::GroupEnd]
            + tasks_in(tasks, g.name@).map_values(|t: TaskView| NodeView::Task(t))
    }
}

/// The position of the last task named `x` in `ts`, or -1.
pub open spec fn last_of(ts: Seq<TaskView>, x: Seq<char>) -> int
    decreases ts.len(),
{
    if ts.len() == 0 {
        -1
    } else if ts.last().0 == x {
        ts.len() - 1
    } else {
        last_of(ts.drop_last(), x)
    }
}

/// Some task of `ts` is named `x`.
pub open spec fn has_name(ts: Seq<TaskView>, x: Seq<char>) -> bool {
    exists|k: int| 0 <= k < ts.len() && (#[trigger] ts[k]).0 == x
}

/// Once the dependencies so far are processed, the start edge of task `k` is
/// gone: `k` is the last task of its name, and a task of that name has had a
/// dependency processed.
pub open spec fn start_removed(ts: Seq<TaskView>, j: int, di: int, k: int) -> bool {
    k == last_of(ts, ts[k].0) && exists|k2: int| 0 <= k2 < ts.len() && #[trigger] ts[k2].0 == ts[k].0 && (
    k2 < j && ts[k2].4.len() > 0 || k2 == j && di > 0)
}

/// Once the dependencies so far are processed, the end edge of task `k` is
/// gone: `k` is the last task of its name, and that name has been processed as
/// a dependency.
pub open spec fn end_removed(ts: Seq<TaskView>, j: int, di: int, k: int) -> bool {
    k == last_of(ts, ts[k].0) && exists|k2: int, d: int|
        0 <= k2 <= j && 0 <= d < ts[k2].4.len() && (k2 < j || d < di) && #[trigger] ts[k2].4[d] == ts[k].0
}

/// The start and end edges of the first `k` tasks of an entry whose start
/// node is `b`, once the dependencies up to task `j`, dependency `di` are
/// processed.
pub open spec fn frame_edges(ts: Seq<TaskView>, b: int, j: int, di: int, k: int) -> Seq<(usize, usize, u32)>
    decreases k,
{
    if k <= 0 {
        Seq::empty()
    } else {
        let prev = frame_edges(ts, b, j, di, k - 1);
        let n = b + 2 + k - 1;
        let with_start = if start_removed(ts, j, di, k - 1) {
            prev
        } else {
            prev.push((b as usize, n as usize, 1u32))
        };
        if end_removed(ts, j, di, k - 1) {
            with_start
        } else {
            with_start.push((n as usize, (b + 1) as usize, 1u32))
        }
    }
}

/// The edge that dependency `x` of task `k` creates: from the last task named
/// `x` to the last task with the name of task `k`.
pub open spec fn dep_edge(ts: Seq<TaskView>, b: int, k: int, x: Seq<char>) -> (usize, usize, u32) {
    ((b + 2 + last_of(ts, x)) as usize, (b + 2 + last_of(ts, ts[k].0)) as usize, 1u32)
}

/// The edges of the first `di` dependencies of task `k`.
pub open spec fn task_dep_edges(ts: Seq<TaskView>, b: int, k: int, di: int) -> Seq<(usize, usize, u32)>
    decreases di,
{
    if di <= 0 {
        Seq::empty()
    } else {
        task_dep_edges(ts, b, k, di - 1).push(dep_edge(ts, b, k, ts[k].4[di - 1]))
    }
}

/// The edges of the dependencies of the first `j` tasks.
pub open spec fn dep_edges(ts: Seq<TaskView>, b: int, j: int) -> Seq<(usize, usize, u32)>
    decreases j,
{
    if j <= 0 {
        Seq::empty()
    } else {
        dep_edges(ts, b, j - 1) + task_dep_edges(ts, b, j - 1, ts[j - 1].4.len() as int)
    }
}

/// The edges of a group entry whose start node is `b`, with tasks `ts`.
pub open spec fn entry_edges(ts: Seq<TaskView>, b: int) -> Seq<(usize, usize, u32)> {
    frame_edges(ts, b, ts.len() as int, 0, ts.len() as int) + dep_edges(ts, b, ts.len() as int)
}

/// The edges of the first `e` group entries.
pub open spec fn entries_edges(groups: Seq<Group>, tasks: Seq<Task>, e: int) -> Seq<(usize, usize, u32)>
    decreases e,
{
    if e <= 0 {
        Seq::empty()
    } else {
        entries_edges(groups, tasks, e - 1) + entry_edges(tasks_in(tasks, groups[e - 1].name@), base(groups, tasks, e - 1))
    }
}

/// The position of the last of the first `e` group entries that is named
/// `x`, or -1.
pub open spec fn last_group_in(groups: Seq<Group>, e: int, x: Seq<char>) -> int
    decreases e,
{
    if e <= 0 {
        -1
    } else if groups[e - 1].name@ == x {
        e - 1
    } else {
        last_group_in(groups, e - 1, x)
    }
}

/// The position of the last group entry named `x`, or -1.
pub open spec fn last_group(groups: Seq<Group>, x: Seq<char>) -> int {
    last_group_in(groups, groups.len() as int, x)
}

/// The edges that the first `di` dependencies of group entry `gi` create:
/// from the end of the last entry of the named group to the start of the last
/// entry of group `gi`'s name, where there is such an entry.
pub open spec fn group_dep_edges(groups: Seq<Group>, tasks: Seq<Task>, gi: int, di: int) -> Seq<(usize, usize, u32)>
    decreases di,
{
    if di <= 0 {
        Seq::empty()
    } else {
        let prev = group_dep_edges(groups, tasks, gi, di - 1);
        let x = groups[gi].depends@[di - 1]@;
        let from = last_group(groups, x);
        if from >= 0 {
            prev.push(
                (
                    (base(groups, tasks, from) + 1) as usize,
                    base(groups, tasks, last_group(groups, groups[gi].name@)) as usize,
                    1u32,
                ),
            )
        } else {
            prev
        }
    }
}

/// The edges that the dependencies of the first `gi` group entries create.
pub open spec fn group_edges(groups: Seq<Group>, tasks: Seq<Task>, gi: int) -> Seq<(usize, usize, u32)>
    decreases gi,
{
    if gi <= 0 {
        Seq::empty()
    } else {
        group_edges(groups, tasks, gi - 1) + group_dep_edges(groups, tasks, gi - 1, groups[gi - 1].depends@.len() as int)
    }
}

/// All the edges of the graph of an Engage file, in a canonical order.
pub open spec fn expected_edges(groups: Seq<Group>, tasks: Seq<Task>) -> Seq<(usize, usize, u32)> {
    entries_edges(groups, tasks, groups.len() as int) + group_edges(groups, tasks, groups.len() as int)
}

/// The first dependency, in order, of the first `j` tasks of `ts` that names
/// no task of `ts`.
pub open spec fn missing_in(ts: Seq<TaskView>, j: int) -> Option<Seq<char>>
    decreases j,
{
    if j <= 0 {
        None
    } else {
        match missing_in(ts, j - 1) {
            Some(x) => Some(x),
            None => missing_dep(ts, j - 1, ts[j - 1].4.len() as int),
        }
    }
}

/// The first of the first `di` dependencies of task `k` that names no task
/// of `ts`.
pub open spec fn missing_dep(ts: Seq<TaskView>, k: int, di: int) -> Option<Seq<char>>
    decreases di,
{
    if di <= 0 {
        None
    } else {
        match missing_dep(ts, k, di - 1) {
            Some(x) => Some(x),
            None => if has_name(ts, ts[k].4[di - 1]) {
                None
            } else {
                Some(ts[k].4[di - 1])
            },
        }
    }
}

/// The first dependency on a task outside the group, over the first `e`
/// group entries in order: the dependency and the group.
pub open spec fn first_missing(groups: Seq<Group>, tasks: Seq<Task>, e: int) -> Option<(Seq<char>, Seq<char>)>
    decreases e,
{
    if e <= 0 {
        None
    } else {
        match first_missing(groups, tasks, e - 1) {
            Some(p) => Some(p),
            None => {
                let g = groups[e - 1].name@;
                let ts = tasks_in(tasks, g);
                match missing_in(ts, ts.len() as int) {
                    Some(x) => Some((x, g)),
                    None => None,
                }
            },
        }
    }
}

} // verus!

verus! {

/// An error building the graph of groups and tasks.
pub enum GraphError {
    /// A task depends on a task that is not in its group.
    TaskNotInGroup {
        /// The name of the dependency.
        task: String,
        /// The group of the task that depends on it.
        current_group: String,
    },
    /// The graph has a dependency cycle.
    Cycle,
}

/// The entry in `m` for `key` that was added last, if any.
pub open spec fn lookup_last(m: Seq<(Seq<char>, usize)>, key: Seq<char>) -> Option<usize>
    decreases m.len(),
{
    if m.len() == 0 {
        None
    } else if m.last().0 == key {
        Some(m.last().1)
    } else {
        lookup_last(m.drop_last(), key)
    }
}

/// The views of a list of string keys with indices.
pub open spec fn index_view(m: Seq<(String, usize)>) -> Seq<(Seq<char>, usize)> {
    m.map_values(|p: (String, usize)| (p.0@, p.1))
}

fn find_last(m: &Vec<(String, usize)>, key: &String) -> (r: Option<usize>)
    ensures
        r == lookup_last(index_view(m@), key@),
{
    let mut i = m.len();
    assert(index_view(m@).take(i as int) =~= index_view(m@));
    while i > 0
        invariant
            i <= m@.len(),
            lookup_last(index_view(m@), key@) == lookup_last(index_view(m@).take(i as int), key@),
        decreases i,
    {
        let ghost t = index_view(m@).take(i as int);
        assert(t.drop_last() =~= index_view(m@).take(i - 1));
        if m[i - 1].0 == *key {
            return Some(m[i - 1].1);
        }
        i = i - 1;
    }
    None
}

/// The views of a list of (group, task) name pairs.
pub open spec fn pair_view(m: Seq<(String, String)>) -> Seq<(Seq<char>, Seq<char>)> {
    m.map_values(|p: (String, String)| (p.0@, p.1@))
}

fn contains_pair(m: &Vec<(String, String)>, a: &String, b: &String) -> (r: bool)
    ensures
        r == pair_view(m@).contains((a@, b@)),
{
    for i in 0..m.len()
        invariant
            forall|k: int| 0 <= k < i ==> pair_view(m@)[k] != (a@, b@),
    {
        if m[i].0 == *a && m[i].1 == *b {
            assert(pair_view(m@)[i as int] == (a@, b@));
            return true;
        }
    }
    false
}

} // verus!

verus! {

/// A list of (group, task) pairs names only tasks that exist.
pub open spec fn pairs_exist(tasks: Seq<Task>, pairs: Seq<(Seq<char>, Seq<char>)>) -> bool {
    forall|i: int| 0 <= i < pairs.len() ==> has_name(tasks_in(tasks, (#[trigger] pairs[i]).0), pairs[i].1)
}

/// Every edge of `edges` has weight 1 and joins nodes below `n`.
pub open spec fn edges_below(edges: Seq<(usize, usize, u32)>, n: int) -> bool {
    forall|i: int| 0 <= i < edges.len() ==> (#[trigger] edges[i]).0 < n && edges[i].1 < n && edges[i].2 == 1
}

/// The number of copies of `x` among the frame edges of the first `k` tasks.
pub open spec fn frame_count(ts: Seq<TaskView>, b: int, j: int, di: int, k: int, x: (usize, usize, u32)) -> nat {
    if x.2 == 1 && x.0 == b && b + 2 <= x.1 < b + 2 + k {
        if start_removed(ts, j, di, x.1 - b - 2) {
            0
        } else {
            1
        }
    } else if x.2 == 1 && x.1 == b + 1 && b + 2 <= x.0 < b + 2 + k {
        if end_removed(ts, j, di, x.0 - b - 2) {
            0
        } else {
            1
        }
    } else {
        0
    }
}

proof fn lemma_frame_count(ts: Seq<TaskView>, b: int, j: int, di: int, k: int, x: (usize, usize, u32))
    requires
        0 <= b,
        0 <= k,
        b + 2 + k <= usize::MAX,
    ensures
        frame_edges(ts, b, j, di, k).to_multiset().count(x) == frame_count(ts, b, j, di, k, x),
    decreases k,
{
    broadcast use vstd::seq_lib::group_to_multiset_ensures, vstd::multiset::group_multiset_axioms;
    if k == 0 {
        assert(frame_edges(ts, b, j, di, k).to_multiset().len() == 0);
    } else {
        lemma_frame_count(ts, b, j, di, k - 1, x);
    }
}

proof fn lemma_tasks_in_step(tasks: Seq<Task>, g: Seq<char>, i: int)
    requires
        0 <= i < tasks.len(),
    ensures
        tasks_in(tasks.take(i + 1), g) == if tasks[i].group@ == g {
            tasks_in(tasks.take(i), g).push(tasks[i]@)
        } else {
            tasks_in(tasks.take(i), g)
        },
{
    assert(tasks.take(i + 1).drop_last() =~= tasks.take(i));
}

proof fn lemma_tasks_in_prefix(tasks: Seq<Task>, g: Seq<char>, i: int)
    requires
        0 <= i <= tasks.len(),
    ensures
        tasks_in(tasks.take(i), g) == tasks_in(tasks, g).take(tasks_in(tasks.take(i), g).len() as int),
        tasks_in(tasks.take(i), g).len() <= tasks_in(tasks, g).len(),
    decreases tasks.len() - i,
{
    if i == tasks.len() {
        assert(tasks.take(i) =~= tasks);
        assert(tasks_in(tasks, g).take(tasks_in(tasks, g).len() as int) =~= tasks_in(tasks, g));
    } else {
        lemma_tasks_in_prefix(tasks, g, i + 1);
        lemma_tasks_in_step(tasks, g, i);
        let a = tasks_in(tasks.take(i), g);
        let c = tasks_in(tasks.take(i + 1), g);
        let f = tasks_in(tasks, g);
        assert(a =~= f.take(a.len() as int)) by {
            assert(c =~= f.take(c.len() as int));
            assert forall|k: int| 0 <= k < a.len() implies a[k] == f[k] by {
                assert(a[k] == c[k]);
            }
        }
    }
}

proof fn lemma_prefix_injective(g: Seq<char>, a: Seq<char>, x: Seq<char>)
    requires
        prefix(g, a) == prefix(g, x),
    ensures
        a == x,
{
    reveal_strlit("::");
    let l = g.len() + 2;
    assert(prefix(g, a).len() == l + a.len());
    assert(a =~= prefix(g, a).subrange(l as int, prefix(g, a).len() as int));
    assert(x =~= prefix(g, x).subrange(l as int, prefix(g, x).len() as int));
}

/// The index entries of the first `k` tasks of an entry whose start is `b`.
pub open spec fn entry_index(ts: Seq<TaskView>, g: Seq<char>, b: int, k: int) -> Seq<(Seq<char>, usize)> {
    Seq::new(k as nat, |i: int| (prefix(g, ts[i].0), (b + 2 + i) as usize))
}

proof fn lemma_last_of_take(ts: Seq<TaskView>, x: Seq<char>, k: int)
    requires
        0 < k <= ts.len(),
    ensures
        last_of(ts.take(k), x) == if ts[k - 1].0 == x { k - 1 } else { last_of(ts.take(k - 1), x) },
{
    assert(ts.take(k).drop_last() =~= ts.take(k - 1));
}

proof fn lemma_last_of_range(ts: Seq<TaskView>, x: Seq<char>)
    ensures
        -1 <= last_of(ts, x) < ts.len(),
        last_of(ts, x) >= 0 ==> ts[last_of(ts, x)].0 == x,
        last_of(ts, x) >= 0 <==> has_name(ts, x),
        forall|k: int| last_of(ts, x) < k < ts.len() ==> ts[k].0 != x,
    decreases ts.len(),
{
    if ts.len() > 0 {
        let p = ts.drop_last();
        lemma_last_of_range(p, x);
        if ts.last().0 == x {
            assert(ts[ts.len() - 1].0 == x);
        } else {
            assert forall|k: int| last_of(ts, x) < k < ts.len() implies ts[k].0 != x by {
                if k < ts.len() - 1 {
                    assert(p[k] == ts[k]);
                }
            }
            if has_name(ts, x) {
                let k = choose|k: int| 0 <= k < ts.len() && (#[trigger] ts[k]).0 == x;
                assert(p[k].0 == x);
            }
            if has_name(p, x) {
                let k = choose|k: int| 0 <= k < p.len() && (#[trigger] p[k]).0 == x;
                assert(ts[k].0 == x);
            }
        }
    }
}

proof fn lemma_lookup_entry(s0: Seq<(Seq<char>, usize)>, ts: Seq<TaskView>, g: Seq<char>, b: int, k: int, x: Seq<char>)
    requires
        0 <= k <= ts.len(),
        0 <= b,
        b + 2 + ts.len() <= usize::MAX,
    ensures
        lookup_last(s0 + entry_index(ts, g, b, k), prefix(g, x)) == if last_of(ts.take(k), x) >= 0 {
            Some((b + 2 + last_of(ts.take(k), x)) as usize)
        } else {
            lookup_last(s0, prefix(g, x))
        },
    decreases k,
{
    if k == 0 {
        assert(s0 + entry_index(ts, g, b, k) =~= s0);
        assert(ts.take(0) =~= Seq::<TaskView>::empty());
    } else {
        let s = s0 + entry_index(ts, g, b, k);
        assert(s.drop_last() =~= s0 + entry_index(ts, g, b, k - 1));
        lemma_lookup_entry(s0, ts, g, b, k - 1, x);
        lemma_last_of_take(ts, x, k);
        if prefix(g, ts[k - 1].0) == prefix(g, x) {
            lemma_prefix_injective(g, ts[k - 1].0, x);
        }
    }
}

} // verus!

verus! {

/// The number of dependencies of the first `j` tasks.
pub open spec fn deps_total(ts: Seq<TaskView>, j: int) -> int
    decreases j,
{
    if j <= 0 {
        0
    } else {
        deps_total(ts, j - 1) + ts[j - 1].4.len()
    }
}

proof fn lemma_deps_total_mono(ts: Seq<TaskView>, j: int, k: int)
    requires
        0 <= j <= k,
    ensures
        deps_total(ts, j) <= deps_total(ts, k),
    decreases k - j,
{
    if j < k {
        lemma_deps_total_mono(ts, j, k - 1);
    }
}

/// The (group, task) pairs of the tasks of an entry.
pub open spec fn entry_pairs(ts: Seq<TaskView>, g: Seq<char>, k: int) -> Seq<(Seq<char>, Seq<char>)> {
    Seq::new(k as nat, |i: int| (g, ts[i].0))
}

/// Add the start and end nodes of a group entry and its tasks, each task
/// between the start and the end, and record the tasks in the lookup lists.
fn add_entry_frame(
    graph: &mut TaskGraph,
    tti: &mut Vec<(String, usize)>,
    ttg: &mut Vec<(String, String)>,
    tasks: &Vec<Task>,
    group: &Group,
) -> (r: (usize, usize))
    requires
        task_nodes(*old(graph)).len() + 2 + tasks_in(tasks@, group.name@).len() <= index_limit(),
        task_edges(*old(graph)).len() + 2 * tasks_in(tasks@, group.name@).len() <= index_limit(),
        edges_below(task_edges(*old(graph)), task_nodes(*old(graph)).len() as int),
    ensures
        ({
            let b = task_nodes(*old(graph)).len() as int;
            let ts = tasks_in(tasks@, group.name@);
            let m = ts.len() as int;
            &&& r == (b as usize, (b + 1) as usize)
            &&& task_nodes(*final(graph)).len() == b + 2 + m
            &&& task_node_views(*final(graph)) == task_node_views(*old(graph)) + seq![
                NodeView::GroupStart(group@),
                NodeView::GroupEnd,
            ] + ts.map_values(|t: TaskView| NodeView::Task(t))
            &&& task_edges(*final(graph)).to_multiset() == task_edges(*old(graph)).to_multiset().add(
                frame_edges(ts, b, 0, 0, m).to_multiset(),
            )
            &&& task_edges(*final(graph)).len() == task_edges(*old(graph)).len() + 2 * m
            &&& edges_below(task_edges(*final(graph)), b + 2 + m)
            &&& index_view(final(tti)@) == index_view(old(tti)@) + entry_index(ts, group.name@, b, m)
            &&& pair_view(final(ttg)@) == pair_view(old(ttg)@) + entry_pairs(ts, group.name@, m)
        }),
{
    broadcast use vstd::seq_lib::group_to_multiset_ensures, vstd::multiset::group_multiset_axioms;

    let ghost b = task_nodes(*graph).len() as int;
    let ghost g = group.name@;
    let ghost ts = tasks_in(tasks@, g);
    let ghost m = ts.len() as int;
    let ghost nodes0 = task_node_views(*graph);
    let ghost e0 = task_edges(*graph);
    let ghost tti0 = index_view(tti@);
    let ghost ttg0 = pair_view(ttg@);
    let gs = tg_add_node(graph, Node::GroupStart(group.clone()));
    let ge = tg_add_node(graph, Node::GroupEnd);
    assert(task_node_views(*graph) =~= nodes0 + seq![NodeView::GroupStart(group@), NodeView::GroupEnd]);
    proof {
        lemma_tasks_in_prefix(tasks@, g, 0);
        assert(tasks@.take(0) =~= Seq::<Task>::empty());
    }
    let mut count: usize = 0;
    for i in 0..tasks.len()
        invariant
            b == gs,
            ge == b + 1,
            g == group.name@,
            ts == tasks_in(tasks@, g),
            m == ts.len(),
            count == tasks_in(tasks@.take(i as int), g).len(),
            count <= m,
            b + 2 + m <= index_limit(),
            e0.len() + 2 * m <= index_limit(),
            task_nodes(*graph).len() == b + 2 + count,
            task_node_views(*graph) == nodes0 + seq![NodeView::GroupStart(group@), NodeView::GroupEnd]
                + ts.take(count as int).map_values(|t: TaskView| NodeView::Task(t)),
            task_edges(*graph).to_multiset() == e0.to_multiset().add(frame_edges(ts, b, 0, 0, count as int).to_multiset()),
            task_edges(*graph).len() == e0.len() + 2 * count,
            edges_below(task_edges(*graph), b + 2 + count),
            edges_below(e0, b),
            index_view(tti@) == tti0 + entry_index(ts, g, b, count as int),
            pair_view(ttg@) == ttg0 + entry_pairs(ts, g, count as int),
    {
        proof {
            lemma_tasks_in_step(tasks@, g, i as int);
            lemma_tasks_in_prefix(tasks@, g, i + 1);
            lemma_tasks_in_prefix(tasks@, g, i as int);
        }
        if tasks[i].group == group.name {
            let task = &tasks[i];
            assert(ts[count as int] == task@) by {
                assert(tasks_in(tasks@.take(i + 1), g)[count as int] == task@);
            }
            let ghost nodes1 = task_node_views(*graph);
            let ghost edges1 = task_edges(*graph);
            let n = tg_add_node(graph, Node::Task(task.clone()));
            assert(task_node_views(*graph) =~= nodes0 + seq![NodeView::GroupStart(group@), NodeView::GroupEnd]
                + ts.take(count + 1).map_values(|t: TaskView| NodeView::Task(t))) by {
                assert(task_node_views(*graph) =~= nodes1.push(NodeView::Task(task@)));
            }
            tg_add_edge(graph, gs, n, 1);
            tg_add_edge(graph, n, ge, 1);
            let ghost fe = frame_edges(ts, b, 0, 0, count + 1);
            assert(fe == frame_edges(ts, b, 0, 0, count as int).push((b as usize, n, 1u32)).push((n, (b + 1) as usize, 1u32)));
            assert(task_edges(*graph) == edges1.push((gs, n, 1u32)).push((n, ge, 1u32)));
            assert(task_edges(*graph).to_multiset() =~= e0.to_multiset().add(fe.to_multiset())) by {
                let fp = frame_edges(ts, b, 0, 0, count as int);
                let a1 = (b as usize, n, 1u32);
                let a2 = (n, (b + 1) as usize, 1u32);
                vstd::seq_lib::to_multiset_build(fp, a1);
                vstd::seq_lib::to_multiset_build(fp.push(a1), a2);
                vstd::seq_lib::to_multiset_build(edges1, a1);
                vstd::seq_lib::to_multiset_build(edges1.push(a1), a2);
            }
            assert forall|k: int| 0 <= k < task_edges(*graph).len() implies (#[trigger] task_edges(*graph)[k]).0 < b + 2 + count + 1
                && task_edges(*graph)[k].1 < b + 2 + count + 1 && task_edges(*graph)[k].2 == 1 by {
                if k < edges1.len() {
                    assert(task_edges(*graph)[k] == edges1[k]);
                }
            }
            let key = task.to_prefix();
            let ghost ti1 = index_view(tti@);
            tti.push((key, n));
            assert(index_view(tti@) =~= ti1.push((prefix(g, ts[count as int].0), n)));
            assert(index_view(tti@) =~= tti0 + entry_index(ts, g, b, count + 1));
            let ghost tg1 = pair_view(ttg@);
            ttg.push((group.name.clone(), task.name.clone()));
            assert(pair_view(ttg@) =~= tg1.push((g, ts[count as int].0)));
            assert(pair_view(ttg@) =~= ttg0 + entry_pairs(ts, g, count + 1));
            count = count + 1;
        }
    }
    proof {
        assert(tasks@.take(tasks@.len() as int) =~= tasks@);
        assert(ts.take(m) =~= ts);
    }
    (gs, ge)
}

} // verus!

verus! {

proof fn lemma_swap_remove(s: Seq<(usize, usize, u32)>, e: int, n: int)
    requires
        0 <= e < s.len(),
        edges_below(s, n),
    ensures
        swap_remove(s, e).to_multiset() == s.to_multiset().remove(s[e]),
        swap_remove(s, e).len() == s.len() - 1,
        edges_below(swap_remove(s, e), n),
{
    broadcast use vstd::multiset::group_multiset_axioms;

    let p = s.drop_last();
    assert(s =~= p.push(s.last()));
    vstd::seq_lib::to_multiset_build(p, s.last());
    if e == s.len() - 1 {
        assert(s.to_multiset().remove(s[e]) =~= p.to_multiset());
    } else {
        vstd::seq_lib::to_multiset_update(p, e, s.last());
        assert(swap_remove(s, e).to_multiset() =~= s.to_multiset().remove(s[e]));
    }
    let r = swap_remove(s, e);
    assert forall|i: int| 0 <= i < r.len() implies (#[trigger] r[i]).0 < n && r[i].1 < n && r[i].2 == 1 by {
        if i == e && e < s.len() - 1 {
            assert(r[i] == s[s.len() - 1]);
        } else {
            assert(r[i] == s[i]);
        }
    }
}

proof fn lemma_count_has_edge(s: Seq<(usize, usize, u32)>, y: (usize, usize, u32))
    requires
        s.to_multiset().count(y) > 0,
    ensures
        has_edge(s, y.0 as int, y.1 as int),
{
    broadcast use vstd::seq_lib::to_multiset_contains, vstd::multiset::group_multiset_axioms;

    assert(s.to_multiset().contains(y));
    assert(s.contains(y));
    let i = choose|i: int| 0 <= i < s.len() && s[i] == y;
    assert(s[i].0 == y.0 && s[i].1 == y.1);
}

/// Make task `d` come before task `t` of the group entry whose start is `s`
/// and whose end is `s + 1`: add the edge from `d` to `t`, then remove the
/// edge from the start to `t` and the edge from `d` to the end, where the
/// graph has them.
fn link_tasks(graph: &mut TaskGraph, s: usize, d: usize, t: usize)
    requires
        s + 1 < task_nodes(*old(graph)).len(),
        task_nodes(*old(graph)).len() <= index_limit(),
        d < task_nodes(*old(graph)).len(),
        t < task_nodes(*old(graph)).len(),
        d != s,
        t != s + 1,
        task_edges(*old(graph)).len() < index_limit(),
        edges_below(task_edges(*old(graph)), task_nodes(*old(graph)).len() as int),
        task_edges(*old(graph)).to_multiset().count((s, t, 1u32)) <= 1,
        task_edges(*old(graph)).to_multiset().count((d, (s + 1) as usize, 1u32)) <= 1,
    ensures
        task_nodes(*final(graph)) == task_nodes(*old(graph)),
        edges_below(task_edges(*final(graph)), task_nodes(*old(graph)).len() as int),
        task_edges(*final(graph)).len() <= task_edges(*old(graph)).len() + 1,
        forall|y: (usize, usize, u32)|
            #[trigger] task_edges(*final(graph)).to_multiset().count(y) == if y == (s, t, 1u32) || y == (
                d,
                (s + 1) as usize,
                1u32,
            ) {
                0
            } else if y == (d, t, 1u32) {
                task_edges(*old(graph)).to_multiset().count(y) + 1
            } else {
                task_edges(*old(graph)).to_multiset().count(y)
            },
{
    broadcast use vstd::multiset::group_multiset_axioms;

    let ghost n = task_nodes(*graph).len() as int;
    let ghost m0 = task_edges(*graph).to_multiset();
    let ghost l0 = task_edges(*graph).len();
    let ghost ed = (d, t, 1u32);
    let ghost st = (s, t, 1u32);
    let se = s + 1;
    let ghost en = (d, se, 1u32);
    let ghost e1 = task_edges(*graph);
    tg_add_edge(graph, d, t, 1);
    proof {
        vstd::seq_lib::to_multiset_build(e1, ed);
        assert(task_edges(*graph) == e1.push(ed));
        assert forall|i: int| 0 <= i < task_edges(*graph).len() implies (#[trigger] task_edges(*graph)[i]).0 < n
            && task_edges(*graph)[i].1 < n && task_edges(*graph)[i].2 == 1 by {
            if i < e1.len() {
                assert(task_edges(*graph)[i] == e1[i]);
            }
        }
    }
    let ghost m1 = task_edges(*graph).to_multiset();
    assert(m1 == m0.insert(ed));
    match tg_find_edge(graph, s, t) {
        Some(e) => {
            let ghost e2 = task_edges(*graph);
            assert(e2[e as int] == st);
            tg_remove_edge(graph, e);
            proof {
                lemma_swap_remove(e2, e as int, n);
            }
        },
        None => {
            proof {
                if m1.count(st) > 0 {
                    lemma_count_has_edge(task_edges(*graph), st);
                }
            }
        },
    }
    let ghost m2 = task_edges(*graph).to_multiset();
    assert(m2.count(st) == 0);
    assert(forall|y: (usize, usize, u32)| y != st ==> #[trigger] m2.count(y) == m1.count(y));
    assert(task_edges(*graph).len() <= l0 + 1);
    match tg_find_edge(graph, d, se) {
        Some(e) => {
            let ghost e3 = task_edges(*graph);
            assert(e3[e as int] == en);
            tg_remove_edge(graph, e);
            proof {
                lemma_swap_remove(e3, e as int, n);
            }
        },
        None => {
            proof {
                if m2.count(en) > 0 {
                    lemma_count_has_edge(task_edges(*graph), en);
                }
            }
        },
    }
    let ghost m3 = task_edges(*graph).to_multiset();
    assert(m3.count(en) == 0);
    assert(forall|y: (usize, usize, u32)| y != en ==> #[trigger] m3.count(y) == m2.count(y));
}

} // verus!

verus! {

proof fn lemma_start_removed_step(ts: Seq<TaskView>, j: int, di: int, k: int)
    requires
        0 <= j < ts.len(),
        0 <= di < ts[j].4.len(),
        0 <= k < ts.len(),
    ensures
        start_removed(ts, j, di + 1, k) == (start_removed(ts, j, di, k) || k == last_of(ts, ts[j].0)),
{
    let t = last_of(ts, ts[j].0);
    assert(has_name(ts, ts[j].0)) by {
        assert(ts[j].0 == ts[j].0);
    }
    lemma_last_of_range(ts, ts[j].0);
    if k == t {
        assert(ts[t].0 == ts[j].0);
        assert(k == last_of(ts, ts[k].0));
        assert(ts[j].0 == ts[k].0 && j == j && di + 1 > 0);
    }
    if start_removed(ts, j, di + 1, k) && !start_removed(ts, j, di, k) {
        let k2 = choose|k2: int|
            0 <= k2 < ts.len() && #[trigger] ts[k2].0 == ts[k].0 && (k2 < j && ts[k2].4.len() > 0 || k2 == j && di + 1
                > 0);
        assert(k2 == j);
    }
}

proof fn lemma_end_removed_step(ts: Seq<TaskView>, j: int, di: int, k: int)
    requires
        0 <= j < ts.len(),
        0 <= di < ts[j].4.len(),
        0 <= k < ts.len(),
        has_name(ts, ts[j].4[di]),
    ensures
        end_removed(ts, j, di + 1, k) == (end_removed(ts, j, di, k) || k == last_of(ts, ts[j].4[di])),
{
    let x = ts[j].4[di];
    let dl = last_of(ts, x);
    lemma_last_of_range(ts, x);
    if k == dl {
        assert(ts[dl].0 == x);
        assert(k == last_of(ts, ts[k].0));
        assert(ts[j].4[di] == ts[k].0);
    }
    if end_removed(ts, j, di + 1, k) && !end_removed(ts, j, di, k) {
        let (k2, d) = choose|k2: int, d: int|
            0 <= k2 <= j && 0 <= d < ts[k2].4.len() && (k2 < j || d < di + 1) && #[trigger] ts[k2].4[d] == ts[k].0;
        assert(k2 == j && d == di);
    }
}

/// Processing dependency `di` of task `j`, which names a task of the entry,
/// removes the start edge of task `j`'s node and the end edge of the
/// dependency's node, and leaves the other frame edges as they are.
proof fn lemma_frame_step(ts: Seq<TaskView>, b: int, j: int, di: int, y: (usize, usize, u32))
    requires
        0 <= j < ts.len(),
        0 <= di < ts[j].4.len(),
        has_name(ts, ts[j].4[di]),
        0 <= b,
        b + 2 + ts.len() <= index_limit(),
    ensures
        frame_count(ts, b, j, di + 1, ts.len() as int, y) == if y == (
            b as usize,
            (b + 2 + last_of(ts, ts[j].0)) as usize,
            1u32,
        ) || y == ((b + 2 + last_of(ts, ts[j].4[di])) as usize, (b + 1) as usize, 1u32) {
            0
        } else {
            frame_count(ts, b, j, di, ts.len() as int, y)
        },
{
    let m = ts.len() as int;
    let t = last_of(ts, ts[j].0);
    let dl = last_of(ts, ts[j].4[di]);
    assert(has_name(ts, ts[j].0)) by {
        assert(ts[j].0 == ts[j].0);
    }
    lemma_last_of_range(ts, ts[j].0);
    lemma_last_of_range(ts, ts[j].4[di]);
    if y.2 == 1 && y.0 == b && b + 2 <= y.1 < b + 2 + m {
        lemma_start_removed_step(ts, j, di, y.1 - b - 2);
    } else if y.2 == 1 && y.1 == b + 1 && b + 2 <= y.0 < b + 2 + m {
        lemma_end_removed_step(ts, j, di, y.0 - b - 2);
    }
}

/// Once all the dependencies of task `j` are processed, the state is that
/// before the dependencies of task `j + 1`.
proof fn lemma_frame_next_task(ts: Seq<TaskView>, b: int, j: int, y: (usize, usize, u32))
    requires
        0 <= j < ts.len(),
    ensures
        frame_count(ts, b, j, ts[j].4.len() as int, ts.len() as int, y) == frame_count(
            ts,
            b,
            j + 1,
            0,
            ts.len() as int,
            y,
        ),
{
    let m = ts.len() as int;
    let l = ts[j].4.len() as int;
    assert forall|k: int| 0 <= k < m implies start_removed(ts, j, l, k) == start_removed(ts, j + 1, 0, k) by {
        if start_removed(ts, j, l, k) {
            let k2 = choose|k2: int|
                0 <= k2 < ts.len() && #[trigger] ts[k2].0 == ts[k].0 && (k2 < j && ts[k2].4.len() > 0 || k2 == j && l
                    > 0);
            assert(ts[k2].0 == ts[k].0 && (k2 < j + 1 && ts[k2].4.len() > 0));
        }
        if start_removed(ts, j + 1, 0, k) {
            let k2 = choose|k2: int|
                0 <= k2 < ts.len() && #[trigger] ts[k2].0 == ts[k].0 && (k2 < j + 1 && ts[k2].4.len() > 0 || k2 == j + 1
                    && 0 > 0);
            assert(ts[k2].0 == ts[k].0 && (k2 < j && ts[k2].4.len() > 0 || k2 == j && l > 0));
        }
    }
    assert forall|k: int| 0 <= k < m implies end_removed(ts, j, l, k) == end_removed(ts, j + 1, 0, k) by {
        if end_removed(ts, j, l, k) {
            let (k2, d) = choose|k2: int, d: int|
                0 <= k2 <= j && 0 <= d < ts[k2].4.len() && (k2 < j || d < l) && #[trigger] ts[k2].4[d] == ts[k].0;
            assert(0 <= k2 <= j + 1 && 0 <= d < ts[k2].4.len() && (k2 < j + 1 || d < 0) && ts[k2].4[d] == ts[k].0);
        }
        if end_removed(ts, j + 1, 0, k) {
            let (k2, d) = choose|k2: int, d: int|
                0 <= k2 <= j + 1 && 0 <= d < ts[k2].4.len() && (k2 < j + 1 || d < 0) && #[trigger] ts[k2].4[d]
                    == ts[k].0;
            assert(0 <= k2 <= j && 0 <= d < ts[k2].4.len() && (k2 < j || d < l) && ts[k2].4[d] == ts[k].0);
        }
    }
    if y.2 == 1 && y.0 == b && b + 2 <= y.1 < b + 2 + m {
        assert(start_removed(ts, j, l, y.1 - b - 2) == start_removed(ts, j + 1, 0, y.1 - b - 2));
    } else if y.2 == 1 && y.1 == b + 1 && b + 2 <= y.0 < b + 2 + m {
        assert(end_removed(ts, j, l, y.0 - b - 2) == end_removed(ts, j + 1, 0, y.0 - b - 2));
    }
}

proof fn lemma_missing_dep_mono(ts: Seq<TaskView>, k: int, di: int, di2: int)
    requires
        0 <= di <= di2,
        missing_dep(ts, k, di) is Some,
    ensures
        missing_dep(ts, k, di2) == missing_dep(ts, k, di),
    decreases di2 - di,
{
    if di < di2 {
        lemma_missing_dep_mono(ts, k, di, di2 - 1);
    }
}

proof fn lemma_missing_in_mono(ts: Seq<TaskView>, j: int, j2: int)
    requires
        0 <= j <= j2,
        missing_in(ts, j) is Some,
    ensures
        missing_in(ts, j2) == missing_in(ts, j),
    decreases j2 - j,
{
    if j < j2 {
        lemma_missing_in_mono(ts, j, j2 - 1);
    }
}

proof fn lemma_first_missing_mono(groups: Seq<Group>, tasks: Seq<Task>, e: int, e2: int)
    requires
        0 <= e <= e2,
        first_missing(groups, tasks, e) is Some,
    ensures
        first_missing(groups, tasks, e2) == first_missing(groups, tasks, e),
    decreases e2 - e,
{
    if e < e2 {
        lemma_first_missing_mono(groups, tasks, e, e2 - 1);
    }
}

/// The (group, task) pairs recorded so far name the dependency exactly when
/// the group's tasks do.
proof fn lemma_pair_found(
    tasks: Seq<Task>,
    p0: Seq<(Seq<char>, Seq<char>)>,
    g: Seq<char>,
    x: Seq<char>,
)
    requires
        pairs_exist(tasks, p0),
    ensures
        (p0 + entry_pairs(tasks_in(tasks, g), g, tasks_in(tasks, g).len() as int)).contains((g, x)) <==> has_name(
            tasks_in(tasks, g),
            x,
        ),
{
    let ts = tasks_in(tasks, g);
    let all = p0 + entry_pairs(ts, g, ts.len() as int);
    if all.contains((g, x)) {
        let i = choose|i: int| 0 <= i < all.len() && all[i] == (g, x);
        if i < p0.len() {
            assert(p0[i] == (g, x));
        } else {
            assert(ts[i - p0.len()].0 == x);
        }
    }
    if has_name(ts, x) {
        let k = choose|k: int| 0 <= k < ts.len() && (#[trigger] ts[k]).0 == x;
        assert(all[p0.len() + k] == (g, x));
    }
}

proof fn lemma_pairs_exist_grow(tasks: Seq<Task>, p0: Seq<(Seq<char>, Seq<char>)>, g: Seq<char>)
    requires
        pairs_exist(tasks, p0),
    ensures
        pairs_exist(tasks, p0 + entry_pairs(tasks_in(tasks, g), g, tasks_in(tasks, g).len() as int)),
{
    let ts = tasks_in(tasks, g);
    let all = p0 + entry_pairs(ts, g, ts.len() as int);
    assert forall|i: int| 0 <= i < all.len() implies has_name(tasks_in(tasks, (#[trigger] all[i]).0), all[i].1) by {
        if i < p0.len() {
            assert(all[i] == p0[i]);
        } else {
            let k = i - p0.len();
            assert(ts[k].0 == all[i].1);
        }
    }
}

} // verus!

verus! {

/// The count of `y` among the edges so far: those of the entries before,
/// the frame edges that are left once the dependencies up to task `j`,
/// dependency `di` are processed, and the dependency edges added.
pub open spec fn counts_match(
    edges: Seq<(usize, usize, u32)>,
    e0: Seq<(usize, usize, u32)>,
    ts: Seq<TaskView>,
    b: int,
    j: int,
    di: int,
    dseq: Seq<(usize, usize, u32)>,
) -> bool {
    forall|y: (usize, usize, u32)|
        #[trigger] edges.to_multiset().count(y) == e0.to_multiset().count(y) + frame_count(ts, b, j, di, ts.len() as int, y)
            + dseq.to_multiset().count(y)
}

/// Every edge of `s` joins two task nodes of an entry whose start is `b`
/// and which has `m` tasks.
pub open spec fn between_tasks(s: Seq<(usize, usize, u32)>, b: int, m: int) -> bool {
    forall|i: int|
        0 <= i < s.len() ==> b + 2 <= (#[trigger] s[i]).0 < b + 2 + m && b + 2 <= s[i].1 < b + 2 + m && s[i].2 == 1
}

/// Add the dependency edges of the tasks of a group entry, removing the
/// start and end edges they make redundant. Fails on the first dependency
/// that names no task of the group.
fn add_entry_deps(
    graph: &mut TaskGraph,
    tti: &Vec<(String, usize)>,
    ttg: &Vec<(String, String)>,
    tasks: &Vec<Task>,
    group: &Group,
    gs: usize,
    ge: usize,
    Ghost(e0): Ghost<Seq<(usize, usize, u32)>>,
    Ghost(s0): Ghost<Seq<(Seq<char>, usize)>>,
    Ghost(p0): Ghost<Seq<(Seq<char>, Seq<char>)>>,
) -> (r: Result<(), GraphError>)
    requires
        ({
            let b = gs as int;
            let ts = tasks_in(tasks@, group.name@);
            let m = ts.len() as int;
            &&& ge == b + 1
            &&& task_nodes(*old(graph)).len() == b + 2 + m
            &&& b + 2 + m <= index_limit()
            &&& task_edges(*old(graph)).len() + deps_total(ts, m) <= index_limit()
            &&& edges_below(e0, b)
            &&& edges_below(task_edges(*old(graph)), b + 2 + m)
            &&& task_edges(*old(graph)).to_multiset() == e0.to_multiset().add(
                frame_edges(ts, b, 0, 0, m).to_multiset(),
            )
            &&& index_view(tti@) == s0 + entry_index(ts, group.name@, b, m)
            &&& pair_view(ttg@) == p0 + entry_pairs(ts, group.name@, m)
            &&& pairs_exist(tasks@, p0)
        }),
    ensures
        ({
            let b = gs as int;
            let ts = tasks_in(tasks@, group.name@);
            let m = ts.len() as int;
            &&& task_nodes(*final(graph)) == task_nodes(*old(graph))
            &&& match r {
                Ok(()) => {
                    &&& missing_in(ts, m) is None
                    &&& task_edges(*final(graph)).to_multiset() == e0.to_multiset().add(
                        entry_edges(ts, b).to_multiset(),
                    )
                    &&& edges_below(task_edges(*final(graph)), b + 2 + m)
                    &&& task_edges(*final(graph)).len() <= task_edges(*old(graph)).len() + deps_total(ts, m)
                },
                Err(GraphError::TaskNotInGroup { task, current_group }) => {
                    &&& missing_in(ts, m) == Some(task@)
                    &&& current_group@ == group.name@
                },
                Err(GraphError::Cycle) => false,
            }
        }),
{
    broadcast use vstd::multiset::group_multiset_axioms;

    let ghost b = gs as int;
    let ghost g = group.name@;
    let ghost ts = tasks_in(tasks@, g);
    let ghost m = ts.len() as int;
    let ghost l0 = task_edges(*graph).len();
    let ghost n0 = task_nodes(*graph);
    let ghost mut dseq: Seq<(usize, usize, u32)> = Seq::empty();
    proof {
        assert(counts_match(task_edges(*graph), e0, ts, b, 0, 0, dseq)) by {
            assert forall|y: (usize, usize, u32)|
                #[trigger] task_edges(*graph).to_multiset().count(y) == e0.to_multiset().count(y) + frame_count(
                    ts,
                    b,
                    0,
                    0,
                    m,
                    y,
                ) + dseq.to_multiset().count(y) by {
                lemma_frame_count(ts, b, 0, 0, m, y);
                vstd::seq_lib::to_multiset_len(dseq);
                assert(dseq.to_multiset().count(y) == 0);
            }
        }
        lemma_tasks_in_prefix(tasks@, g, 0);
        assert(tasks@.take(0) =~= Seq::<Task>::empty());
        assert(ts.take(m) =~= ts);
        lemma_pairs_exist_grow(tasks@, p0, g);
    }
    let mut j: usize = 0;
    for i in 0..tasks.len()
        invariant
            b == gs,
            ge == b + 1,
            g == group.name@,
            ts == tasks_in(tasks@, g),
            m == ts.len(),
            ts.take(m) == ts,
            j == tasks_in(tasks@.take(i as int), g).len(),
            j <= m,
            b + 2 + m <= index_limit(),
            l0 + deps_total(ts, m) <= index_limit(),
            task_nodes(*graph) == n0,
            n0 == task_nodes(*old(graph)),
            n0.len() == b + 2 + m,
            edges_below(e0, b),
            edges_below(task_edges(*graph), b + 2 + m),
            task_edges(*graph).len() <= l0 + deps_total(ts, j as int),
            dseq == dep_edges(ts, b, j as int),
            between_tasks(dseq, b, m),
            counts_match(task_edges(*graph), e0, ts, b, j as int, 0, dseq),
            missing_in(ts, j as int) is None,
            index_view(tti@) == s0 + entry_index(ts, g, b, m),
            pair_view(ttg@) == p0 + entry_pairs(ts, g, m),
            pairs_exist(tasks@, p0),
    {
        proof {
            lemma_tasks_in_step(tasks@, g, i as int);
            lemma_tasks_in_prefix(tasks@, g, i + 1);
            lemma_tasks_in_prefix(tasks@, g, i as int);
        }
        if tasks[i].group == group.name {
            let task = &tasks[i];
            assert(ts[j as int] == task@) by {
                assert(tasks_in(tasks@.take(i + 1), g)[j as int] == task@);
            }
            let ghost tname = ts[j as int].0;
            let ghost t = last_of(ts, tname);
            proof {
                assert(has_name(ts, tname)) by {
                    assert(ts[j as int].0 == tname);
                }
                lemma_last_of_range(ts, tname);
                lemma_lookup_entry(s0, ts, g, b, m, tname);
                lemma_deps_total_mono(ts, j + 1, m);
            }
            let key = task.to_prefix();
            if let Some(task_index) = find_last(tti, &key) {
            assert(task_index == b + 2 + t);
            let ghost jj = j as int;
            let ghost l_j = ts[jj].4.len() as int;
            for di in 0..task.depends.len()
                invariant
                    b == gs,
                    ge == b + 1,
                    g == group.name@,
                    ts == tasks_in(tasks@, g),
                    m == ts.len(),
                    ts.take(m) == ts,
                    0 <= jj < m,
                    ts[jj] == task@,
                    l_j == task.depends@.len(),
                    t == last_of(ts, ts[jj].0),
                    0 <= t < m,
                    task_index == b + 2 + t,
                    b + 2 + m <= index_limit(),
                    l0 + deps_total(ts, m) <= index_limit(),
                    deps_total(ts, jj) + l_j <= deps_total(ts, m),
                    task_nodes(*graph) == n0,
                    n0 == task_nodes(*old(graph)),
                    n0.len() == b + 2 + m,
                    edges_below(e0, b),
                    edges_below(task_edges(*graph), b + 2 + m),
                    task_edges(*graph).len() <= l0 + deps_total(ts, jj) + di,
                    dseq == dep_edges(ts, b, jj) + task_dep_edges(ts, b, jj, di as int),
                    between_tasks(dseq, b, m),
                    counts_match(task_edges(*graph), e0, ts, b, jj, di as int, dseq),
                    missing_in(ts, jj) is None,
                    missing_dep(ts, jj, di as int) is None,
                    index_view(tti@) == s0 + entry_index(ts, g, b, m),
                    pair_view(ttg@) == p0 + entry_pairs(ts, g, m),
                    pairs_exist(tasks@, p0),
            {
                let dep = &task.depends[di as usize];
                let ghost x = ts[jj].4[di as int];
                assert(dep@ == x);
                let found = contains_pair(ttg, &group.name, dep);
                proof {
                    lemma_pair_found(tasks@, p0, g, x);
                }
                let dep_index = if found {
                    let dep_key = names_to_prefix(group.name.as_str(), dep.as_str());
                    proof {
                        lemma_last_of_range(ts, x);
                        lemma_lookup_entry(s0, ts, g, b, m, x);
                    }
                    find_last(tti, &dep_key)
                } else {
                    None
                };
                let dep_index = match dep_index {
                    Some(d) => d,
                    None => {
                        proof {
                            assert(!has_name(ts, x));
                            assert(missing_dep(ts, jj, di + 1) == Some(x));
                            lemma_missing_dep_mono(ts, jj, di + 1, l_j);
                            assert(missing_in(ts, jj + 1) == Some(x));
                            lemma_missing_in_mono(ts, jj + 1, m);
                        }
                        return Err(
                            GraphError::TaskNotInGroup { task: dep.clone(), current_group: group.name.clone() },
                        );
                    },
                };
                let ghost dl = last_of(ts, x);
                proof {
                    lemma_last_of_range(ts, x);
                    assert(dep_index == b + 2 + dl);
                }
                let ghost edges0 = task_edges(*graph);
                let ghost st = (b as usize, (b + 2 + t) as usize, 1u32);
                let ghost en = ((b + 2 + dl) as usize, (b + 1) as usize, 1u32);
                let ghost ed = ((b + 2 + dl) as usize, (b + 2 + t) as usize, 1u32);
                proof {
                    assert(!dseq.to_multiset().contains(st) && !dseq.to_multiset().contains(en)) by {
                        broadcast use vstd::seq_lib::to_multiset_contains;
                        if dseq.contains(st) {
                            let k = choose|k: int| 0 <= k < dseq.len() && dseq[k] == st;
                            assert(dseq[k].0 >= b + 2);
                        }
                        if dseq.contains(en) {
                            let k = choose|k: int| 0 <= k < dseq.len() && dseq[k] == en;
                            assert(dseq[k].1 >= b + 2);
                        }
                    }
                    assert(!e0.to_multiset().contains(st) && !e0.to_multiset().contains(en)) by {
                        broadcast use vstd::seq_lib::to_multiset_contains;
                        if e0.contains(st) {
                            let k = choose|k: int| 0 <= k < e0.len() && e0[k] == st;
                            assert(e0[k].0 < b);
                        }
                        if e0.contains(en) {
                            let k = choose|k: int| 0 <= k < e0.len() && e0[k] == en;
                            assert(e0[k].0 < b);
                        }
                    }
                    assert(edges0.to_multiset().count(st) == e0.to_multiset().count(st) + frame_count(ts, b, jj, di as int, m, st) + dseq.to_multiset().count(st));
                    assert(edges0.to_multiset().count(en) == e0.to_multiset().count(en) + frame_count(ts, b, jj, di as int, m, en) + dseq.to_multiset().count(en));
                }
                link_tasks(graph, gs, dep_index, task_index);
                let ghost d_old = dseq;
                proof {
                    assert(task_dep_edges(ts, b, jj, di + 1) == task_dep_edges(ts, b, jj, di as int).push(
                        dep_edge(ts, b, jj, x),
                    ));
                    assert(dep_edge(ts, b, jj, x) == ed);
                    dseq = dseq.push(ed);
                    assert(dseq =~= dep_edges(ts, b, jj) + task_dep_edges(ts, b, jj, di + 1));
                    vstd::seq_lib::to_multiset_build(d_old, ed);
                    assert forall|k: int| 0 <= k < dseq.len() implies b + 2 <= (#[trigger] dseq[k]).0 < b + 2 + m && b
                        + 2 <= dseq[k].1 < b + 2 + m && dseq[k].2 == 1 by {
                        if k < d_old.len() {
                            assert(dseq[k] == d_old[k]);
                        }
                    }
                    assert forall|y: (usize, usize, u32)|
                        #[trigger] task_edges(*graph).to_multiset().count(y) == e0.to_multiset().count(y) + frame_count(
                            ts,
                            b,
                            jj,
                            di + 1,
                            m,
                            y,
                        ) + dseq.to_multiset().count(y) by {
                        lemma_frame_step(ts, b, jj, di as int, y);
                        assert(edges0.to_multiset().count(y) == e0.to_multiset().count(y) + frame_count(ts, b, jj, di as int, m, y) + d_old.to_multiset().count(y));
                        if y == st || y == en {
                        } else if y == ed {
                        }
                    }
                }
            }
            proof {
                assert(task@.4.len() == l_j);
                assert(dseq =~= dep_edges(ts, b, jj + 1));
                assert forall|y: (usize, usize, u32)|
                    #[trigger] task_edges(*graph).to_multiset().count(y) == e0.to_multiset().count(y) + frame_count(
                        ts,
                        b,
                        jj + 1,
                        0,
                        m,
                        y,
                    ) + dseq.to_multiset().count(y) by {
                    lemma_frame_next_task(ts, b, jj, y);
                }
                assert(counts_match(task_edges(*graph), e0, ts, b, jj + 1, 0, dseq));
            }
            }
            j = j + 1;
        }
    }
    proof {
        assert(tasks@.take(tasks@.len() as int) =~= tasks@);
        let fe = frame_edges(ts, b, m, 0, m);
        vstd::seq_lib::lemma_multiset_commutative(fe, dseq);
        assert(task_edges(*graph).to_multiset() =~= e0.to_multiset().add(entry_edges(ts, b).to_multiset())) by {
            assert forall|y: (usize, usize, u32)|
                #[trigger] task_edges(*graph).to_multiset().count(y) == e0.to_multiset().add(
                    entry_edges(ts, b).to_multiset(),
                ).count(y) by {
                lemma_frame_count(ts, b, m, 0, m, y);
            }
        }
    }
    Ok(())
}

} // verus!

verus! {

/// The most edges that the entry of group `g` can hold while it is built:
/// a start and an end edge for each task, and one edge per dependency.
pub open spec fn entry_budget(tasks: Seq<Task>, g: Seq<char>) -> int {
    2 * tasks_in(tasks, g).len() + deps_total(tasks_in(tasks, g), tasks_in(tasks, g).len() as int)
}

/// The sum of the entry budgets of the first `e` group entries.
pub open spec fn edge_budget(groups: Seq<Group>, tasks: Seq<Task>, e: int) -> int
    decreases e,
{
    if e <= 0 {
        0
    } else {
        edge_budget(groups, tasks, e - 1) + entry_budget(tasks, groups[e - 1].name@)
    }
}

/// The number of group dependencies of the first `gi` group entries.
pub open spec fn group_deps_total(groups: Seq<Group>, gi: int) -> int
    decreases gi,
{
    if gi <= 0 {
        0
    } else {
        group_deps_total(groups, gi - 1) + groups[gi - 1].depends@.len()
    }
}

/// The graph of the groups and tasks fits in the `u32` index space of its
/// nodes and edges at every step of building it.
pub open spec fn graph_fits(groups: Seq<Group>, tasks: Seq<Task>) -> bool {
    &&& base(groups, tasks, groups.len() as int) <= index_limit()
    &&& edge_budget(groups, tasks, groups.len() as int) + group_deps_total(groups, groups.len() as int)
        <= index_limit()
}

/// The lookup list of group entries: each entry's name and start node.
pub open spec fn group_index(groups: Seq<Group>, tasks: Seq<Task>, e: int) -> Seq<(Seq<char>, usize)> {
    Seq::new(e as nat, |k: int| (groups[k].name@, base(groups, tasks, k) as usize))
}

proof fn lemma_base_mono(groups: Seq<Group>, tasks: Seq<Task>, e1: int, e2: int)
    requires
        0 <= e1 <= e2,
    ensures
        base(groups, tasks, e1) + 2 * (e2 - e1) <= base(groups, tasks, e2),
        0 <= base(groups, tasks, e1),
    decreases e2 - e1,
{
    lemma_base_nonneg(groups, tasks, e1);
    if e1 < e2 {
        lemma_base_mono(groups, tasks, e1, e2 - 1);
    }
}

proof fn lemma_base_nonneg(groups: Seq<Group>, tasks: Seq<Task>, e: int)
    ensures
        0 <= base(groups, tasks, e),
    decreases e,
{
    if e > 0 {
        lemma_base_nonneg(groups, tasks, e - 1);
    }
}

proof fn lemma_edge_budget_mono(groups: Seq<Group>, tasks: Seq<Task>, e1: int, e2: int)
    requires
        0 <= e1 <= e2,
    ensures
        edge_budget(groups, tasks, e1) <= edge_budget(groups, tasks, e2),
    decreases e2 - e1,
{
    if e1 < e2 {
        lemma_edge_budget_mono(groups, tasks, e1, e2 - 1);
        let ts = tasks_in(tasks, groups[e2 - 1].name@);
        lemma_deps_total_mono(ts, 0, ts.len() as int);
    }
}

proof fn lemma_group_deps_mono(groups: Seq<Group>, g1: int, g2: int)
    requires
        0 <= g1 <= g2,
    ensures
        group_deps_total(groups, g1) <= group_deps_total(groups, g2),
    decreases g2 - g1,
{
    if g1 < g2 {
        lemma_group_deps_mono(groups, g1, g2 - 1);
    }
}

proof fn lemma_last_group_range(groups: Seq<Group>, e: int, x: Seq<char>, k: int)
    requires
        0 <= e <= groups.len(),
    ensures
        -1 <= last_group_in(groups, e, x) < e,
        last_group_in(groups, e, x) >= 0 ==> groups[last_group_in(groups, e, x)].name@ == x,
        0 <= k < e && groups[k].name@ == x ==> last_group_in(groups, e, x) >= k,
    decreases e,
{
    if e > 0 {
        lemma_last_group_range(groups, e - 1, x, k);
    }
}

proof fn lemma_lookup_group(groups: Seq<Group>, tasks: Seq<Task>, e: int, x: Seq<char>)
    requires
        0 <= e <= groups.len(),
        base(groups, tasks, e) <= index_limit(),
    ensures
        lookup_last(group_index(groups, tasks, e), x) == if last_group_in(groups, e, x) >= 0 {
            Some(base(groups, tasks, last_group_in(groups, e, x)) as usize)
        } else {
            None::<usize>
        },
    decreases e,
{
    if e > 0 {
        assert(group_index(groups, tasks, e).drop_last() =~= group_index(groups, tasks, e - 1));
        lemma_base_mono(groups, tasks, e - 1, e);
        lemma_lookup_group(groups, tasks, e - 1, x);
    }
}

} // verus!

verus! {

impl Engage {
    /// Get a DAG of the groups and tasks to be executed.
    ///
    /// Each group entry gives a start node, an end node and a node for each
    /// of its tasks, as [`expected_nodes`] lists them; the edges are those of
    /// [`expected_edges`], in some order. It fails with
    /// [`GraphError::TaskNotInGroup`] on the first dependency, in order, on
    /// a task outside the group, and with [`GraphError::Cycle`] when the
    /// graph has a cycle.
    pub fn to_graph(&self) -> (r: Result<TaskGraph, GraphError>)
        requires
            graph_fits(self.groups@, self.tasks@),
        ensures
            ({
                let groups = self.groups@;
                let tasks = self.tasks@;
                let n = groups.len() as int;
                match r {
                    Ok(g) => {
                        &&& first_missing(groups, tasks, n) is None
                        &&& !is_cyclic(expected_edges(groups, tasks), base(groups, tasks, n))
                        &&& task_node_views(g) == expected_nodes(groups, tasks, n)
                        &&& task_edges(g).to_multiset() == expected_edges(groups, tasks).to_multiset()
                        &&& task_graph_wf(g)
                    },
                    Err(GraphError::TaskNotInGroup { task, current_group }) => {
                        first_missing(groups, tasks, n) == Some((task@, current_group@))
                    },
                    Err(GraphError::Cycle) => {
                        &&& first_missing(groups, tasks, n) is None
                        &&& is_cyclic(expected_edges(groups, tasks), base(groups, tasks, n))
                    },
                }
            }),
    {
        broadcast use vstd::multiset::group_multiset_axioms;

        let ghost groups = self.groups@;
        let ghost tasks = self.tasks@;
        let ghost n = groups.len() as int;
        let mut graph = tg_new();
        let mut group_to_index: Vec<(String, usize)> = Vec::new();
        let mut task_to_index: Vec<(String, usize)> = Vec::new();
        let mut task_to_group: Vec<(String, String)> = Vec::new();
        proof {
            assert(group_index(groups, tasks, 0) =~= index_view(group_to_index@));
            assert(pairs_exist(tasks, pair_view(task_to_group@)));
            assert(task_node_views(graph) =~= expected_nodes(groups, tasks, 0));
            assert(task_edges(graph) =~= entries_edges(groups, tasks, 0));
            lemma_base_mono(groups, tasks, 0, n);
            lemma_edge_budget_mono(groups, tasks, 0, n);
            lemma_group_deps_mono(groups, 0, n);
        }
        for e in 0..self.groups.len()
            invariant
                groups == self.groups@,
                tasks == self.tasks@,
                n == groups.len(),
                graph_fits(groups, tasks),
                task_node_views(graph) == expected_nodes(groups, tasks, e as int),
                task_nodes(graph).len() == base(groups, tasks, e as int),
                task_edges(graph).to_multiset() == entries_edges(groups, tasks, e as int).to_multiset(),
                edges_below(task_edges(graph), base(groups, tasks, e as int)),
                task_edges(graph).len() <= edge_budget(groups, tasks, e as int),
                first_missing(groups, tasks, e as int) is None,
                edge_budget(groups, tasks, n) <= index_limit(),
                index_view(group_to_index@) == group_index(groups, tasks, e as int),
                pairs_exist(tasks, pair_view(task_to_group@)),
        {
            let group = &self.groups[e];
            let ghost g = group.name@;
            let ghost ts = tasks_in(tasks, g);
            let ghost m = ts.len() as int;
            let ghost b = base(groups, tasks, e as int);
            let ghost e0 = task_edges(graph);
            let ghost s0 = index_view(task_to_index@);
            let ghost p0 = pair_view(task_to_group@);
            proof {
                lemma_base_mono(groups, tasks, e + 1, n);
                lemma_edge_budget_mono(groups, tasks, e + 1, n);
                lemma_deps_total_mono(ts, 0, m);
            }
            let (gs, ge) = add_entry_frame(&mut graph, &mut task_to_index, &mut task_to_group, &self.tasks, group);
            let ghost gi0 = index_view(group_to_index@);
            group_to_index.push((group.name.clone(), gs));
            assert(index_view(group_to_index@) =~= group_index(groups, tasks, e + 1)) by {
                assert(index_view(group_to_index@) =~= gi0.push((g, gs)));
            }
            match add_entry_deps(
                &mut graph,
                &task_to_index,
                &task_to_group,
                &self.tasks,
                group,
                gs,
                ge,
                Ghost(e0),
                Ghost(s0),
                Ghost(p0),
            ) {
                Ok(()) => {},
                Err(err) => {
                    proof {
                        assert(first_missing(groups, tasks, e + 1) is Some);
                        lemma_first_missing_mono(groups, tasks, e + 1, n);
                    }
                    return Err(err);
                },
            }
            proof {
                lemma_pairs_exist_grow(tasks, p0, g);
                vstd::seq_lib::lemma_multiset_commutative(entries_edges(groups, tasks, e as int), entry_edges(ts, b));
                assert(entries_edges(groups, tasks, e + 1) == entries_edges(groups, tasks, e as int) + entry_edges(ts, b));
                assert(task_node_views(graph) =~= expected_nodes(groups, tasks, e + 1));
            }
        }
        let ghost e1 = task_edges(graph);
        let ghost bn = base(groups, tasks, n);
        let ghost mut gseq: Seq<(usize, usize, u32)> = Seq::empty();
        assert(e1 + gseq =~= e1);
        for gi in 0..self.groups.len()
            invariant
                groups == self.groups@,
                tasks == self.tasks@,
                n == groups.len(),
                graph_fits(groups, tasks),
                bn == base(groups, tasks, n),
                task_node_views(graph) == expected_nodes(groups, tasks, n),
                task_nodes(graph).len() == bn,
                task_edges(graph) == e1 + gseq,
                gseq == group_edges(groups, tasks, gi as int),
                e1.len() <= edge_budget(groups, tasks, n),
                e1.len() + gseq.len() <= edge_budget(groups, tasks, n) + group_deps_total(groups, gi as int),
                edges_below(task_edges(graph), bn),
                index_view(group_to_index@) == group_index(groups, tasks, n),
        {
            let group = &self.groups[gi];
            proof {
                lemma_group_deps_mono(groups, gi + 1, n);
            }
            for di in 0..group.depends.len()
                invariant
                    groups == self.groups@,
                    tasks == self.tasks@,
                    n == groups.len(),
                    0 <= gi < n,
                    group == groups[gi as int],
                    graph_fits(groups, tasks),
                    bn == base(groups, tasks, n),
                    task_node_views(graph) == expected_nodes(groups, tasks, n),
                    task_nodes(graph).len() == bn,
                    task_edges(graph) == e1 + gseq,
                    gseq == group_edges(groups, tasks, gi as int) + group_dep_edges(groups, tasks, gi as int, di as int),
                    e1.len() + gseq.len() <= edge_budget(groups, tasks, n) + group_deps_total(groups, gi as int) + di,
                    group_deps_total(groups, gi + 1) <= group_deps_total(groups, n),
                    edges_below(task_edges(graph), bn),
                    index_view(group_to_index@) == group_index(groups, tasks, n),
            {
                let depend = &group.depends[di];
                let ghost x = depend@;
                let from = find_last(&group_to_index, depend);
                let to = find_last(&group_to_index, &group.name);
                proof {
                    lemma_lookup_group(groups, tasks, n, x);
                    lemma_lookup_group(groups, tasks, n, group.name@);
                    lemma_last_group_range(groups, n, x, 0);
                    lemma_last_group_range(groups, n, group.name@, gi as int);
                    assert(strings_view(group.depends@)[di as int] == x);
                }
                let ghost before = gseq;
                match (from, to) {
                    (Some(i1), Some(i2)) => {
                        proof {
                            lemma_base_mono(groups, tasks, last_group(groups, x), n);
                            lemma_base_mono(groups, tasks, last_group(groups, group.name@), n);
                        }
                        let src = i1 + 1;
                        let ghost old_edges = task_edges(graph);
                        tg_add_edge(&mut graph, src, i2, 1);
                        proof {
                            gseq = gseq.push((src, i2, 1u32));
                            assert forall|k: int| 0 <= k < task_edges(graph).len() implies (#[trigger] task_edges(graph)[k]).0 < bn
                                && task_edges(graph)[k].1 < bn && task_edges(graph)[k].2 == 1 by {
                                if k < old_edges.len() {
                                    assert(task_edges(graph)[k] == old_edges[k]);
                                }
                            }
                        }
                    },
                    _ => {},
                }
                assert(task_edges(graph) =~= e1 + gseq);
                assert(gseq =~= group_edges(groups, tasks, gi as int) + group_dep_edges(groups, tasks, gi as int, di + 1));
            }
            assert(gseq =~= group_edges(groups, tasks, gi + 1));
        }
        proof {
            vstd::seq_lib::lemma_multiset_commutative(e1, gseq);
            vstd::seq_lib::lemma_multiset_commutative(entries_edges(groups, tasks, n), group_edges(groups, tasks, n));
            assert(task_edges(graph).to_multiset() == expected_edges(groups, tasks).to_multiset());
            lemma_is_cyclic_same_multiset(task_edges(graph), expected_edges(groups, tasks), bn);
        }
        if tg_is_cyclic(&graph) {
            return Err(GraphError::Cycle);
        }
        Ok(graph)
    }
}

} // verus!

verus! {

/// Every edge of the entry with tasks `ts` and start `b` is an edge of
/// `big`.
pub open spec fn entry_in(big: Seq<(usize, usize, u32)>, ts: Seq<TaskView>, b: int) -> bool {
    forall|x: int, y: int| #[trigger] has_edge(entry_edges(ts, b), x, y) ==> has_edge(big, x, y)
}

proof fn lemma_has_edge_concat(a: Seq<(usize, usize, u32)>, c: Seq<(usize, usize, u32)>, x: int, y: int)
    ensures
        has_edge(a, x, y) ==> has_edge(a + c, x, y),
        has_edge(c, x, y) ==> has_edge(a + c, x, y),
{
    if has_edge(a, x, y) {
        let i = choose|i: int| 0 <= i < a.len() && (#[trigger] a[i]).0 == x && a[i].1 == y;
        assert((a + c)[i] == a[i]);
    }
    if has_edge(c, x, y) {
        let i = choose|i: int| 0 <= i < c.len() && (#[trigger] c[i]).0 == x && c[i].1 == y;
        assert((a + c)[a.len() + i] == c[i]);
    }
}

proof fn lemma_has_edge_push(a: Seq<(usize, usize, u32)>, e: (usize, usize, u32), x: int, y: int)
    ensures
        has_edge(a, x, y) ==> has_edge(a.push(e), x, y),
        has_edge(a.push(e), e.0 as int, e.1 as int),
{
    if has_edge(a, x, y) {
        let i = choose|i: int| 0 <= i < a.len() && (#[trigger] a[i]).0 == x && a[i].1 == y;
        assert(a.push(e)[i] == a[i]);
    }
    assert(a.push(e)[a.len() as int] == e);
}

proof fn lemma_task_dep_edge_in(ts: Seq<TaskView>, b: int, k: int, di: int, d: int)
    requires
        0 <= d < di,
    ensures
        has_edge(
            task_dep_edges(ts, b, k, di),
            dep_edge(ts, b, k, ts[k].4[d]).0 as int,
            dep_edge(ts, b, k, ts[k].4[d]).1 as int,
        ),
    decreases di,
{
    let e = dep_edge(ts, b, k, ts[k].4[d]);
    let prev = task_dep_edges(ts, b, k, di - 1);
    lemma_has_edge_push(prev, dep_edge(ts, b, k, ts[k].4[di - 1]), e.0 as int, e.1 as int);
    if d < di - 1 {
        lemma_task_dep_edge_in(ts, b, k, di - 1, d);
    }
}

proof fn lemma_dep_edge_in(ts: Seq<TaskView>, b: int, j: int, k: int, d: int)
    requires
        0 <= k < j,
        0 <= d < ts[k].4.len(),
    ensures
        has_edge(dep_edges(ts, b, j), dep_edge(ts, b, k, ts[k].4[d]).0 as int, dep_edge(ts, b, k, ts[k].4[d]).1 as int),
    decreases j,
{
    let e = dep_edge(ts, b, k, ts[k].4[d]);
    let prev = dep_edges(ts, b, j - 1);
    let last = task_dep_edges(ts, b, j - 1, ts[j - 1].4.len() as int);
    lemma_has_edge_concat(prev, last, e.0 as int, e.1 as int);
    if k == j - 1 {
        lemma_task_dep_edge_in(ts, b, k, ts[k].4.len() as int, d);
    } else {
        lemma_dep_edge_in(ts, b, j - 1, k, d);
    }
}

proof fn lemma_no_missing_dep(ts: Seq<TaskView>, k: int, di: int, d: int)
    requires
        missing_dep(ts, k, di) is None,
        0 <= d < di,
    ensures
        has_name(ts, ts[k].4[d]),
    decreases di,
{
    if d < di - 1 {
        lemma_no_missing_dep(ts, k, di - 1, d);
    }
}

proof fn lemma_no_missing(ts: Seq<TaskView>, j: int, k: int, d: int)
    requires
        missing_in(ts, j) is None,
        0 <= k < j,
        0 <= d < ts[k].4.len(),
    ensures
        has_name(ts, ts[k].4[d]),
    decreases j,
{
    if k < j - 1 {
        lemma_no_missing(ts, j - 1, k, d);
    } else {
        lemma_no_missing_dep(ts, k, ts[k].4.len() as int, d);
    }
}

/// The dependency edge that dependency `d` of task `k2` adds joins the
/// last tasks named by the dependency and by task `k2`.
proof fn lemma_dep_link(
    ts: Seq<TaskView>,
    b: int,
    big: Seq<(usize, usize, u32)>,
    k2: int,
    d: int,
) -> (r: (int, int))
    requires
        0 <= b,
        b + 2 + ts.len() <= index_limit(),
        0 <= k2 < ts.len(),
        0 <= d < ts[k2].4.len(),
        missing_in(ts, ts.len() as int) is None,
        entry_in(big, ts, b),
    ensures
        r.0 == last_of(ts, ts[k2].4[d]),
        r.1 == last_of(ts, ts[k2].0),
        0 <= r.0 < ts.len(),
        0 <= r.1 < ts.len(),
        ts[r.0].0 == ts[k2].4[d],
        ts[r.1].0 == ts[k2].0,
        has_edge(big, b + 2 + r.0, b + 2 + r.1),
{
    let m = ts.len() as int;
    let x = ts[k2].4[d];
    lemma_no_missing(ts, m, k2, d);
    lemma_last_of_range(ts, x);
    assert(has_name(ts, ts[k2].0)) by {
        assert(ts[k2].0 == ts[k2].0);
    }
    lemma_last_of_range(ts, ts[k2].0);
    lemma_dep_edge_in(ts, b, m, k2, d);
    let p = last_of(ts, x);
    let t = last_of(ts, ts[k2].0);
    assert(dep_edge(ts, b, k2, x).0 as int == b + 2 + p);
    assert(dep_edge(ts, b, k2, x).1 as int == b + 2 + t);
    lemma_has_edge_concat(frame_edges(ts, b, m, 0, m), dep_edges(ts, b, m), b + 2 + p, b + 2 + t);
    assert(has_edge(entry_edges(ts, b), b + 2 + p, b + 2 + t));
    (p, t)
}

} // verus!

verus! {

proof fn lemma_frame_edge_in(ts: Seq<TaskView>, b: int, big: Seq<(usize, usize, u32)>, y: (usize, usize, u32))
    requires
        0 <= b,
        b + 2 + ts.len() <= index_limit(),
        frame_count(ts, b, ts.len() as int, 0, ts.len() as int, y) > 0,
        entry_in(big, ts, b),
    ensures
        has_edge(big, y.0 as int, y.1 as int),
{
    let m = ts.len() as int;
    lemma_frame_count(ts, b, m, 0, m, y);
    lemma_count_has_edge(frame_edges(ts, b, m, 0, m), y);
    lemma_has_edge_concat(frame_edges(ts, b, m, 0, m), dep_edges(ts, b, m), y.0 as int, y.1 as int);
    assert(has_edge(entry_edges(ts, b), y.0 as int, y.1 as int));
}

/// Walking back from task `k` along dependency edges, either the start of
/// the entry is reached, or the walk goes on for `fuel` steps among the
/// entry's tasks.
proof fn lemma_start_chain(
    ts: Seq<TaskView>,
    b: int,
    big: Seq<(usize, usize, u32)>,
    k: int,
    fuel: nat,
) -> (path: Seq<int>)
    requires
        0 <= b,
        b + 2 + ts.len() <= index_limit(),
        0 <= k < ts.len(),
        missing_in(ts, ts.len() as int) is None,
        entry_in(big, ts, b),
    ensures
        reachable(big, b, b + 2 + k) || {
            &&& is_path(big, path)
            &&& path.len() == fuel + 1
            &&& path.last() == b + 2 + k
            &&& forall|i: int| 0 <= i < path.len() ==> b + 2 <= #[trigger] path[i] < b + 2 + ts.len()
        },
    decreases fuel,
{
    let m = ts.len() as int;
    if !start_removed(ts, m, 0, k) {
        let y = (b as usize, (b + 2 + k) as usize, 1u32);
        assert(frame_count(ts, b, m, 0, m, y) == 1);
        lemma_frame_edge_in(ts, b, big, y);
        lemma_edge_reachable(big, b, b + 2 + k);
        return seq![b + 2 + k];
    }
    let single = seq![b + 2 + k];
    assert(is_path(big, single));
    if fuel == 0 {
        return single;
    }
    let k2 = choose|k2: int|
        0 <= k2 < ts.len() && #[trigger] ts[k2].0 == ts[k].0 && (k2 < m && ts[k2].4.len() > 0 || k2 == m && 0 > 0);
    let (p, t) = lemma_dep_link(ts, b, big, k2, 0);
    assert(t == k);
    let rec = lemma_start_chain(ts, b, big, p, (fuel - 1) as nat);
    if reachable(big, b, b + 2 + p) {
        lemma_edge_reachable(big, b + 2 + p, b + 2 + k);
        lemma_reachable_trans(big, b, b + 2 + p, b + 2 + k);
        return rec;
    }
    let path = rec.push(b + 2 + k);
    assert forall|i: int| #![trigger path[i]] 0 <= i < path.len() - 1 implies has_edge(big, path[i], path[i + 1]) by {
        if i < rec.len() - 1 {
            assert(path[i] == rec[i] && path[i + 1] == rec[i + 1]);
            assert(has_edge(big, rec[i], rec[i + 1]));
        } else {
            assert(path[i] == rec.last());
        }
    }
    assert forall|i: int| 0 <= i < path.len() implies b + 2 <= #[trigger] path[i] < b + 2 + ts.len() by {
        if i < rec.len() {
            assert(path[i] == rec[i]);
        }
    }
    path
}

/// Walking forward from task `k` along dependency edges, either the end of
/// the entry is reached, or the walk goes on for `fuel` steps among the
/// entry's tasks.
proof fn lemma_end_chain(
    ts: Seq<TaskView>,
    b: int,
    big: Seq<(usize, usize, u32)>,
    k: int,
    fuel: nat,
) -> (path: Seq<int>)
    requires
        0 <= b,
        b + 2 + ts.len() <= index_limit(),
        0 <= k < ts.len(),
        missing_in(ts, ts.len() as int) is None,
        entry_in(big, ts, b),
    ensures
        reachable(big, b + 2 + k, b + 1) || {
            &&& is_path(big, path)
            &&& path.len() == fuel + 1
            &&& path[0] == b + 2 + k
            &&& forall|i: int| 0 <= i < path.len() ==> b + 2 <= #[trigger] path[i] < b + 2 + ts.len()
        },
    decreases fuel,
{
    let m = ts.len() as int;
    if !end_removed(ts, m, 0, k) {
        let y = ((b + 2 + k) as usize, (b + 1) as usize, 1u32);
        assert(frame_count(ts, b, m, 0, m, y) == 1);
        lemma_frame_edge_in(ts, b, big, y);
        lemma_edge_reachable(big, b + 2 + k, b + 1);
        return seq![b + 2 + k];
    }
    let single = seq![b + 2 + k];
    assert(is_path(big, single));
    if fuel == 0 {
        return single;
    }
    let (k2, d) = choose|k2: int, d: int|
        0 <= k2 <= m && 0 <= d < ts[k2].4.len() && (k2 < m || d < 0) && #[trigger] ts[k2].4[d] == ts[k].0;
    let (p, t) = lemma_dep_link(ts, b, big, k2, d);
    assert(p == k);
    let rec = lemma_end_chain(ts, b, big, t, (fuel - 1) as nat);
    if reachable(big, b + 2 + t, b + 1) {
        lemma_edge_reachable(big, b + 2 + k, b + 2 + t);
        lemma_reachable_trans(big, b + 2 + k, b + 2 + t, b + 1);
        return rec;
    }
    let path = seq![b + 2 + k] + rec;
    assert forall|i: int| #![trigger path[i]] 0 <= i < path.len() - 1 implies has_edge(big, path[i], path[i + 1]) by {
        if i == 0 {
            assert(path[1] == rec[0]);
        } else {
            assert(path[i] == rec[i - 1] && path[i + 1] == rec[i]);
            assert(has_edge(big, rec[i - 1], rec[i]));
        }
    }
    assert forall|i: int| 0 <= i < path.len() implies b + 2 <= #[trigger] path[i] < b + 2 + ts.len() by {
        if i > 0 {
            assert(path[i] == rec[i - 1]);
        }
    }
    path
}

/// In an entry whose edges lie in an acyclic graph, the start reaches every
/// task and every task reaches the end.
proof fn lemma_entry_between(ts: Seq<TaskView>, b: int, big: Seq<(usize, usize, u32)>, n: int, k: int)
    requires
        0 <= b,
        b + 2 + ts.len() <= index_limit(),
        b + 2 + ts.len() <= n,
        0 <= k < ts.len(),
        missing_in(ts, ts.len() as int) is None,
        entry_in(big, ts, b),
        !is_cyclic(big, n),
    ensures
        reachable(big, b, b + 2 + k),
        reachable(big, b + 2 + k, b + 1),
{
    let m = ts.len() as int;
    let p = lemma_start_chain(ts, b, big, k, m as nat);
    if !reachable(big, b, b + 2 + k) {
        let (i, j) = lemma_pigeonhole(p, b + 2, b + 2 + m);
        lemma_repeat_cycle(big, p, i, j);
        assert(0 <= p[i] < n);
        assert(is_cyclic(big, n));
    }
    let q = lemma_end_chain(ts, b, big, k, m as nat);
    if !reachable(big, b + 2 + k, b + 1) {
        let (i, j) = lemma_pigeonhole(q, b + 2, b + 2 + m);
        lemma_repeat_cycle(big, q, i, j);
        assert(0 <= q[i] < n);
        assert(is_cyclic(big, n));
    }
}

} // verus!

verus! {

proof fn lemma_entry_in_entries(groups: Seq<Group>, tasks: Seq<Task>, e: int, j: int, x: int, y: int)
    requires
        0 <= e < j,
        has_edge(entry_edges(tasks_in(tasks, groups[e].name@), base(groups, tasks, e)), x, y),
    ensures
        has_edge(entries_edges(groups, tasks, j), x, y),
    decreases j,
{
    let prev = entries_edges(groups, tasks, j - 1);
    let last = entry_edges(tasks_in(tasks, groups[j - 1].name@), base(groups, tasks, j - 1));
    lemma_has_edge_concat(prev, last, x, y);
    if e < j - 1 {
        lemma_entry_in_entries(groups, tasks, e, j - 1, x, y);
    }
}

/// In the graph of an Engage file that has no dependency outside a group and
/// no cycle, each task comes after the start of its group entry and before
/// its end: the start reaches the task, and the task reaches the end.
pub proof fn lemma_tasks_between_group_ends(groups: Seq<Group>, tasks: Seq<Task>, e: int, k: int)
    requires
        graph_fits(groups, tasks),
        0 <= e < groups.len(),
        0 <= k < tasks_in(tasks, groups[e].name@).len(),
        first_missing(groups, tasks, groups.len() as int) is None,
        !is_cyclic(expected_edges(groups, tasks), base(groups, tasks, groups.len() as int)),
    ensures
        reachable(expected_edges(groups, tasks), base(groups, tasks, e), base(groups, tasks, e) + 2 + k),
        reachable(expected_edges(groups, tasks), base(groups, tasks, e) + 2 + k, base(groups, tasks, e) + 1),
{
    let n = groups.len() as int;
    let ts = tasks_in(tasks, groups[e].name@);
    let b = base(groups, tasks, e);
    let big = expected_edges(groups, tasks);
    if first_missing(groups, tasks, e + 1) is Some {
        lemma_first_missing_mono(groups, tasks, e + 1, n);
    }
    if first_missing(groups, tasks, e) is Some {
        lemma_first_missing_mono(groups, tasks, e, e + 1);
    }
    assert(missing_in(ts, ts.len() as int) is None);
    lemma_base_mono(groups, tasks, e + 1, n);
    lemma_base_nonneg(groups, tasks, e);
    assert forall|x: int, y: int| #[trigger] has_edge(entry_edges(ts, b), x, y) implies has_edge(big, x, y) by {
        lemma_entry_in_entries(groups, tasks, e, n, x, y);
        lemma_has_edge_concat(entries_edges(groups, tasks, n), group_edges(groups, tasks, n), x, y);
    }
    lemma_entry_between(ts, b, big, base(groups, tasks, n), k);
}

} // verus!

verus! {

/// In the graph of an Engage file with no dependency outside a group, a
/// task comes right after each task it depends on: there is an edge from
/// the (last) task of the dependency's name to the (last) task of its own
/// name.
pub proof fn lemma_task_dependency_edge(groups: Seq<Group>, tasks: Seq<Task>, e: int, k: int, d: int)
    requires
        graph_fits(groups, tasks),
        0 <= e < groups.len(),
        0 <= k < tasks_in(tasks, groups[e].name@).len(),
        0 <= d < tasks_in(tasks, groups[e].name@)[k].4.len(),
        first_missing(groups, tasks, groups.len() as int) is None,
    ensures
        ({
            let ts = tasks_in(tasks, groups[e].name@);
            let b = base(groups, tasks, e);
            has_edge(expected_edges(groups, tasks), b + 2 + last_of(ts, ts[k].4[d]), b + 2 + last_of(ts, ts[k].0))
        }),
{
    let n = groups.len() as int;
    let ts = tasks_in(tasks, groups[e].name@);
    let b = base(groups, tasks, e);
    let big = expected_edges(groups, tasks);
    if first_missing(groups, tasks, e + 1) is Some {
        lemma_first_missing_mono(groups, tasks, e + 1, n);
    }
    if first_missing(groups, tasks, e) is Some {
        lemma_first_missing_mono(groups, tasks, e, e + 1);
    }
    lemma_base_mono(groups, tasks, e + 1, n);
    lemma_base_nonneg(groups, tasks, e);
    assert forall|x: int, y: int| #[trigger] has_edge(entry_edges(ts, b), x, y) implies has_edge(big, x, y) by {
        lemma_entry_in_entries(groups, tasks, e, n, x, y);
        lemma_has_edge_concat(entries_edges(groups, tasks, n), group_edges(groups, tasks, n), x, y);
    }
    lemma_dep_link(ts, b, big, k, d);
}

proof fn lemma_group_dep_edge_in(groups: Seq<Group>, tasks: Seq<Task>, gi: int, di: int, d: int)
    requires
        0 <= d < di,
        last_group(groups, groups[gi].depends@[d]@) >= 0,
    ensures
        has_edge(
            group_dep_edges(groups, tasks, gi, di),
            ((base(groups, tasks, last_group(groups, groups[gi].depends@[d]@)) + 1) as usize) as int,
            (base(groups, tasks, last_group(groups, groups[gi].name@)) as usize) as int,
        ),
    decreases di,
{
    let prev = group_dep_edges(groups, tasks, gi, di - 1);
    let x = groups[gi].depends@[di - 1]@;
    let from = last_group(groups, x);
    let edge = (
        (base(groups, tasks, from) + 1) as usize,
        base(groups, tasks, last_group(groups, groups[gi].name@)) as usize,
        1u32,
    );
    let target = (
        ((base(groups, tasks, last_group(groups, groups[gi].depends@[d]@)) + 1) as usize) as int,
        (base(groups, tasks, last_group(groups, groups[gi].name@)) as usize) as int,
    );
    lemma_has_edge_push(prev, edge, target.0, target.1);
    if d < di - 1 {
        lemma_group_dep_edge_in(groups, tasks, gi, di - 1, d);
    }
}

proof fn lemma_group_edge_in(groups: Seq<Group>, tasks: Seq<Task>, j: int, gi: int, d: int)
    requires
        0 <= gi < j,
        0 <= d < groups[gi].depends@.len(),
        last_group(groups, groups[gi].depends@[d]@) >= 0,
    ensures
        has_edge(
            group_edges(groups, tasks, j),
            ((base(groups, tasks, last_group(groups, groups[gi].depends@[d]@)) + 1) as usize) as int,
            (base(groups, tasks, last_group(groups, groups[gi].name@)) as usize) as int,
        ),
    decreases j,
{
    let prev = group_edges(groups, tasks, j - 1);
    let last = group_dep_edges(groups, tasks, j - 1, groups[j - 1].depends@.len() as int);
    let x = ((base(groups, tasks, last_group(groups, groups[gi].depends@[d]@)) + 1) as usize) as int;
    let y = (base(groups, tasks, last_group(groups, groups[gi].name@)) as usize) as int;
    lemma_has_edge_concat(prev, last, x, y);
    if gi == j - 1 {
        lemma_group_dep_edge_in(groups, tasks, gi, groups[gi].depends@.len() as int, d);
    } else {
        lemma_group_edge_in(groups, tasks, j - 1, gi, d);
    }
}

/// A group that depends on another group that has an entry starts after
/// that group ends: there is an edge from the end of the other group's last
/// entry to the start of this group's last entry.
pub proof fn lemma_group_dependency_edge(groups: Seq<Group>, tasks: Seq<Task>, gi: int, d: int)
    requires
        graph_fits(groups, tasks),
        0 <= gi < groups.len(),
        0 <= d < groups[gi].depends@.len(),
        last_group(groups, groups[gi].depends@[d]@) >= 0,
    ensures
        has_edge(
            expected_edges(groups, tasks),
            base(groups, tasks, last_group(groups, groups[gi].depends@[d]@)) + 1,
            base(groups, tasks, last_group(groups, groups[gi].name@)),
        ),
{
    let n = groups.len() as int;
    let from = last_group(groups, groups[gi].depends@[d]@);
    let to = last_group(groups, groups[gi].name@);
    lemma_last_group_range(groups, n, groups[gi].depends@[d]@, 0);
    lemma_last_group_range(groups, n, groups[gi].name@, gi);
    lemma_base_mono(groups, tasks, from, n);
    lemma_base_mono(groups, tasks, to, n);
    lemma_group_edge_in(groups, tasks, n, gi, d);
    lemma_has_edge_concat(
        entries_edges(groups, tasks, n),
        group_edges(groups, tasks, n),
        base(groups, tasks, from) + 1,
        base(groups, tasks, to),
    );
}

} // verus!
