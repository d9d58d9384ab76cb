//! Error messages.

use vstd::prelude::*;

use crate::graph::EdgeKind;
use crate::error::ValidateName;
use crate::name::{names_view, Name};
use crate::report::join;
use crate::text::{decimal, push_decimal, push_str};

verus! {

/// A name between backticks.
pub open spec fn quoted(n: Seq<char>) -> Seq<char> {
    "`"@ + n + "`"@
}

fn push_quoted(s: &mut String, n: &Name)
    ensures
        final(s)@ == old(s)@ + quoted(n@),
{
    let ghost s0 = s@;
    push_str(s, "`");
    push_str(s, n.as_str());
    push_str(s, "`");
    assert(s@ =~= s0 + quoted(n@));
}

/// The name of the list that creates edges of kind `k`.
pub open spec fn list_name(k: EdgeKind) -> Seq<char> {
    match k {
        EdgeKind::Before => "before"@,
        EdgeKind::After => "after"@,
    }
}

/// How the `j`-th of `n` names is written in a cycle message: the last one
/// of two or more after "and ", a name followed by a space when there are
/// exactly two, otherwise by a comma.
pub open spec fn cycle_item(name: Seq<char>, j: int, n: int) -> Seq<char> {
    let is_last = j + 1 == n;
    if is_last && n >= 2 {
        "and "@ + quoted(name)
    } else if is_last {
        quoted(name)
    } else if n == 2 {
        quoted(name) + " "@
    } else {
        quoted(name) + ", "@
    }
}

/// The first `k` items of a cycle message over `names`.
pub open spec fn cycle_items(names: Seq<Seq<char>>, k: int) -> Seq<char>
    decreases k,
{
    if k <= 0 {
        Seq::empty()
    } else {
        cycle_items(names, k - 1) + cycle_item(names[k - 1], k - 1, names.len() as int)
    }
}

/// The names of `names`, each between backticks.
pub open spec fn quoted_all(names: Seq<Seq<char>>) -> Seq<Seq<char>> {
    names.map_values(|n: Seq<char>| quoted(n))
}

proof fn lemma_cycle_items_prefix(names: Seq<Seq<char>>, k: int)
    requires
        names.len() >= 3,
        1 <= k < names.len(),
    ensures
        cycle_items(names, k) == join(quoted_all(names).take(k), ", "@) + ", "@,
    decreases k,
{
    let qs = quoted_all(names);
    assert(cycle_items(names, 0) == Seq::<char>::empty());
    if k == 1 {
        assert(qs.take(1) =~= seq![qs[0]]);
        assert(join(qs.take(1), ", "@) == qs[0]);
        assert(cycle_items(names, 1) =~= join(qs.take(1), ", "@) + ", "@);
    } else {
        lemma_cycle_items_prefix(names, k - 1);
        assert(qs.take(k).drop_last() =~= qs.take(k - 1));
        assert(qs.take(k).last() == qs[k - 1]);
        assert(cycle_items(names, k) =~= join(qs.take(k), ", "@) + ", "@);
    }
}

/// A cycle message names every process of the cycle, in order, between
/// backticks: one process "depends on itself"; two are joined by "and";
/// more are separated by commas, with "and" before the last.
pub proof fn lemma_cycle_message(names: Seq<Seq<char>>)
    requires
        names.len() >= 1,
    ensures
        names.len() == 1 ==> cycle_message(names) == quoted(names[0]) + " depends on itself"@,
        names.len() == 2 ==> cycle_message(names) == "the dependencies between "@ + quoted(names[0]) + " and "@ + quoted(
            names[1],
        ) + " form a cycle"@,
        names.len() >= 3 ==> cycle_message(names) == "the dependencies between "@ + join(
            quoted_all(names).drop_last(),
            ", "@,
        ) + ", and "@ + quoted(names.last()) + " form a cycle"@,
{
    let n = names.len() as int;
    reveal_strlit(" ");
    reveal_strlit("and ");
    reveal_strlit(" and ");
    reveal_strlit(", ");
    reveal_strlit(", and ");
    assert(cycle_items(names, 0) == Seq::<char>::empty());
    if n == 2 {
        assert(cycle_items(names, 1) == cycle_items(names, 0) + cycle_item(names[0], 0, 2));
        assert(cycle_items(names, 2) == cycle_items(names, 1) + cycle_item(names[1], 1, 2));
        assert(cycle_items(names, 2) =~= quoted(names[0]) + " and "@ + quoted(names[1]));
    } else if n >= 3 {
        let qs = quoted_all(names);
        lemma_cycle_items_prefix(names, n - 1);
        assert(qs.take(n - 1) =~= qs.drop_last());
        assert(names[n - 1] == names.last());
        assert(cycle_items(names, n) == cycle_items(names, n - 1) + cycle_item(names[n - 1], n - 1, n));
        assert(cycle_items(names, n) =~= join(qs.drop_last(), ", "@) + ", and "@ + quoted(names.last()));
    }
}

/// The message for a dependency cycle among the processes `names`.
pub open spec fn cycle_message(names: Seq<Seq<char>>) -> Seq<char> {
    if names.len() == 1 {
        quoted(names[0]) + " depends on itself"@
    } else {
        "the dependencies between "@ + cycle_items(names, names.len() as int) + " form a cycle"@
    }
}

/// Describe a dependency cycle: "`a` depends on itself", or "the
/// dependencies between `a`, `b`, and `c` form a cycle".
pub fn fmt_cycle(scc: &Vec<Name>) -> (r: String)
    ensures
        r@ == cycle_message(names_view(scc@)),
{
    let ghost ns = names_view(scc@);
    let mut s = String::new();
    if scc.len() == 1 {
        push_quoted(&mut s, &scc[0]);
        push_str(&mut s, " depends on itself");
        assert(s@ =~= cycle_message(ns));
        return s;
    }
    push_str(&mut s, "the dependencies between ");
    let n = scc.len();
    for i in 0..n
        invariant
            n == scc@.len(),
            ns == names_view(scc@),
            n != 1,
            s@ == "the dependencies between "@ + cycle_items(ns, i as int),
    {
        let ghost s0 = s@;
        let is_last = i + 1 == n;
        if is_last && n >= 2 {
            push_str(&mut s, "and ");
            push_quoted(&mut s, &scc[i]);
        } else if is_last {
            push_quoted(&mut s, &scc[i]);
        } else if n == 2 {
            push_quoted(&mut s, &scc[i]);
            push_str(&mut s, " ");
        } else {
            push_quoted(&mut s, &scc[i]);
            push_str(&mut s, ", ");
        }
        assert(ns[i as int] == scc@[i as int]@);
        assert(s@ =~= s0 + cycle_item(ns[i as int], i as int, n as int));
    }
    push_str(&mut s, " form a cycle");
    assert(s@ =~= cycle_message(ns));
    s
}

/// The message for a dependency that names no process.
pub open spec fn dependency_not_found_message(process: Seq<char>, dependency: Seq<char>, k: EdgeKind) -> Seq<char> {
    quoted(process) + " contains "@ + quoted(dependency) + " in its \""@ + list_name(k)
        + "\" list but the latter does not exist"@
}

/// Describe a dependency that names no process.
pub fn fmt_dependency_not_found(process: &Name, dependency: &Name, edge_kind: EdgeKind) -> (r: String)
    ensures
        r@ == dependency_not_found_message(process@, dependency@, edge_kind),
{
    let mut s = String::new();
    push_quoted(&mut s, process);
    push_str(&mut s, " contains ");
    push_quoted(&mut s, dependency);
    push_str(&mut s, " in its \"");
    push_str(&mut s, edge_kind.list_name());
    push_str(&mut s, "\" list but the latter does not exist");
    assert(s@ =~= dependency_not_found_message(process@, dependency@, edge_kind));
    s
}

/// The message for a dependency outside the process that this process is
/// part of.
pub open spec fn dependency_not_part_of_message(
    process: Seq<char>,
    process_part_of: Seq<char>,
    dependency: Seq<char>,
    dependency_part_of: Option<Seq<char>>,
    k: EdgeKind,
) -> Seq<char> {
    quoted(process) + " is part of "@ + quoted(process_part_of) + " and contains "@ + quoted(dependency)
        + " in its \""@ + list_name(k) + "\" list, but "@ + quoted(dependency) + " is "@ + match dependency_part_of {
        Some(x) => "part of "@ + quoted(x),
        None => "not"@,
    }
}

/// Describe a dependency that is not part of the same process as `process`,
/// which is part of `process_part_of`.
pub fn fmt_dependency_not_part_of(
    process: &Name,
    process_part_of: &Name,
    dependency: &Name,
    dependency_part_of: Option<&Name>,
    edge_kind: EdgeKind,
) -> (r: String)
    ensures
        r@ == dependency_not_part_of_message(
            process@,
            process_part_of@,
            dependency@,
            match dependency_part_of {
                Some(x) => Some(x@),
                None => None,
            },
            edge_kind,
        ),
{
    let mut s = String::new();
    push_quoted(&mut s, process);
    push_str(&mut s, " is part of ");
    push_quoted(&mut s, process_part_of);
    push_str(&mut s, " and contains ");
    push_quoted(&mut s, dependency);
    push_str(&mut s, " in its \"");
    push_str(&mut s, edge_kind.list_name());
    push_str(&mut s, "\" list, but ");
    push_quoted(&mut s, dependency);
    push_str(&mut s, " is ");
    let ghost s0 = s@;
    match dependency_part_of {
        Some(x) => {
            push_str(&mut s, "part of ");
            push_quoted(&mut s, x);
            assert(s@ =~= s0 + ("part of "@ + quoted(x@)));
        },
        None => {
            push_str(&mut s, "not");
        },
    }
    assert(s@ =~= dependency_not_part_of_message(
        process@,
        process_part_of@,
        dependency@,
        match dependency_part_of {
            Some(x) => Some(x@),
            None => None,
        },
        edge_kind,
    ));
    s
}

/// The message for a process that is not part of the process its dependency
/// is part of.
pub open spec fn process_not_part_of_message(
    process: Seq<char>,
    process_part_of: Option<Seq<char>>,
    dependency: Seq<char>,
    dependency_part_of: Seq<char>,
    k: EdgeKind,
) -> Seq<char> {
    quoted(process) + " is "@ + match process_part_of {
        Some(x) => "part of "@ + quoted(x),
        None => "not part of another process"@,
    } + " and contains "@ + quoted(dependency) + " in its \""@ + list_name(k) + "\" list, but "@ + quoted(dependency)
        + " is part of "@ + quoted(dependency_part_of)
}

/// Describe a process that is not part of the process that its dependency,
/// part of `dependency_part_of`, is part of.
pub fn fmt_process_not_part_of(
    process: &Name,
    process_part_of: Option<&Name>,
    dependency: &Name,
    dependency_part_of: &Name,
    edge_kind: EdgeKind,
) -> (r: String)
    ensures
        r@ == process_not_part_of_message(
            process@,
            match process_part_of {
                Some(x) => Some(x@),
                None => None,
            },
            dependency@,
            dependency_part_of@,
            edge_kind,
        ),
{
    let mut s = String::new();
    push_quoted(&mut s, process);
    push_str(&mut s, " is ");
    let ghost s0 = s@;
    match process_part_of {
        Some(x) => {
            push_str(&mut s, "part of ");
            push_quoted(&mut s, x);
            assert(s@ =~= s0 + ("part of "@ + quoted(x@)));
        },
        None => {
            push_str(&mut s, "not part of another process");
        },
    }
    push_str(&mut s, " and contains ");
    push_quoted(&mut s, dependency);
    push_str(&mut s, " in its \"");
    push_str(&mut s, edge_kind.list_name());
    push_str(&mut s, "\" list, but ");
    push_quoted(&mut s, dependency);
    push_str(&mut s, " is part of ");
    push_quoted(&mut s, dependency_part_of);
    assert(s@ =~= process_not_part_of_message(
        process@,
        match process_part_of {
            Some(x) => Some(x@),
            None => None,
        },
        dependency@,
        dependency_part_of@,
        edge_kind,
    ));
    s
}

/// The message for a run in which `n` processes failed.
pub open spec fn run_graph_message(n: nat) -> Seq<char> {
    if n == 1 {
        "failed to run 1 process"@
    } else {
        "failed to run "@ + decimal(n) + " processes"@
    }
}

/// Describe a run in which `n` processes failed.
pub fn fmt_run_graph(n: usize) -> (r: String)
    ensures
        r@ == run_graph_message(n as nat),
{
    let mut s = String::new();
    if n == 1 {
        push_str(&mut s, "failed to run 1 process");
    } else {
        push_str(&mut s, "failed to run ");
        push_decimal(&mut s, n as u64);
        push_str(&mut s, " processes");
    }
    assert(s@ =~= run_graph_message(n as nat));
    s
}

/// The message for a requested process that does not exist.
pub open spec fn process_not_found_message(name: Seq<char>) -> Seq<char> {
    "the process "@ + quoted(name) + " was not found"@
}

/// Describe a requested process that does not exist.
pub fn fmt_process_not_found(name: &Name) -> (r: String)
    ensures
        r@ == process_not_found_message(name@),
{
    let mut s = String::new();
    push_str(&mut s, "the process ");
    push_quoted(&mut s, name);
    push_str(&mut s, " was not found");
    assert(s@ =~= process_not_found_message(name@));
    s
}

/// The message for a process whose command is empty.
pub open spec fn empty_command_message(name: Seq<char>) -> Seq<char> {
    quoted(name) + "'s value for the \"command\" key is an empty list which is not allowed"@
}

/// Describe a process whose command is empty.
pub fn fmt_empty_command(name: &Name) -> (r: String)
    ensures
        r@ == empty_command_message(name@),
{
    let mut s = String::new();
    push_quoted(&mut s, name);
    push_str(&mut s, "'s value for the \"command\" key is an empty list which is not allowed");
    assert(s@ =~= empty_command_message(name@));
    s
}

} // verus!

verus! {

/// The characters that `char::escape_debug` yields for `c`.
pub uninterp spec fn escaped(c: char) -> Seq<char>;

/// Calls `char::escape_debug`: the escaped form of `c`, as `{:?}` writes it
/// inside quotes. Which characters are escaped, and how, is left to std and
/// named by [`escaped`].
#[verifier::external_body]
fn escape_debug(c: char) -> (r: String)
    ensures
        r@ == escaped(c),
{
    c.escape_debug().to_string()
}

/// The message for a string that is not a valid name.
pub open spec fn validate_name_message(e: ValidateName) -> Seq<char> {
    match e {
        ValidateName::Empty => "empty string is not a valid name"@,
        ValidateName::InvalidStart(c) => "'"@ + escaped(c) + "' is not allowed to be the first character of a name"@,
        ValidateName::InvalidContinue(i, c) => "'"@ + escaped(c) + "' at byte "@ + decimal(i as nat)
            + " is not allowed in a name"@,
    }
}

/// Describe why a string is not a valid name.
pub fn fmt_validate_name(e: ValidateName) -> (r: String)
    ensures
        r@ == validate_name_message(e),
{
    let mut s = String::new();
    match e {
        ValidateName::Empty => {
            push_str(&mut s, "empty string is not a valid name");
        },
        ValidateName::InvalidStart(c) => {
            push_str(&mut s, "'");
            let x = escape_debug(c);
            push_str(&mut s, x.as_str());
            push_str(&mut s, "' is not allowed to be the first character of a name");
        },
        ValidateName::InvalidContinue(i, c) => {
            push_str(&mut s, "'");
            let x = escape_debug(c);
            push_str(&mut s, x.as_str());
            push_str(&mut s, "' at byte ");
            push_decimal(&mut s, i as u64);
            push_str(&mut s, " is not allowed in a name");
        },
    }
    assert(s@ =~= validate_name_message(e));
    s
}

/// The characters that `str::escape_debug` yields for a string.
pub uninterp spec fn escaped_str(s: Seq<char>) -> Seq<char>;

/// Calls `str::escape_debug`: the escaped form of `s`, as `{:?}` writes it
/// inside quotes. Which characters are escaped, and how, is left to std and
/// named by [`escaped_str`].
#[verifier::external_body]
fn escape_debug_str(s: &str) -> (r: String)
    ensures
        r@ == escaped_str(s@),
{
    s.escape_debug().to_string()
}

/// The message for a directory that could not be read.
pub open spec fn read_dir_message(dir: Seq<char>) -> Seq<char> {
    "failed to read directory '"@ + dir + "'"@
}

/// Describe a directory, written as `dir`, that could not be read.
pub fn fmt_read_dir(dir: &str) -> (r: String)
    ensures
        r@ == read_dir_message(dir@),
{
    let mut s = String::new();
    push_str(&mut s, "failed to read directory '");
    push_str(&mut s, dir);
    push_str(&mut s, "'");
    assert(s@ =~= read_dir_message(dir@));
    s
}

/// The message for a directory whose next entry could not be read.
pub open spec fn next_entry_message(dir: Seq<char>) -> Seq<char> {
    "failed to get next entry in directory '"@ + dir + "'"@
}

/// Describe a directory, written as `dir`, whose next entry could not be read.
pub fn fmt_next_entry(dir: &str) -> (r: String)
    ensures
        r@ == next_entry_message(dir@),
{
    let mut s = String::new();
    push_str(&mut s, "failed to get next entry in directory '");
    push_str(&mut s, dir);
    push_str(&mut s, "'");
    assert(s@ =~= next_entry_message(dir@));
    s
}

/// The message for a program that could not be started.
pub open spec fn spawn_message(program: Seq<char>) -> Seq<char> {
    "failed to spawn a process for the program \""@ + escaped_str(program) + "\""@
}

/// Describe a program that could not be started; the program is written
/// escaped, between double quotes.
pub fn fmt_spawn(program: &str) -> (r: String)
    ensures
        r@ == spawn_message(program@),
{
    let mut s = String::new();
    push_str(&mut s, "failed to spawn a process for the program \"");
    let x = escape_debug_str(program);
    push_str(&mut s, x.as_str());
    push_str(&mut s, "\"");
    assert(s@ =~= spawn_message(program@));
    s
}

/// The message for a process that exited unsuccessfully with `status`,
/// after a request to stop where `cancelled`.
pub open spec fn exited_message(status: Seq<char>, cancelled: bool) -> Seq<char> {
    if cancelled {
        "process exited due to cancellation unsuccessfully via "@ + status
    } else {
        "process exited unsuccessfully via "@ + status
    }
}

/// Describe a process that exited unsuccessfully, its exit status written as
/// `status`.
pub fn fmt_exited(status: &str, cancelled: bool) -> (r: String)
    ensures
        r@ == exited_message(status@, cancelled),
{
    let mut s = String::new();
    if cancelled {
        push_str(&mut s, "process exited due to cancellation unsuccessfully via ");
    } else {
        push_str(&mut s, "process exited unsuccessfully via ");
    }
    push_str(&mut s, status);
    assert(s@ =~= exited_message(status@, cancelled));
    s
}

/// The message for a process that failed.
pub open spec fn process_failed_message(name: Seq<char>) -> Seq<char> {
    "failed to run "@ + quoted(name)
}

/// Describe a process that failed.
pub fn fmt_process_failed(name: &Name) -> (r: String)
    ensures
        r@ == process_failed_message(name@),
{
    let mut s = String::new();
    push_str(&mut s, "failed to run ");
    push_quoted(&mut s, name);
    assert(s@ =~= process_failed_message(name@));
    s
}

/// The message for an Engage file, named `file_name`, that was not found.
pub open spec fn file_not_found_message(file_name: Seq<char>) -> Seq<char> {
    file_name + " not found in the current directory or its ancestors"@
}

/// Describe an Engage file, named `file_name`, that was not found.
pub fn fmt_file_not_found(file_name: &str) -> (r: String)
    ensures
        r@ == file_not_found_message(file_name@),
{
    let mut s = String::new();
    push_str(&mut s, file_name);
    push_str(&mut s, " not found in the current directory or its ancestors");
    assert(s@ =~= file_not_found_message(file_name@));
    s
}

/// The message for a process defined twice.
pub open spec fn duplicate_process_message(name: Seq<char>) -> Seq<char> {
    "duplicate process "@ + quoted(name)
}

/// Describe a process defined twice.
pub fn fmt_duplicate_process(name: &Name) -> (r: String)
    ensures
        r@ == duplicate_process_message(name@),
{
    let mut s = String::new();
    push_str(&mut s, "duplicate process ");
    push_quoted(&mut s, name);
    assert(s@ =~= duplicate_process_message(name@));
    s
}

} // verus!
