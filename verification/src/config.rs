//! Configuration: the content of an Engage file.

use vstd::prelude::*;

use crate::engage::strings_view;
use crate::error::FileError;
use crate::graph::named_views;
use crate::listing::{names_sorted, sorted_order, sorts};
use crate::name::{clone_names, names_view, Name, Named};
use crate::semver::{compatible, compatible_spec, semver_parse, Version};

verus! {

/// The default file name, `engage.toml`.
pub fn default_file_name() -> (r: &'static str)
    ensures
        r@ == "engage.toml"@,
{
    "engage.toml"
}

/// The version of the configuration format, `0.0.0-dev`, as `semver` reads
/// that text; `None` where it refuses it.
pub fn format_version() -> (r: Option<Version>)
    ensures
        r is Some <==> semver_parse("0.0.0-dev"@) is Some,
        r matches Some(v) ==> semver_parse("0.0.0-dev"@) == Some(v@),
{
    match Version::parse("0.0.0-dev") {
        Ok(v) => Some(v),
        Err(_) => None,
    }
}

/// The configuration file asks for a version of the format that this one is
/// not compatible with: the requested version and this one.
pub struct VersionsIncompatible(pub Version, pub Version);

/// Check the version that a configuration file asks for against the version
/// of the configuration format.
pub fn check_version(requested: Version, current: Version) -> (r: Result<(), VersionsIncompatible>)
    ensures
        r is Ok <==> compatible_spec(requested@, current@),
        r matches Err(e) ==> e.0@ == requested@ && e.1@ == current@,
{
    if !compatible(&requested, &current) {
        return Err(VersionsIncompatible(requested, current));
    }
    Ok(())
}

/// When a process is considered to be ready.
#[derive(Debug, Clone, Copy, PartialEq, Eq, Structural)]
pub enum ReadyWhen {
    /// The process is considered ready when it has exited.
    Exited,
    /// The process is considered ready when it has spawned.
    Spawned,
}

/// Whether no name occurs twice in `s`.
pub open spec fn distinct_seq(s: Seq<Seq<char>>) -> bool {
    forall|i: int, j: int| 0 <= i < j < s.len() ==> #[trigger] s[i] != #[trigger] s[j]
}

/// Whether `s` holds no name twice.
pub open spec fn distinct_names(s: Seq<Name>) -> bool {
    distinct_seq(names_view(s))
}

/// A process within an Engage file.
pub struct Process {
    /// The command used to spawn the process.
    pub command: Vec<String>,
    /// When the process should be considered ready.
    pub ready_when: ReadyWhen,
    /// Extra environment variables to set for the process, by name and value.
    pub environment: Vec<(String, String)>,
    /// Names of processes that need to exit successfully before this one can
    /// be spawned.
    pub after: Vec<Name>,
    /// Names of processes that can be spawned only after this one has exited
    /// successfully.
    pub before: Vec<Name>,
}

/// The mathematical value of a [`Process`]: command, readiness, environment,
/// `after` names and `before` names.
pub type ProcessView = (Seq<String>, ReadyWhen, Seq<(String, String)>, Seq<Seq<char>>, Seq<Seq<char>>);

impl View for Process {
    type V = ProcessView;

    open spec fn view(&self) -> ProcessView {
        (self.command@, self.ready_when, self.environment@, names_view(self.after@), names_view(self.before@))
    }
}

/// Well-formedness of a process: no name is listed twice in `after` or in
/// `before`.
pub open spec fn process_wf(p: Process) -> bool {
    distinct_names(p.after@) && distinct_names(p.before@)
}

fn clone_strings(v: &Vec<String>) -> (r: Vec<String>)
    ensures
        r@ == v@,
{
    let mut r: Vec<String> = Vec::new();
    for i in 0..v.len()
        invariant
            r@ == v@.take(i as int),
    {
        r.push(v[i].clone());
        assert(r@ =~= v@.take(i + 1));
    }
    assert(v@.take(v@.len() as int) =~= v@);
    r
}

fn clone_pairs(v: &Vec<(String, String)>) -> (r: Vec<(String, String)>)
    ensures
        r@ == v@,
{
    let mut r: Vec<(String, String)> = Vec::new();
    for i in 0..v.len()
        invariant
            r@ == v@.take(i as int),
    {
        let (a, b) = &v[i];
        r.push((a.clone(), b.clone()));
        assert(r@ =~= v@.take(i + 1));
    }
    assert(v@.take(v@.len() as int) =~= v@);
    r
}

/// Whether `name` occurs in `names`.
pub fn contains_name(names: &Vec<Name>, name: &Name) -> (r: bool)
    ensures
        r == names_view(names@).contains(name@),
{
    for i in 0..names.len()
        invariant
            forall|j: int| 0 <= j < i ==> names@[j]@ != name@,
    {
        if names[i].same(name) {
            assert(names_view(names@)[i as int] == name@);
            return true;
        }
    }
    proof {
        if names_view(names@).contains(name@) {
            let k = choose|k: int| 0 <= k < names_view(names@).len() && names_view(names@)[k] == name@;
            assert(names@[k]@ == name@);
        }
    }
    false
}

/// The names of `s` with every name after its first occurrence left out.
pub open spec fn dedup_names(s: Seq<Seq<char>>) -> Seq<Seq<char>>
    decreases s.len(),
{
    if s.len() == 0 {
        s
    } else {
        let prev = dedup_names(s.drop_last());
        if prev.contains(s.last()) {
            prev
        } else {
            prev.push(s.last())
        }
    }
}

/// Dropping repeated names keeps every name that occurs.
pub proof fn lemma_dedup_names_contains(s: Seq<Seq<char>>, x: Seq<char>)
    ensures
        dedup_names(s).contains(x) == s.contains(x),
    decreases s.len(),
{
    if s.len() > 0 {
        let p = s.drop_last();
        let prev = dedup_names(p);
        lemma_dedup_names_contains(p, x);
        assert(s =~= p.push(s.last()));
        assert(s.contains(x) == (p.contains(x) || x == s.last())) by {
            if s.contains(x) {
                let k = choose|k: int| 0 <= k < s.len() && s[k] == x;
                if k < p.len() {
                    assert(p[k] == x);
                }
            }
            if p.contains(x) {
                let k = choose|k: int| 0 <= k < p.len() && p[k] == x;
                assert(s[k] == x);
            }
            if x == s.last() {
                assert(s[s.len() - 1] == x);
            }
        }
        if !prev.contains(s.last()) {
            let q = prev.push(s.last());
            assert(q.contains(x) == (prev.contains(x) || x == s.last())) by {
                if q.contains(x) {
                    let k = choose|k: int| 0 <= k < q.len() && q[k] == x;
                    if k < prev.len() {
                        assert(prev[k] == x);
                    }
                }
                if prev.contains(x) {
                    let k = choose|k: int| 0 <= k < prev.len() && prev[k] == x;
                    assert(q[k] == x);
                }
                if x == s.last() {
                    assert(q[q.len() - 1] == x);
                }
            }
        }
    }
}

/// Keep the first occurrence of each name.
pub fn dedup(names: Vec<Name>) -> (r: Vec<Name>)
    ensures
        names_view(r@) == dedup_names(names_view(names@)),
        distinct_names(r@),
{
    let mut r: Vec<Name> = Vec::new();
    for i in 0..names.len()
        invariant
            names_view(r@) == dedup_names(names_view(names@).take(i as int)),
            distinct_names(r@),
    {
        let ghost s = names_view(names@).take(i + 1);
        assert(s.drop_last() =~= names_view(names@).take(i as int));
        if !contains_name(&r, &names[i]) {
            let n = names[i].clone();
            proof {
                let q = names_view(r@.push(n));
                assert forall|a: int, b: int| 0 <= a < b < q.len() implies #[trigger] q[a]
                    != #[trigger] q[b] by {
                    if b == r@.len() {
                        assert(names_view(r@)[a] == r@[a]@);
                    } else {
                        assert(names_view(r@)[a] == q[a]);
                        assert(names_view(r@)[b] == q[b]);
                    }
                }
            }
            r.push(n);
            assert(names_view(r@) =~= names_view(r@).drop_last().push(names@[i as int]@));
        }
    }
    assert(names_view(names@).take(names@.len() as int) =~= names_view(names@));
    r
}

/// `s` taken in the order `p` gives its indices.
pub open spec fn reordered(s: Seq<Seq<char>>, p: Seq<usize>) -> Seq<Seq<char>> {
    p.map_values(|i: usize| s[i as int])
}

/// Taking a list in an order that sorts it gives a sorted list of the same
/// names, without repeats where the list had none.
pub(crate) proof fn lemma_reordered(s: Seq<Seq<char>>, p: Seq<usize>)
    requires
        sorts(s, p),
        s.len() <= usize::MAX,
    ensures
        names_sorted(reordered(s, p)),
        distinct_seq(s) ==> distinct_seq(reordered(s, p)),
        forall|x: Seq<char>| #[trigger] reordered(s, p).contains(x) <==> s.contains(x),
{
    broadcast use vstd::seq_lib::to_multiset_contains;
    let out = reordered(s, p);
    assert forall|x: Seq<char>| #[trigger] out.contains(x) <==> s.contains(x) by {
        if out.contains(x) {
            let k = choose|k: int| 0 <= k < out.len() && out[k] == x;
            assert(s[p[k] as int] == x);
        }
        if s.contains(x) {
            let i = choose|i: int| 0 <= i < s.len() && s[i] == x;
            let ix = crate::listing::indices(s.len());
            assert(ix[i] == i as usize);
            assert(ix.contains(i as usize));
            assert(ix.to_multiset().contains(i as usize));
            assert(p.contains(i as usize));
            let k = choose|k: int| 0 <= k < p.len() && p[k] == i as usize;
            assert(out[k] == x);
        }
    }
    if distinct_seq(s) {
        assert forall|a: int, b: int| 0 <= a < b < out.len() implies #[trigger] out[a] != #[trigger] out[b] by {
            assert(p[a] != p[b]);
        }
    }
}

/// The names of `v` in name order.
pub(crate) fn sort_names(v: &Vec<Name>) -> (r: Vec<Name>)
    ensures
        exists|p: Seq<usize>| #[trigger] sorts(names_view(v@), p) && names_view(r@) == reordered(names_view(v@), p),
{
    let n = v.len();
    let mut keys: Vec<String> = Vec::new();
    for i in 0..n
        invariant
            n == v@.len(),
            strings_view(keys@) == names_view(v@).take(i as int),
    {
        let ghost prev = keys@;
        let key = v[i].as_str().to_owned();
        keys.push(key);
        assert(keys@ == prev.push(key));
        assert(strings_view(keys@) =~= strings_view(prev).push(v@[i as int]@));
        assert(strings_view(keys@) =~= names_view(v@).take(i + 1));
    }
    assert(names_view(v@).take(n as int) =~= names_view(v@));
    let order = sorted_order(&keys);
    let ghost s = names_view(v@);
    let mut r: Vec<Name> = Vec::new();
    for k in 0..n
        invariant
            n == v@.len(),
            s == names_view(v@),
            sorts(s, order@),
            names_view(r@) == reordered(s, order@.take(k as int)),
    {
        let ghost prev = r@;
        let x = v[order[k]].clone();
        r.push(x);
        assert(r@ == prev.push(x));
        assert(names_view(r@) =~= names_view(prev).push(x@));
        assert(order@.take(k + 1) =~= order@.take(k as int).push(order@[k as int]));
        assert(names_view(r@) =~= reordered(s, order@.take(k + 1)));
    }
    assert(order@.take(n as int) =~= order@);
    r
}

impl Process {
    /// Create a process; repeated names in `after` and `before` have no
    /// additional effect and are dropped.
    pub fn new(
        command: Vec<String>,
        ready_when: ReadyWhen,
        environment: Vec<(String, String)>,
        after: Vec<Name>,
        before: Vec<Name>,
    ) -> (r: Process)
        ensures
            r.command@ == command@,
            r.ready_when == ready_when,
            r.environment@ == environment@,
            names_view(r.after@) == dedup_names(names_view(after@)),
            names_view(r.before@) == dedup_names(names_view(before@)),
            process_wf(r),
    {
        Process { command, ready_when, environment, after: dedup(after), before: dedup(before) }
    }
}

impl Clone for Process {
    fn clone(&self) -> (r: Self)
        ensures
            r@ == self@,
            process_wf(*self) ==> process_wf(r),
    {
        Process {
            command: clone_strings(&self.command),
            ready_when: self.ready_when,
            environment: clone_pairs(&self.environment),
            after: clone_names(&self.after),
            before: clone_names(&self.before),
        }
    }
}

/// Parsed content of a configuration file: the processes, by name.
pub struct Config {
    /// The processes to run, each with its name; no name occurs twice.
    pub processes: Vec<Named<Process>>,
}

/// The names of the processes in `ps`.
pub open spec fn process_names(ps: Seq<Named<Process>>) -> Seq<Seq<char>> {
    ps.map_values(|p: Named<Process>| p.name@)
}

/// Well-formedness of a configuration: process names are unique and in
/// name order, as the keys of a map ordered by name, and no process lists a
/// name twice in `after` or `before`.
pub open spec fn config_wf(ps: Seq<Named<Process>>) -> bool {
    &&& distinct_seq(process_names(ps))
    &&& names_sorted(process_names(ps))
    &&& forall|i: int| 0 <= i < ps.len() ==> process_wf(#[trigger] ps[i].value)
}

/// The names of the processes in `ps` whose command is empty, in order.
pub open spec fn empty_command_names(ps: Seq<Named<Process>>) -> Seq<Seq<char>>
    decreases ps.len(),
{
    if ps.len() == 0 {
        Seq::empty()
    } else {
        let prev = empty_command_names(ps.drop_last());
        if ps.last().value.command@.len() == 0 {
            prev.push(ps.last().name@)
        } else {
            prev
        }
    }
}

/// The processes reported for an empty command are exactly those whose
/// command is empty, each as often as it occurs, in order: a name is listed
/// exactly when some process of that name has an empty command, and no list
/// is longer than the processes.
pub proof fn lemma_empty_command_names(ps: Seq<Named<Process>>, x: Seq<char>)
    ensures
        empty_command_names(ps).contains(x) <==> exists|i: int|
            0 <= i < ps.len() && (#[trigger] ps[i]).name@ == x && ps[i].value.command@.len() == 0,
        empty_command_names(ps).len() <= ps.len(),
        (forall|i: int| 0 <= i < ps.len() ==> (#[trigger] ps[i]).value.command@.len() > 0) ==> empty_command_names(ps).len() == 0,
    decreases ps.len(),
{
    if ps.len() > 0 {
        let p = ps.drop_last();
        lemma_empty_command_names(p, x);
        let prev = empty_command_names(p);
        let m = empty_command_names(ps);
        assert(ps[ps.len() - 1] == ps.last());
        assert forall|i: int| 0 <= i < p.len() implies #[trigger] p[i] == ps[i] by {}
        if ps.last().value.command@.len() == 0 {
            assert(m == prev.push(ps.last().name@));
            if m.contains(x) {
                let k = choose|k: int| 0 <= k < m.len() && m[k] == x;
                if k < prev.len() {
                    assert(prev[k] == x);
                    let i = choose|i: int| 0 <= i < p.len() && (#[trigger] p[i]).name@ == x && p[i].value.command@.len() == 0;
                    assert(ps[i] == p[i]);
                }
            }
            if exists|i: int| 0 <= i < ps.len() && (#[trigger] ps[i]).name@ == x && ps[i].value.command@.len() == 0 {
                let i = choose|i: int| 0 <= i < ps.len() && (#[trigger] ps[i]).name@ == x && ps[i].value.command@.len() == 0;
                if i < p.len() {
                    assert(p[i] == ps[i]);
                    let k = choose|k: int| 0 <= k < prev.len() && prev[k] == x;
                    assert(m[k] == x);
                } else {
                    assert(m[m.len() - 1] == x);
                }
            }
        } else {
            if exists|i: int| 0 <= i < ps.len() && (#[trigger] ps[i]).name@ == x && ps[i].value.command@.len() == 0 {
                let i = choose|i: int| 0 <= i < ps.len() && (#[trigger] ps[i]).name@ == x && ps[i].value.command@.len() == 0;
                assert(p[i] == ps[i]);
            }
            if prev.contains(x) {
                let i = choose|i: int| 0 <= i < p.len() && (#[trigger] p[i]).name@ == x && p[i].value.command@.len() == 0;
                assert(ps[i] == p[i]);
            }
        }
        if forall|i: int| 0 <= i < ps.len() ==> (#[trigger] ps[i]).value.command@.len() > 0 {
            assert forall|i: int| 0 <= i < p.len() implies (#[trigger] p[i]).value.command@.len() > 0 by {
                assert(p[i] == ps[i]);
            }
        }
    }
}

/// The names that a list of file errors is about.
pub open spec fn file_error_names(es: Seq<FileError>) -> Seq<Seq<char>> {
    es.map_values(|e: FileError| match e {
        FileError::EmptyCommand(n) => n@,
    })
}

impl Config {
    /// Collect the processes of an Engage file into a configuration, ordered
    /// by name, refusing a name that occurs twice (the name is returned).
    pub fn from_processes(processes: Vec<Named<Process>>) -> (r: Result<Config, Name>)
        requires
            forall|i: int| 0 <= i < processes@.len() ==> process_wf(#[trigger] processes@[i].value),
        ensures
            r is Ok <==> distinct_seq(process_names(processes@)),
            r matches Ok(c) ==> config_wf(c.processes@) && exists|p: Seq<usize>|
                #[trigger] sorts(process_names(processes@), p) && named_views(c.processes@) == p.map_values(
                    |i: usize| named_views(processes@)[i as int],
                ),
            r matches Err(n) ==> exists|i: int, j: int|
                0 <= i < j < processes@.len() && #[trigger] process_names(processes@)[i] == n@
                    && #[trigger] process_names(processes@)[j] == n@,
    {
        let n = processes.len();
        for i in 0..n
            invariant
                n == processes@.len(),
                forall|a: int, b: int| 0 <= a < b < i ==> #[trigger] process_names(processes@)[a]
                    != #[trigger] process_names(processes@)[b],
        {
            for j in 0..i
                invariant
                    n == processes@.len(),
                    i < n,
                    forall|a: int| 0 <= a < j ==> process_names(processes@)[a]
                        != process_names(processes@)[i as int],
            {
                if processes[j].name.same(&processes[i].name) {
                    let dup = processes[i].name.clone();
                    proof {
                        assert(process_names(processes@)[j as int] == process_names(processes@)[i as int]);
                        assert(process_names(processes@)[i as int] == dup@);
                    }
                    return Err(dup);
                }
            }
        }
        // Order the processes by name.
        let mut keys: Vec<String> = Vec::new();
        for i in 0..n
            invariant
                n == processes@.len(),
                strings_view(keys@) == process_names(processes@).take(i as int),
        {
            let ghost prev = keys@;
            let key = processes[i].name.as_str().to_owned();
            keys.push(key);
            assert(keys@ == prev.push(key));
            assert(strings_view(keys@) =~= strings_view(prev).push(processes@[i as int].name@));
            assert(strings_view(keys@) =~= process_names(processes@).take(i + 1));
        }
        assert(process_names(processes@).take(n as int) =~= process_names(processes@));
        let order = sorted_order(&keys);
        let ghost names = process_names(processes@);
        let ghost views = named_views(processes@);
        let mut sorted: Vec<Named<Process>> = Vec::new();
        for k in 0..n
            invariant
                n == processes@.len(),
                names == process_names(processes@),
                views == named_views(processes@),
                sorts(names, order@),
                forall|i: int| 0 <= i < processes@.len() ==> process_wf(#[trigger] processes@[i].value),
                named_views(sorted@) == order@.take(k as int).map_values(|i: usize| views[i as int]),
                forall|j: int| 0 <= j < sorted@.len() ==> process_wf(#[trigger] sorted@[j].value),
        {
            let ghost prev = sorted@;
            let x = clone_named_process(&processes[order[k]]);
            assert(x@ == views[order@[k as int] as int]);
            sorted.push(x);
            assert(sorted@ == prev.push(x));
            assert(named_views(sorted@) =~= named_views(prev).push(x@));
            assert(order@.take(k + 1) =~= order@.take(k as int).push(order@[k as int]));
            assert(named_views(sorted@) =~= order@.take(k + 1).map_values(|i: usize| views[i as int]));
        }
        assert(order@.take(n as int) =~= order@);
        proof {
            let ps = sorted@;
            assert forall|k: int| 0 <= k < ps.len() implies #[trigger] process_names(ps)[k] == names[order@[k] as int] by {
                assert(named_views(ps)[k] == ps[k]@);
                assert(views[order@[k] as int] == processes@[order@[k] as int]@);
            }
            assert forall|a: int, b: int| 0 <= a < b < ps.len() implies #[trigger] process_names(ps)[a]
                != #[trigger] process_names(ps)[b] by {
                assert(process_names(ps)[a] == names[order@[a] as int]);
                assert(process_names(ps)[b] == names[order@[b] as int]);
                assert(order@[a] != order@[b]);
            }
            assert forall|a: int, b: int| 0 <= a < b < ps.len() implies crate::listing::name_le(
                #[trigger] process_names(ps)[a],
                #[trigger] process_names(ps)[b],
            ) by {
                assert(process_names(ps)[a] == names[order@[a] as int]);
                assert(process_names(ps)[b] == names[order@[b] as int]);
            }
            assert(sorts(process_names(processes@), order@));
        }
        Ok(Config { processes: sorted })
    }

    /// Validates the configuration file: every process needs a program to
    /// run. All processes with an empty command are reported, in order.
    pub fn validate(&self) -> (r: Result<(), Vec<FileError>>)
        ensures
            r is Ok <==> empty_command_names(self.processes@).len() == 0,
            r matches Err(es) ==> file_error_names(es@) == empty_command_names(self.processes@),
    {
        let mut errors: Vec<FileError> = Vec::new();
        for i in 0..self.processes.len()
            invariant
                file_error_names(errors@) == empty_command_names(self.processes@.take(i as int)),
        {
            let ghost ps = self.processes@.take(i + 1);
            assert(ps.drop_last() =~= self.processes@.take(i as int));
            if self.processes[i].value.command.len() == 0 {
                errors.push(FileError::EmptyCommand(self.processes[i].name.clone()));
            }
            assert(file_error_names(errors@) =~= empty_command_names(ps));
        }
        assert(self.processes@.take(self.processes@.len() as int) =~= self.processes@);
        if errors.len() == 0 {
            Ok(())
        } else {
            Err(errors)
        }
    }
}

/// Copy a named process.
pub fn clone_named_process(p: &Named<Process>) -> (r: Named<Process>)
    ensures
        r@ == p@,
        process_wf(p.value) ==> process_wf(r.value),
{
    Named { name: p.name.clone(), value: p.value.clone() }
}

} // verus!
