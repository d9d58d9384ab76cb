use engage::error::ValidateName;
use engage::graph::EdgeKind;
use engage::message::{
    fmt_cycle, fmt_dependency_not_found, fmt_dependency_not_part_of, fmt_duplicate_process, fmt_empty_command,
    fmt_exited, fmt_file_not_found, fmt_next_entry, fmt_process_failed, fmt_process_not_found, fmt_process_not_part_of,
    fmt_read_dir, fmt_run_graph, fmt_spawn, fmt_validate_name,
};
use engage::name::Name;

fn name(s: &str) -> Name {
    Name::from_str(s).expect("hard-coded value should be valid")
}

fn names(ns: &[&str]) -> Vec<Name> {
    ns.iter().map(|s| name(s)).collect()
}

#[test]
fn cycle_messages() {
    assert_eq!(fmt_cycle(&names(&["a"])), "`a` depends on itself");
    assert_eq!(fmt_cycle(&names(&["a", "b"])), "the dependencies between `a` and `b` form a cycle");
    assert_eq!(fmt_cycle(&names(&["a", "b", "c"])), "the dependencies between `a`, `b`, and `c` form a cycle");
}

#[test]
fn dependency_not_found() {
    assert_eq!(
        fmt_dependency_not_found(&name("web"), &name("db"), EdgeKind::After),
        "`web` contains `db` in its \"after\" list but the latter does not exist"
    );
    assert_eq!(
        fmt_dependency_not_found(&name("web"), &name("db"), EdgeKind::Before),
        "`web` contains `db` in its \"before\" list but the latter does not exist"
    );
    assert_eq!(EdgeKind::Before.list_name(), "before");
}

#[test]
fn not_part_of() {
    assert_eq!(
        fmt_dependency_not_part_of(&name("a"), &name("p"), &name("b"), Some(&name("q")), EdgeKind::After),
        "`a` is part of `p` and contains `b` in its \"after\" list, but `b` is part of `q`"
    );
    assert_eq!(
        fmt_dependency_not_part_of(&name("a"), &name("p"), &name("b"), None, EdgeKind::Before),
        "`a` is part of `p` and contains `b` in its \"before\" list, but `b` is not"
    );
    assert_eq!(
        fmt_process_not_part_of(&name("a"), None, &name("b"), &name("q"), EdgeKind::After),
        "`a` is not part of another process and contains `b` in its \"after\" list, but `b` is part of `q`"
    );
    assert_eq!(
        fmt_process_not_part_of(&name("a"), Some(&name("p")), &name("b"), &name("q"), EdgeKind::Before),
        "`a` is part of `p` and contains `b` in its \"before\" list, but `b` is part of `q`"
    );
}

#[test]
fn other_messages() {
    assert_eq!(fmt_run_graph(1), "failed to run 1 process");
    assert_eq!(fmt_run_graph(3), "failed to run 3 processes");
    assert_eq!(fmt_run_graph(0), "failed to run 0 processes");
    assert_eq!(fmt_process_not_found(&name("web")), "the process `web` was not found");
    assert_eq!(
        fmt_empty_command(&name("web")),
        "`web`'s value for the \"command\" key is an empty list which is not allowed"
    );
}

#[test]
fn invalid_name_messages() {
    assert_eq!(fmt_validate_name(ValidateName::Empty), "empty string is not a valid name");
    assert_eq!(
        fmt_validate_name(ValidateName::InvalidStart('-')),
        "'-' is not allowed to be the first character of a name"
    );
    assert_eq!(
        fmt_validate_name(ValidateName::InvalidContinue(3, '\n')),
        "'\\n' at byte 3 is not allowed in a name"
    );
    assert_eq!(
        fmt_validate_name(ValidateName::InvalidContinue(12, '\'')),
        "'\\'' at byte 12 is not allowed in a name"
    );
}

#[test]
fn directory_messages() {
    assert_eq!(fmt_read_dir("/tmp/x"), "failed to read directory '/tmp/x'");
    assert_eq!(fmt_next_entry("/tmp/x"), "failed to get next entry in directory '/tmp/x'");
    assert_eq!(fmt_file_not_found("engage.toml"), "engage.toml not found in the current directory or its ancestors");
}

#[test]
fn spawn_message_escapes_the_program() {
    assert_eq!(fmt_spawn("cargo"), "failed to spawn a process for the program \"cargo\"");
    assert_eq!(fmt_spawn("a\"b\n"), "failed to spawn a process for the program \"a\\\"b\\n\"");
}

#[test]
fn exit_messages() {
    assert_eq!(fmt_exited("exit status: 1", false), "process exited unsuccessfully via exit status: 1");
    assert_eq!(
        fmt_exited("signal: 9 (SIGKILL)", true),
        "process exited due to cancellation unsuccessfully via signal: 9 (SIGKILL)"
    );
}

#[test]
fn process_messages() {
    assert_eq!(fmt_process_failed(&name("web")), "failed to run `web`");
    assert_eq!(fmt_duplicate_process(&name("web")), "duplicate process `web`");
}
