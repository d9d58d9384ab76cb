use engage::config::{check_version, default_file_name, format_version, Config, Process, ReadyWhen};
use engage::error::FileError;
use engage::name::{Name, Named};
use engage::semver::Version;

fn name(s: &str) -> Name {
    Name::from_str(s).expect("hard-coded value should be valid")
}

fn process(command: &[&str], after: &[&str], before: &[&str]) -> Process {
    Process::new(
        command.iter().map(|s| s.to_string()).collect(),
        ReadyWhen::Exited,
        Vec::new(),
        after.iter().map(|s| name(s)).collect(),
        before.iter().map(|s| name(s)).collect(),
    )
}

#[test]
fn file_name_and_version() {
    assert_eq!(default_file_name(), "engage.toml");
    let v = format_version().expect("hard-coded version should be valid");
    assert_eq!((v.major, v.minor, v.patch), (0, 0, 0));
    assert_eq!(v.pre, "dev");
    assert_eq!(v.build, "");
}

#[test]
fn version_check() {
    let current = || format_version().expect("hard-coded version should be valid");
    let same = Version::parse("0.0.0-dev").expect("valid");
    assert!(check_version(same, current()).is_ok());
    let other = Version::parse("1.0.0").expect("valid");
    match check_version(other, current()) {
        Err(e) => {
            assert_eq!(e.0.major, 1);
            assert_eq!(e.1.pre, "dev");
        },
        Ok(()) => panic!("1.0.0 should not be compatible with 0.0.0-dev"),
    }
    let dev_build = Version::parse("0.0.0-dev+abc").expect("valid");
    assert!(check_version(dev_build, current()).is_ok());
}

#[test]
fn repeated_dependencies_have_no_effect() {
    let p = process(&["true"], &["a", "b", "a", "a"], &["c", "c"]);
    let after: Vec<&str> = p.after.iter().map(|n| n.as_str()).collect();
    let before: Vec<&str> = p.before.iter().map(|n| n.as_str()).collect();
    assert_eq!(after, vec!["a", "b"]);
    assert_eq!(before, vec!["c"]);
}

#[test]
fn duplicate_process_names_are_refused() {
    let ps = vec![
        Named { name: name("a"), value: process(&["true"], &[], &[]) },
        Named { name: name("b"), value: process(&["true"], &[], &[]) },
        Named { name: name("a"), value: process(&["false"], &[], &[]) },
    ];
    match Config::from_processes(ps) {
        Err(n) => assert_eq!(n.as_str(), "a"),
        Ok(_) => panic!("duplicate names should be refused"),
    }
}

#[test]
fn empty_command_is_reported() {
    let ps = vec![
        Named { name: name("a"), value: process(&[], &[], &[]) },
        Named { name: name("b"), value: process(&["true"], &[], &[]) },
        Named { name: name("c"), value: process(&[], &[], &[]) },
    ];
    let config = Config::from_processes(ps).ok().expect("names are distinct");
    match config.validate() {
        Err(es) => {
            let names: Vec<&str> = es
                .iter()
                .map(|e| match e {
                    FileError::EmptyCommand(n) => n.as_str(),
                })
                .collect();
            assert_eq!(names, vec!["a", "c"]);
        },
        Ok(()) => panic!("empty commands should be reported"),
    }
}

#[test]
fn valid_config() {
    let ps = vec![Named { name: name("a"), value: process(&["echo", "hi"], &[], &[]) }];
    let config = Config::from_processes(ps).ok().expect("names are distinct");
    assert!(config.validate().is_ok());
}

#[test]
fn names_lists() {
    let ns = vec![name("a"), name("b"), name("a"), name("c"), name("b")];
    assert!(engage::config::contains_name(&ns, &name("c")));
    assert!(!engage::config::contains_name(&ns, &name("d")));
    let d: Vec<String> = engage::config::dedup(ns).iter().map(|n| n.as_str().to_string()).collect();
    assert_eq!(d, vec!["a", "b", "c"]);
    let p = Named { name: name("x"), value: process(&["echo", "hi"], &["a"], &[]) };
    let q = engage::config::clone_named_process(&p);
    assert_eq!(q.name.as_str(), "x");
    assert_eq!(q.value.command, vec!["echo".to_string(), "hi".to_string()]);
    assert_eq!(q.value.after.len(), 1);
}

#[test]
fn processes_are_ordered_by_name() {
    let ps = vec![
        Named { name: name("web"), value: process(&["true"], &[], &[]) },
        Named { name: name("db"), value: process(&["true"], &[], &[]) },
        Named { name: name("cache-2"), value: process(&["true"], &[], &[]) },
    ];
    let config = Config::from_processes(ps).ok().expect("names are distinct");
    let names: Vec<&str> = config.processes.iter().map(|p| p.name.as_str()).collect();
    assert_eq!(names, vec!["cache-2", "db", "web"]);
}
