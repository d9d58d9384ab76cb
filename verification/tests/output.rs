use engage::error::Details;
use engage::name::Name;
use engage::output::{fmt_output_line, fmt_sequence, name_len, OtelStatusCode, Sequence};
use engage::run::{exit_outcome, ready_at_exit, ready_at_spawn, OutputKind, ProcessExit};
use engage::config::ReadyWhen;
use engage::util::DropGuard;
use std::cell::Cell;

#[test]
fn sequences() {
    assert_eq!(fmt_sequence(Sequence::Start, 0), " \u{256D}\u{2500}\u{252C}\u{25C0}");
    assert_eq!(fmt_sequence(Sequence::End, 3), "    \u{2570}\u{2500}\u{2534}\u{25B6}");
}

#[test]
fn output_lines() {
    let n = Name::from_str("ab").expect("valid");
    assert_eq!(fmt_output_line(&n, 4, OutputKind::Stdout, "hi"), "  ab \u{2502}O\u{2502} hi");
    assert_eq!(fmt_output_line(&n, 1, OutputKind::Stderr, "x"), "ab \u{2502}E\u{2502} x");
    assert_eq!(name_len(&n), 2);
}

#[test]
fn output_kinds() {
    assert_eq!(OutputKind::from_str("stdout"), OutputKind::Stdout);
    assert_eq!(OutputKind::from_str("stderr"), OutputKind::Stderr);
    assert_eq!(OutputKind::Stdout.to_char(), 'O');
    assert_eq!(OutputKind::Stderr.to_char(), 'E');
    assert_eq!(OutputKind::Stderr.as_str(), "stderr");
}

#[test]
fn status_codes() {
    assert_eq!(OtelStatusCode::Unset.as_str(), None);
    assert_eq!(OtelStatusCode::Okay.as_str(), Some("OK"));
    assert_eq!(OtelStatusCode::Error.as_str(), Some("ERROR"));
    assert_eq!(OtelStatusCode::from_str("OK"), OtelStatusCode::Okay);
    assert_eq!(OtelStatusCode::from_str("ERROR"), OtelStatusCode::Error);
    assert_eq!(OtelStatusCode::Okay.outcome(), "success");
    assert_eq!(OtelStatusCode::Error.outcome(), "failure");
}

#[test]
fn process_outcomes() {
    assert_eq!(exit_outcome(true, false), ProcessExit::Succeeded);
    assert_eq!(exit_outcome(true, true), ProcessExit::Succeeded);
    assert_eq!(exit_outcome(false, true), ProcessExit::CancelledWithError);
    assert_eq!(exit_outcome(false, false), ProcessExit::ExitedWithError);
    assert!(ready_at_spawn(ReadyWhen::Spawned));
    assert!(!ready_at_spawn(ReadyWhen::Exited));
    assert!(ready_at_exit(ReadyWhen::Exited, ProcessExit::Succeeded));
    assert!(!ready_at_exit(ReadyWhen::Exited, ProcessExit::ExitedWithError));
    assert!(!ready_at_exit(ReadyWhen::Spawned, ProcessExit::Succeeded));
}

#[test]
fn drop_guard_runs_on_release() {
    let seen = Cell::new(None);
    let mut guard = DropGuard::new(OtelStatusCode::Error, |x| seen.set(Some(x)));
    assert_eq!(*guard.get(), OtelStatusCode::Error);
    guard.set(OtelStatusCode::Okay);
    assert_eq!(seen.get(), None);
    guard.release();
    assert_eq!(seen.get(), Some(OtelStatusCode::Okay));
}

#[test]
fn details() {
    assert!(Details::empty().help.is_none());
    assert_eq!(Details::empty().help("try again".to_string()).help, Some("try again".to_string()));
}
