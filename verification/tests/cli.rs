//! The command line.

use omakeel::cli::{command, usage, Command, Options};
use omakeel::source::Spec;

fn args(line: &str) -> Vec<String> {
    line.split_whitespace().map(String::from).collect()
}

fn asked(line: &str) -> Result<Command, String> {
    command(&args(line))
}

#[test]
fn nothing_and_help_print_the_usage() {
    for line in ["", "-h", "--help", "help", "help me"] {
        assert_eq!(asked(line), Ok(Command::Usage), "{line}");
    }
    assert!(usage().starts_with("usage: omakeel run --source SPEC [--source SPEC ...]"));
    assert!(usage().ends_with("$XDG_RUNTIME_DIR/omakeel/keel.sock."));
    assert_eq!(usage().lines().count(), 12);
}

#[test]
fn the_version_has_two_names() {
    assert_eq!(asked("--version"), Ok(Command::Version));
    assert_eq!(asked("version"), Ok(Command::Version));
}

#[test]
fn run_takes_its_sources_in_order() {
    let Ok(Command::Run(options)) =
        asked("run --source tcp:a:1 --record x --source replay:b --socket /s --record y")
    else {
        panic!("expected to run");
    };
    assert_eq!(
        options,
        Options {
            sources: vec![
                Spec::Tcp {
                    address: "a:1".into()
                },
                Spec::Replay { path: "b".into() }
            ],
            record: Some("y".into()),
            socket: Some("/s".into())
        }
    );
}

#[test]
fn run_needs_a_source() {
    let usage = usage();
    assert_eq!(
        asked("run --record x"),
        Err(format!("run needs at least one --source\n\n{usage}"))
    );
    assert_eq!(asked("run --source"), Err("--source needs a value".into()));
    assert_eq!(
        asked("run gps"),
        Err(format!("unexpected 'gps'\n\n{usage}"))
    );
    assert!(asked("run --source gps")
        .unwrap_err()
        .starts_with("'gps' is not a source;"));
}

#[test]
fn watch_takes_only_a_socket() {
    let Ok(Command::Watch(options)) = asked("watch --socket /s") else {
        panic!("expected to watch");
    };
    assert_eq!(options.socket.as_deref(), Some("/s"));
    assert!(matches!(asked("watch"), Ok(Command::Watch(_))));
    assert!(asked("watch --source replay:a")
        .unwrap_err()
        .starts_with("unexpected '--source'"));
    assert_eq!(asked("watch --socket"), Err("--socket needs a value".into()));
}

#[test]
fn an_unknown_command_is_told_the_usage() {
    assert_eq!(
        asked("sail away"),
        Err(format!("unknown command 'sail'\n\n{}", usage()))
    );
}

#[test]
fn the_socket_is_the_one_given_or_the_default() {
    let given = Options::parse(&args("--socket here"), 0, &["--socket"]).unwrap();
    assert_eq!(given.socket(None), Ok(b"here".to_vec()));
    let default = Options::parse(&args(""), 0, &[]).unwrap();
    assert_eq!(
        default.socket(Some(b"/run")),
        Ok(b"/run/omakeel/keel.sock".to_vec())
    );
    assert_eq!(
        default.socket(None),
        Err("XDG_RUNTIME_DIR must be set to an absolute path")
    );
}
