//! The command line.

use moet::cli::{parse_args, Invocation, StartPoint, HELP_TEXT};

fn parse(args: &[&str]) -> String {
    let args: Vec<String> = args.iter().map(|a| a.to_string()).collect();
    match parse_args(&args) {
        Invocation::Help => "help".to_string(),
        Invocation::PrintDefaultConfig => "config".to_string(),
        Invocation::Run { start, ls } => {
            let from = match start {
                StartPoint::JoinSession(Some(socket)) => format!("join {socket}"),
                StartPoint::JoinSession(None) => "join nothing".to_string(),
                StartPoint::Path(path) => format!("path {path}"),
                StartPoint::Here => "here".to_string(),
            };
            format!("{from}{}", if ls { " ls" } else { "" })
        }
    }
}

#[test]
fn invocations() {
    assert_eq!(parse(&[]), "here");
    assert_eq!(parse(&["moet"]), "here");
    assert_eq!(parse(&["moet", "/tmp"]), "path /tmp");
    assert_eq!(parse(&["moet", "-x", "a", "b"]), "path a");
    assert_eq!(parse(&["moet", ""]), "path ");
    assert_eq!(parse(&["moet", "--ls"]), "here ls");
    assert_eq!(parse(&["moet", "--ls", "/tmp"]), "path /tmp ls");
    assert_eq!(parse(&["moet", "/tmp", "--join-session", "/s"]), "join /s");
    assert_eq!(parse(&["moet", "--join-session"]), "join nothing");
    assert_eq!(parse(&["moet", "--join-session", "--ls"]), "join --ls ls");
    assert_eq!(parse(&["moet", "--print-default-config", "-h"]), "help");
    assert_eq!(parse(&["moet", "x", "--help"]), "help");
    assert_eq!(parse(&["moet", "--print-default-config", "--ls"]), "config");
}

#[test]
fn help_text_names_the_options() {
    for option in ["-h, --help", "--ls [PATH]", "--join-session PATH", "--print-default-config"] {
        assert!(HELP_TEXT.contains(option), "{option}");
    }
    assert!(HELP_TEXT.starts_with("Moet - A file manager\nUsage: moet [OPTIONS]\n\nOptions:\n"));
    assert!(HELP_TEXT.ends_with("stdout\n"));
}
