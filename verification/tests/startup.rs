//! What follows from the path argument.

use std::sync::Arc;

use moet::config::Config;
use moet::handlers::{build_handlers, dispatch, Action, Entry};
use moet::paths::EntryPath;
use moet::startup::{
    classify_startup, plan_launch, resolve_path, startup_command, Candidate, Candidates, Launch,
    Resolved, StartupAction,
};
use moet::state::State;

fn describe(action: &StartupAction) -> String {
    match action {
        StartupAction::Directory(dir) => format!("dir {dir}"),
        StartupAction::HandledExternally(Ok(p)) => format!("external {} {:?}", p.program, p.args),
        StartupAction::HandledExternally(Err(m)) => format!("external failed: {m}"),
        StartupAction::ImagePreview(path) => format!("preview {path}"),
        StartupAction::MissingImage(path) => format!("missing {path}"),
        StartupAction::RunInSession { initial_pwd, target } => {
            format!("session {initial_pwd} {}", target.text())
        }
    }
}

fn start(input: &str, resolved: Option<(&str, bool)>, config: &str) -> String {
    let (cfg, _) = Config::parse(config);
    let found = resolved.map(|(path, is_dir)| Resolved { path: EntryPath::new(path), is_dir });
    describe(&classify_startup(&EntryPath::new(input), found.as_ref(), &cfg))
}

#[test]
fn missing_paths() {
    assert_eq!(start("gone.PNG", None, ""), "missing gone.PNG");
    assert_eq!(start("/a/gone.zip", None, ""), "session /a /a/gone.zip");
    assert_eq!(start("gone.txt", None, ""), "session  gone.txt");
    assert_eq!(start("/", None, ""), "session . /");
    assert_eq!(start(".", None, ""), "session  .");
    assert_eq!(start("./", None, ""), "session  ./");
    assert_eq!(start("./a", None, ""), "session . ./a");
    assert_eq!(start(".//a", None, ""), "session . .//a");
    assert_eq!(start("///a", None, ""), "session / ///a");
    assert_eq!(start("/./a", None, ""), "session / /./a");
    assert_eq!(start("a//./b//c/./", None, ""), "session a//./b a//./b//c/./");
    assert_eq!(start(".a/b", None, ""), "session .a .a/b");
    assert_eq!(start("../b", None, ""), "session .. ../b");
    assert_eq!(start("a/..", None, ""), "session a a/..");
    assert_eq!(start("", None, ""), "session . ");
}

#[test]
fn existing_paths() {
    assert_eq!(start("x", Some(("/a/dir.zip", true)), ""), "dir /a/dir.zip");
    assert_eq!(start("x", Some(("/a/x.zip", false)), ""), "external xdg-open []");
    assert_eq!(start("x", Some(("/a/x.pdf", false)), "handlers = { pdf = 'zathura --fork' }"), "external zathura [\"--fork\"]");
    assert_eq!(start("x", Some(("/a/x.mp4", false)), "handlers = { mp4 = '' }"), "external failed: moet: empty handler command for /a/x.mp4");
    assert_eq!(start("x", Some(("/a/x.jpg", false)), ""), "preview /a/x.jpg");
    assert_eq!(start("x", Some(("/a/b/x.txt", false)), ""), "session /a/b /a/b/x.txt");
    assert_eq!(start("x", Some(("/x.txt", false)), ""), "session / /x.txt");
}

fn candidate(path: Option<&str>, exists: bool, canonical: Option<&str>) -> Candidate<String> {
    Candidate { path: path.map(String::from), exists, canonical: canonical.map(String::from) }
}

#[test]
fn first_existing_reading_wins() {
    let all = |a: bool, b: bool, c: bool, d: bool| {
        resolve_path(Candidates {
            from_pwd: candidate(Some("pwd"), a, Some("pwd!")),
            resolved: candidate(Some("resolved"), b, None),
            from_cwd: candidate(Some("cwd"), c, Some("cwd!")),
            literal: candidate(Some("literal"), d, None),
        })
    };
    assert_eq!(all(true, true, true, true), Some("pwd!".to_string()));
    assert_eq!(all(false, true, true, true), Some("resolved".to_string()));
    assert_eq!(all(false, false, true, true), Some("cwd!".to_string()));
    assert_eq!(all(false, false, false, true), Some("literal".to_string()));
    assert_eq!(all(false, false, false, false), None);
    let none = resolve_path(Candidates {
        from_pwd: candidate(None, true, Some("x")),
        resolved: candidate(None, false, None),
        from_cwd: candidate(None, false, None),
        literal: candidate(Some("literal"), true, None),
    });
    assert_eq!(none, Some("literal".to_string()));
}

#[test]
fn launches() {
    match plan_launch(StartupAction::MissingImage("a.png".to_string())) {
        Launch::Fail(m) => assert_eq!(m, "Error: Image file not found: a.png"),
        _ => panic!("missing image fails"),
    }
    match plan_launch(StartupAction::Directory("/d".to_string())) {
        Launch::Session { initial_pwd, target } => {
            assert_eq!(initial_pwd, "/d");
            assert!(target.is_none());
        }
        _ => panic!("directory starts a session"),
    }
    match plan_launch(StartupAction::RunInSession { initial_pwd: "/d".to_string(), target: EntryPath::new("/d/x") }) {
        Launch::Session { initial_pwd, target } => {
            assert_eq!(initial_pwd, "/d");
            assert_eq!(target.expect("target").text(), "/d/x");
        }
        _ => panic!("file starts a session"),
    }
    assert!(matches!(plan_launch(StartupAction::ImagePreview("x".to_string())), Launch::Preview(p) if p == "x"));
    assert!(matches!(plan_launch(StartupAction::HandledExternally(Err("m".to_string()))), Launch::External(Err(m)) if m == "m"));
}

#[test]
fn startup_command_runs_scripts_and_executables() {
    let (cfg, _) = Config::parse("handlers = { rb = 'ruby', txt = 'vi' }");
    let cmd = |path: &str, mode: Option<u32>| startup_command(&EntryPath::new(path), mode, &cfg);
    assert_eq!(cmd("/a/x.PY", Some(0o644)), "clear; python '/a/x.PY'");
    assert_eq!(cmd("/a/x.js", None), "clear; node '/a/x.js'");
    assert_eq!(cmd("/a/x", Some(0o755)), "clear; '/a/x'");
    assert_eq!(cmd("/a/x.rb", Some(0o755)), "clear; ruby '/a/x.rb'");
    assert_eq!(cmd("/a/x.txt", Some(0o644)), "clear; vi '/a/x.txt'");
    assert_eq!(cmd("/a/x.md", Some(0o644)), "clear; ${EDITOR:-nano} '/a/x.md'");
}

#[test]
fn image_is_shown_at_startup_whatever_the_override() {
    let config = "handlers = { png = 'gimp' }";
    assert_eq!(start("x", Some(("/a/x.png", false)), config), "preview /a/x.png");
}

#[test]
fn startup_mirrors_the_chain() {
    let config = "handlers = { pdf = 'zathura --fork' }";
    for (path, is_dir) in [
        ("/a/dir.zip", true),
        ("/a/x.ZIP", false),
        ("/a/x.pdf", false),
        ("/a/x.mp4", false),
        ("/a/x.jpg", false),
        ("/a/\u{130}\u{3a3}.JPG", false),
        ("/a/x.txt", false),
        ("/a/x.docx", false),
    ] {
        let (cfg, _) = Config::parse(config);
        let mut state = State::new(None, Arc::new(cfg));
        let entry = Entry { path: EntryPath::new(path), is_dir, mode: None };
        let opened = match dispatch(&build_handlers(), &entry, &mut state) {
            Some(Action::Spawn { plan: Ok(p) }) => format!("external {} {:?}", p.program, p.args),
            Some(Action::Present { path }) => format!("preview {path}"),
            Some(Action::Enter { .. }) => format!("dir {path}"),
            _ => format!("session /a {path}"),
        };
        // A file of an unknown kind gets a session at startup.
        let expected = if path == "/a/x.docx" { "session /a /a/x.docx".to_string() } else { opened };
        assert_eq!(start("x", Some((path, is_dir)), config), expected);
    }
}
