//! The handler chain and what it does with an entry.

use std::io::Write;
use std::path::Path;
use std::sync::Arc;

use moet::config::Config;
use moet::handlers::{
    build_handlers, dispatch, launch_failure, same_dir, spawn_external, Action, ArchiveHandler, Entry,
    EntryHandler, MediaHandler, PdfHandler, TextFileHandler,
};
use moet::paths::EntryPath;
use moet::shell_inject::{feed_command, feed_command_async};
use moet::state::State;

fn entry(path: &str, is_dir: bool, mode: Option<u32>) -> Entry {
    Entry { path: EntryPath::new(path), is_dir, mode }
}

fn session(config: &str) -> State {
    let (cfg, warnings) = Config::parse(config);
    assert!(warnings.is_empty());
    State::new(Some("/home".to_string()), Arc::new(cfg))
}

/// What opening an entry does, in a few words.
fn open(e: &Entry, state: &mut State) -> String {
    match dispatch(&build_handlers(), e, state) {
        Some(Action::Enter { keys }) => format!("enter {}", String::from_utf8_lossy(&keys)),
        Some(Action::Present { path }) => format!("present {path}"),
        Some(Action::Spawn { plan: Ok(p) }) => format!("spawn {} {:?}", p.program, p.args),
        Some(Action::Spawn { plan: Err(m) }) => m,
        Some(Action::Run { keys }) => format!("run {}", String::from_utf8_lossy(&keys)),
        None => "nothing".to_string(),
    }
}

fn run(cmd: &str) -> String {
    format!("run {}", String::from_utf8_lossy(&feed_command_async(cmd)))
}

#[test]
fn directory_moves_the_session() {
    let mut state = session("");
    let done = open(&entry("/home/it's.png", true, Some(0o755)), &mut state);
    let keys = feed_command("clear; cd '/home/it'\\''s.png'");
    assert_eq!(done, format!("enter {}", String::from_utf8_lossy(&keys)));
    assert_eq!(state.get_cd(), "/home/it's.png");
}

#[test]
fn only_directories_move_the_session() {
    let mut state = session("");
    assert_eq!(open(&entry("/a/b.txt", false, Some(0o644)), &mut state), run("clear; ${EDITOR:-nano} '/a/b.txt'"));
    assert_eq!(state.get_cd(), "/home");
}

#[test]
fn chain_is_asked_in_order() {
    let mut state = session("");
    assert_eq!(open(&entry("/a/x.PNG", false, Some(0o755)), &mut state), "present /a/x.PNG");
    assert_eq!(open(&entry("/a/x.tar.GZ", false, Some(0o755)), &mut state), "spawn xdg-open []");
    assert_eq!(open(&entry("/a/x.Pdf", false, Some(0o755)), &mut state), "spawn xdg-open []");
    assert_eq!(open(&entry("/a/x.MKV", false, Some(0o755)), &mut state), "spawn xdg-open []");
    assert_eq!(open(&entry("/a/x.sh", false, Some(0o755)), &mut state), run("clear; '/a/x.sh'"));
    assert_eq!(open(&entry("/a/x.py", false, Some(0o755)), &mut state), run("clear; python '/a/x.py'"));
    assert_eq!(open(&entry("/a/Makefile", false, None), &mut state), run("clear; ${EDITOR:-nano} '/a/Makefile'"));
    assert_eq!(open(&entry("/a/x.docx", false, None), &mut state), "spawn xdg-open []");
}

#[test]
fn override_replaces_the_default() {
    let mut state = session("[handlers]\nMD = \"code -n\"\npdf = \"zathura --fork\"\nsh = \"bash\"\nzip = \" \"\n");
    assert_eq!(open(&entry("/a/x.md", false, None), &mut state), run("clear; code -n '/a/x.md'"));
    assert_eq!(open(&entry("/a/x.PDF", false, None), &mut state), "spawn zathura [\"--fork\"]");
    assert_eq!(open(&entry("/a/x.sh", false, Some(0o100)), &mut state), run("clear; bash '/a/x.sh'"));
    assert_eq!(open(&entry("/a/x.zip", false, None), &mut state), "moet: empty handler command for /a/x.zip");
}

#[test]
fn image_override_replaces_the_preview() {
    let mut state = session("[handlers]\npng = \"gimp -n\"\nsvg = \"\"\n");
    assert_eq!(open(&entry("/p/a.png", false, None), &mut state), "spawn gimp [\"-n\"]");
    assert_eq!(open(&entry("/p/a.PNG", false, Some(0o755)), &mut state), "spawn gimp [\"-n\"]");
    assert_eq!(open(&entry("/p/a.svg", false, None), &mut state), "moet: empty handler command for /p/a.svg");
    assert_eq!(open(&entry("/p/a.jpg", false, None), &mut state), "present /p/a.jpg");
}

#[test]
fn path_is_the_last_argument() {
    let plan = spawn_external("zathura --fork", "/a b.pdf").ok().expect("plan");
    assert_eq!(plan.program, "zathura");
    assert_eq!(plan.arguments("/a b.pdf"), vec!["--fork".to_string(), "/a b.pdf".to_string()]);
    let bare = spawn_external("xdg-open", "x").ok().expect("plan");
    assert_eq!(bare.arguments(""), vec![String::new()]);
    assert_eq!(spawn_external("  ", "/a b.pdf").err(), Some("moet: empty handler command for /a b.pdf".to_string()));
}

#[test]
fn text_handler_claims_files_without_a_readable_extension() {
    assert!(TextFileHandler.can_handle(&entry("README", false, None)));
    assert!(TextFileHandler.can_handle(&entry("notes.TXT", false, None)));
    assert!(!TextFileHandler.can_handle(&entry("notes.xyz", false, None)));
    let foreign = Entry { path: EntryPath::with_foreign_extension("a.\u{fffd}"), is_dir: false, mode: None };
    assert!(TextFileHandler.can_handle(&foreign));
}

#[test]
fn external_classes_are_recognised_by_their_names() {
    for name in ["a.zip", "a.7z", "a.tar.gz", "a.tar", "a.gz", "a.rar", "a.xz", ".zip"] {
        assert!(ArchiveHandler.can_handle(&entry(name, false, None)), "{name}");
    }
    assert!(!ArchiveHandler.can_handle(&entry("azip", false, None)));
    assert!(ArchiveHandler.can_handle(&entry("\u{3a3}\u{130}.ZIP", false, None)));
    assert!(!ArchiveHandler.can_handle(&entry("a.z\u{130}p", false, None)));
    assert!(!ArchiveHandler.can_handle(&entry("a.zip/", false, None)));
    assert!(PdfHandler.can_handle(&entry("a.PDF", false, None)));
    assert!(!PdfHandler.can_handle(&entry("a.pdfx", false, None)));
    for name in [
        "a.mp3", "a.wav", "a.flac", "a.ogg", "a.m4a", "a.aac", "a.wma", "a.mp4", "a.mkv", "a.avi",
        "a.mov", "a.webm", "a.wmv", "a.flv", "a.mpg", "a.mpeg",
    ] {
        assert!(MediaHandler.can_handle(&entry(name, false, None)), "{name}");
    }
    assert!(!MediaHandler.can_handle(&entry("a.av\u{130}", false, None)));
    assert!(MediaHandler.can_handle(&entry("\u{3a3}.AVI", false, None)));
    // The Kelvin sign is a capital k.
    assert!(MediaHandler.can_handle(&entry("a.m\u{212a}v", false, None)));
    assert!(!MediaHandler.can_handle(&entry("mp3", false, None)));
}

#[test]
fn spawn_external_splits_on_white_space() {
    let plan = spawn_external("  zathura\t--fork \u{3000} -x ", "/a.pdf").ok().expect("plan");
    assert_eq!(plan.command, "  zathura\t--fork \u{3000} -x ");
    assert_eq!(plan.program, "zathura");
    assert_eq!(plan.args, vec!["--fork".to_string(), "-x".to_string()]);
    assert_eq!(spawn_external("", "/a.pdf").err(), Some("moet: empty handler command for /a.pdf".to_string()));
    assert_eq!(spawn_external(" \t", "/a.pdf").err(), Some("moet: empty handler command for /a.pdf".to_string()));
}

#[test]
fn launch_failure_names_command_and_path() {
    assert_eq!(
        launch_failure("zathura --fork", "/a.pdf", "no such file"),
        "moet: failed to launch 'zathura --fork' for /a.pdf: no such file"
    );
}

/// [`same_dir`] with what the file system says of the paths.
fn same_dir_on_disk(file_path: &Path, target_dir: &Path) -> bool {
    let canonical = |p: &Path| p.canonicalize().ok().map(|c| c.display().to_string());
    same_dir(
        &file_path.display().to_string(),
        &target_dir.display().to_string(),
        file_path.parent().and_then(canonical).as_deref(),
        canonical(target_dir).as_deref(),
    )
}

/// A file `foo.txt` in a directory.
fn foo_in(dir: &Path) -> tempfile::NamedTempFile {
    let mut file = tempfile::Builder::new()
        .prefix("foo")
        .suffix(".txt")
        .rand_bytes(0)
        .tempfile_in(dir)
        .unwrap();
    file.write_all(b"x").unwrap();
    file
}

#[test]
fn same_dir_matches_when_target_is_files_parent() {
    let dir = tempfile::tempdir().unwrap();
    let file = foo_in(dir.path());
    assert_eq!(file.path(), dir.path().join("foo.txt"));
    assert!(same_dir_on_disk(file.path(), dir.path()));
}

#[test]
fn same_dir_rejects_different_directories() {
    let dir1 = tempfile::tempdir().unwrap();
    let dir2 = tempfile::tempdir().unwrap();
    let file = foo_in(dir1.path());
    assert!(!same_dir_on_disk(file.path(), dir2.path()));
}

#[test]
fn same_dir_handles_trailing_slash_via_canonicalize() {
    let dir = tempfile::tempdir().unwrap();
    let file = foo_in(dir.path());
    let with_slash = format!("{}/", dir.path().display());
    assert!(same_dir_on_disk(file.path(), Path::new(&with_slash)));
}
