//! Paths as text.

use moet::handlers::same_dir;
use moet::ipc::{decide_move, MoveDecision};
use moet::paths::EntryPath;

fn ext_of(path: &str) -> Option<String> {
    EntryPath::new(path).ext().map(|e| e.to_string())
}

#[test]
fn extension_is_behind_the_last_dot_of_the_file_name() {
    assert_eq!(ext_of("/a/b/photo.PNG"), Some("PNG".to_string()));
    assert_eq!(ext_of("archive.tar.gz"), Some("gz".to_string()));
    assert_eq!(ext_of("dir.d/file"), None);
    assert_eq!(ext_of(".bashrc"), None);
    assert_eq!(ext_of("a/.hidden.txt"), Some("txt".to_string()));
    assert_eq!(ext_of("trailing."), Some(String::new()));
    assert_eq!(ext_of("dir.zip/"), Some("zip".to_string()));
    assert_eq!(ext_of("dir.zip/."), Some("zip".to_string()));
    assert_eq!(ext_of("a/.."), None);
    assert_eq!(ext_of(""), None);
    assert_eq!(ext_of("/"), None);
}

#[test]
fn foreign_extension_is_none() {
    let path = EntryPath::with_foreign_extension("a.\u{fffd}");
    assert_eq!(path.ext(), None);
    assert_eq!(path.text(), "a.\u{fffd}");
    let copy = path.copy();
    assert_eq!(copy.ext(), None);
    assert_eq!(copy.text(), "a.\u{fffd}");
}

#[test]
fn same_dir_compares_paths_as_written_without_canonical_forms() {
    assert!(same_dir("/tmp/foo.txt", "/tmp", None, None));
    assert!(same_dir("/tmp/foo.txt", "/tmp/", None, None));
    assert!(same_dir("/tmp//foo.txt", "/tmp/.", None, None));
    assert!(!same_dir("/tmp/foo.txt", "/var", None, None));
    assert!(!same_dir("./a/foo.txt", "a", None, None));
    assert!(same_dir("foo.txt", "", None, None));
    assert!(!same_dir("/", "/", None, None));
    assert!(!same_dir("", "", None, None));
}

#[test]
fn same_dir_prefers_canonical_forms() {
    assert!(same_dir("/link/foo.txt", "/real", Some("/real"), Some("/real")));
    assert!(!same_dir("/a/foo.txt", "/a", Some("/x"), Some("/y")));
    assert!(same_dir("/a/foo.txt", "/a", Some("/x"), None));
    assert!(!same_dir("/", "/", Some("/"), Some("/")));
}

fn target(source: &str, dir: &str) -> Option<String> {
    match decide_move(source, dir, None, None) {
        MoveDecision::Rename { to } => Some(to),
        MoveDecision::SameDirectory => None,
        MoveDecision::InvalidName => Some("invalid".to_string()),
    }
}

#[test]
fn moved_file_keeps_its_name() {
    assert_eq!(target("/a/b.txt", "/c"), Some("/c/b.txt".to_string()));
    assert_eq!(target("/a/b.txt", "/c/"), Some("/c/b.txt".to_string()));
    assert_eq!(target("/a/b.txt", ""), Some("b.txt".to_string()));
    assert_eq!(target("/a/b/", "/c"), Some("/c/b".to_string()));
    assert_eq!(target("/a/b.txt", "/a"), None);
    assert_eq!(target("/a/..", "/c"), Some("invalid".to_string()));
    assert_eq!(target("/", "/c"), Some("invalid".to_string()));
}
