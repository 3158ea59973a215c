//! Quoting and the commands typed into the shell.

use moet::paths::EntryPath;
use moet::shell_inject::{build_edit_command, build_exec_command, shell_quote};

#[test]
fn shell_quote_simple() {
  assert_eq!(shell_quote("hello"), "'hello'");
}

#[test]
fn shell_quote_neutralises_metacharacters() {
  assert_eq!(shell_quote("a;b"), "'a;b'");
  assert_eq!(shell_quote("$(whoami)"), "'$(whoami)'");
  assert_eq!(shell_quote("`id`"), "'`id`'");
  assert_eq!(shell_quote("a\\b"), "'a\\b'");
  assert_eq!(shell_quote("a\nb"), "'a\nb'");
  assert_eq!(shell_quote("a\"b"), "'a\"b'");
  assert_eq!(shell_quote("a&b"), "'a&b'");
}

#[test]
fn shell_quote_escapes_embedded_single_quote() {
  assert_eq!(shell_quote("it's"), "'it'\\''s'");
}

#[test]
fn build_exec_command_wraps_paths() {
  assert_eq!(
    build_exec_command(&EntryPath::new("/abs/path with space"), None),
    "clear; '/abs/path with space'"
  );
  assert_eq!(
    build_exec_command(&EntryPath::new("relative.sh"), None),
    "clear; ./'relative.sh'"
  );
  assert_eq!(
    build_exec_command(&EntryPath::new("script.py"), None),
    "clear; python 'script.py'"
  );
  assert_eq!(
    build_exec_command(&EntryPath::new("/abs/script.JS"), None),
    "clear; node '/abs/script.JS'"
  );
}

#[test]
fn build_exec_command_uses_override() {
  assert_eq!(
    build_exec_command(&EntryPath::new("script.py"), Some("python3")),
    "clear; python3 'script.py'"
  );
  assert_eq!(
    build_exec_command(&EntryPath::new("/abs/file.bin"), Some("./runner --debug")),
    "clear; ./runner --debug '/abs/file.bin'"
  );
}

#[test]
fn build_edit_command_quotes_path() {
  assert_eq!(
    build_edit_command(&EntryPath::new("notes; rm -rf /.txt"), "nano"),
    "clear; nano 'notes; rm -rf /.txt'"
  );
}

#[test]
fn build_edit_command_supports_shell_expansion() {
  assert_eq!(
    build_edit_command(&EntryPath::new("notes.md"), "${EDITOR:-nano}"),
    "clear; ${EDITOR:-nano} 'notes.md'"
  );
}
