//! What the shell makes of the keys and words that are fed to it.

use moet::paths::EntryPath;
use moet::shell_inject::{build_cd_command, build_edit_command, build_exec_command, feed_command, shell_quote};

/// A prompt with the line editor's default bindings for the keys in use.
struct Prompt {
    line: Vec<u8>,
    cursor: usize,
    killed: Vec<u8>,
    submitted: Vec<String>,
}

impl Prompt {
    fn feed(&mut self, keys: &[u8]) {
        for key in keys {
            match key {
                0x01 => self.cursor = 0,
                0x05 => self.cursor = self.line.len(),
                0x15 => {
                    self.killed = self.line.drain(..self.cursor).collect();
                    self.cursor = 0;
                }
                0x19 => {
                    for b in self.killed.clone() {
                        self.line.insert(self.cursor, b);
                        self.cursor += 1;
                    }
                }
                0x04 => {
                    self.line.remove(self.cursor);
                }
                0x0a => {
                    self.submitted.push(String::from_utf8(self.line.clone()).unwrap());
                    self.line.clear();
                    self.cursor = 0;
                }
                b => {
                    self.line.insert(self.cursor, *b);
                    self.cursor += 1;
                }
            }
        }
    }
}

#[test]
fn half_typed_line_survives_a_command() {
    for (line, cursor) in [("", 0), ("git st", 6), ("git st", 0), ("caf\u{e9} ", 3)] {
        let mut prompt = Prompt {
            line: line.as_bytes().to_vec(),
            cursor,
            killed: vec![],
            submitted: vec![],
        };
        prompt.feed(&feed_command("clear; cd '/tmp/\u{e9}'"));
        assert_eq!(prompt.submitted, vec![" clear; cd '/tmp/\u{e9}'".to_string()]);
        assert_eq!(prompt.line, line.as_bytes());
        assert_eq!(prompt.cursor, line.len());
    }
}

#[test]
fn half_typed_line_survives_line_breaks() {
    let mut prompt = Prompt { line: b"git st".to_vec(), cursor: 3, killed: vec![], submitted: vec![] };
    prompt.feed(&feed_command("clear; cd 'a\n\nb'"));
    assert_eq!(prompt.submitted, vec![" clear; cd 'a".to_string(), String::new(), "b'".to_string()]);
    assert_eq!(prompt.line, b"git st");
    assert_eq!(prompt.cursor, 6);
}

/// The word that a shell reads off a text of quotes and escapes.
fn word(text: &str) -> String {
    let mut out = String::new();
    let mut quoted = false;
    let mut chars = text.chars();
    while let Some(c) = chars.next() {
        match c {
            '\'' => quoted = !quoted,
            '\\' if !quoted => out.push(chars.next().unwrap()),
            c => {
                assert!(quoted || c == '.' || c == '/', "{c:?} stands unquoted");
                out.push(c);
            }
        }
    }
    assert!(!quoted);
    out
}

#[test]
fn quoted_word_is_the_string() {
    for s in ["", "plain", "it's", "''", "a\\'b", "$(rm -rf ~); `x` & | > \n *", "\u{e9} \u{1f600}"] {
        assert_eq!(word(&shell_quote(s)), s);
    }
    assert_ne!(shell_quote("a'b"), shell_quote("a\\'b"));
}

#[test]
fn commands_name_the_path() {
    let text = "/tmp/it's; rm x";
    let path = EntryPath::new(text);
    assert_eq!(word(build_cd_command(&path).strip_prefix("clear; cd ").unwrap()), text);
    assert_eq!(word(build_edit_command(&path, "vi -R").strip_prefix("clear; vi -R ").unwrap()), text);
    assert_eq!(word(build_exec_command(&path, None).strip_prefix("clear; ").unwrap()), text);
    let relative = EntryPath::new("it's");
    assert_eq!(word(build_exec_command(&relative, None).strip_prefix("clear; ").unwrap()), "./it's");
}
