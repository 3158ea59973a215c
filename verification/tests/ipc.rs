//! The messages between sessions.

use std::sync::Arc;

use moet::config::Config;
use moet::ipc::{
    decide_move, get_dir_request, inherited_directory, move_refusal, move_reply, read_request,
    serve, socket_path, Request, Step,
};
use moet::state::State;

fn state() -> State {
    State::new(Some("/hom\u{e9}".to_string()), Arc::new(Config::default()))
}

fn reply(message: &[u8]) -> Option<Vec<u8>> {
    match serve(message, &state()) {
        Step::Reply { bytes } => Some(bytes),
        Step::Move { .. } => None,
    }
}

#[test]
fn directory_is_given_for_get_dir_and_anything_unknown() {
    assert_eq!(get_dir_request(), b"GET_DIR".to_vec());
    assert_eq!(reply(&get_dir_request()), Some("/hom\u{e9}".as_bytes().to_vec()));
    assert_eq!(reply(b""), Some("/hom\u{e9}".as_bytes().to_vec()));
    assert_eq!(reply(b"MOVE_FIL"), Some("/hom\u{e9}".as_bytes().to_vec()));
    assert_eq!(reply(b"\xff\xfe"), Some("/hom\u{e9}".as_bytes().to_vec()));
}

#[test]
fn move_requests_are_split_at_the_first_colon() {
    match read_request(b"MOVE_FILE:/a/b.txt:/c:d") {
        Request::Move { source, target_dir } => {
            assert_eq!(source, "/a/b.txt");
            assert_eq!(target_dir, "/c:d");
        }
        _ => panic!("a move"),
    }
    match read_request(b"MOVE_FILE:\xff:x") {
        Request::Move { source, target_dir } => {
            assert_eq!(source, "\u{fffd}");
            assert_eq!(target_dir, "x");
        }
        _ => panic!("a move"),
    }
    assert!(matches!(read_request(b"MOVE_FILE:/a/b.txt"), Request::Malformed));
    assert_eq!(reply(b"MOVE_FILE:"), Some(b"ERROR:Invalid message format".to_vec()));
    assert_eq!(reply(b"MOVE_FILE:a:b"), None);
}

#[test]
fn refused_and_tried_moves_are_answered() {
    let same = decide_move("/a/b", "/a", None, None);
    assert_eq!(move_refusal(&same), Some(b"ERROR:Same directory".to_vec()));
    let invalid = decide_move("/a/..", "/c", None, None);
    assert_eq!(move_refusal(&invalid), Some(b"ERROR:Invalid filename".to_vec()));
    let moved = decide_move("/a/b", "/c", None, None);
    assert_eq!(move_refusal(&moved), None);
    assert_eq!(move_reply(None), b"OK:File moved".to_vec());
    assert_eq!(move_reply(Some("denied")), b"ERROR:denied".to_vec());
}

#[test]
fn joining_session_inherits_the_directory() {
    let answer = String::from_utf8(reply(&get_dir_request()).expect("reply")).expect("utf-8");
    assert_eq!(inherited_directory(&answer), Some("/hom\u{e9}".to_string()));
    assert_eq!(inherited_directory(" /x\n"), Some("/x".to_string()));
    assert_eq!(inherited_directory(""), None);
    assert_eq!(inherited_directory(" \n"), Some(String::new()));
}

#[test]
fn socket_is_named_after_the_process() {
    assert_eq!(socket_path(0), "/tmp/moet-0.sock");
    assert_eq!(socket_path(90817), "/tmp/moet-90817.sock");
    assert_eq!(socket_path(4294967295), "/tmp/moet-4294967295.sock");
}
