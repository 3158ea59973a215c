//! The state of a session, its keys and pointer, and its watchers.

use std::sync::Arc;

use moet::config::Config;
use moet::input::{
    drop_caption, font_css, key_action, step_font, Hover, HoverStep, Key, KeyAction, KeyPress, INITIAL_FONT_PX,
};
use moet::shell_inject::{
    feed_command, feed_command_async, feed_input_restore, monitor_and_restore_input, Monitor,
    MonitorStep,
};
use moet::state::State;
use moet::watcher::{is_pwd_change, is_relevant, shell_directory, Debounce, EventKind, WatcherCommand};

fn session() -> State {
    let mut state = State::new(Some("/home".to_string()), Arc::new(Config::default()));
    state.set_shell_pid(7);
    state.set_shortcuts(vec![
        (102, "foo".to_string()),
        (46, "..".to_string()),
        (47, "/abs".to_string()),
        (102, "fox".to_string()),
    ]);
    state
}

#[test]
fn session_starts_here_by_default() {
    let mut state = State::new(None, Arc::new(Config::default()));
    assert_eq!(state.get_cd(), ".");
    state.set_cd("/x".to_string());
    assert_eq!(state.get_cd(), "/x");
    assert!(state.shell_pid.is_none());
    assert!(state.shortcuts.is_empty());
}

#[test]
fn shortcuts_name_paths_in_the_directory() {
    let mut state = session();
    assert_eq!(state.shortcut_path(102), Some("/home/fox".to_string()));
    assert_eq!(state.shortcut_path(46), Some("/home/..".to_string()));
    assert_eq!(state.shortcut_path(47), Some("/abs".to_string()));
    assert_eq!(state.shortcut_path(1), None);
    state.set_shortcuts(vec![]);
    assert_eq!(state.shortcut_path(102), None);
}

#[test]
fn busy_is_another_group_in_the_foreground() {
    let state = session();
    assert!(state.is_busy(Some(8)));
    assert!(!state.is_busy(Some(7)));
    assert!(!state.is_busy(None));
    assert!(!State::new(None, Arc::new(Config::default())).is_busy(Some(8)));
}

fn press(key: Key, keyval: u32, ctrl: bool, shift: bool) -> KeyPress {
    KeyPress { key, keyval, ctrl, shift, only_ctrl: ctrl && !shift }
}

fn act(p: KeyPress, foreground: Option<i32>, selection: bool) -> String {
    match key_action(&p, foreground, selection, &session()) {
        KeyAction::Copy => "copy".to_string(),
        KeyAction::Paste => "paste".to_string(),
        KeyAction::Open(path) => format!("open {path}"),
        KeyAction::Swallow => "swallow".to_string(),
        KeyAction::GrowFont => "grow".to_string(),
        KeyAction::ShrinkFont => "shrink".to_string(),
        KeyAction::Pass => "pass".to_string(),
    }
}

#[test]
fn keys() {
    let idle = Some(7);
    let busy = Some(8);
    assert_eq!(act(press(Key::UpperC, 67, true, true), busy, false), "copy");
    assert_eq!(act(press(Key::UpperV, 86, true, true), busy, false), "paste");
    assert_eq!(act(press(Key::LowerV, 118, true, false), busy, false), "pass");
    assert_eq!(act(press(Key::Other, 102, true, true), busy, false), "pass");
    assert_eq!(act(press(Key::Other, 102, true, true), idle, false), "open /home/fox");
    assert_eq!(act(press(Key::LowerV, 118, true, false), idle, false), "paste");
    assert_eq!(act(press(Key::LowerC, 99, true, false), idle, true), "copy");
    assert_eq!(act(press(Key::LowerC, 99, true, false), idle, false), "pass");
    assert_eq!(act(press(Key::Other, 102, true, false), idle, false), "open /home/fox");
    assert_eq!(act(press(Key::Other, 102, true, false), None, false), "open /home/fox");
    assert_eq!(act(press(Key::Other, 102, true, false), busy, false), "pass");
    assert_eq!(act(press(Key::Other, 102, false, false), idle, false), "pass");
    assert_eq!(act(press(Key::LowerQ, 113, true, false), idle, false), "swallow");
    assert_eq!(act(press(Key::LowerQ, 113, true, true), idle, false), "pass");
    assert_eq!(act(press(Key::Equal, 61, true, false), idle, false), "grow");
    assert_eq!(act(press(Key::KeypadAdd, 65451, true, false), idle, false), "grow");
    assert_eq!(act(press(Key::Minus, 45, true, false), idle, false), "shrink");
    assert_eq!(act(press(Key::KeypadSubtract, 65453, true, false), idle, false), "shrink");
    assert_eq!(act(press(Key::Other, 13, false, false), idle, false), "pass");
}

#[test]
fn font_css_names_the_size() {
    assert_eq!(font_css(INITIAL_FONT_PX), "* { font-size: 20px; }");
    assert_eq!(font_css(step_font(INITIAL_FONT_PX, true)), "* { font-size: 21px; }");
    assert_eq!(font_css(step_font(0, false)), "* { font-size: -1px; }");
    assert_eq!(font_css(0), "* { font-size: 0px; }");
    assert_eq!(font_css(-1), "* { font-size: -1px; }");
    assert_eq!(font_css(-2147483648), "* { font-size: -2147483648px; }");
}

#[test]
fn hover_restarts_on_another_image() {
    let mut hover = Hover::new();
    assert_eq!(hover.move_to(None), HoverStep::Same);
    assert_eq!(hover.move_to(Some("a.png".to_string())), HoverStep::Restart);
    assert_eq!(hover.move_to(Some("a.png".to_string())), HoverStep::Same);
    assert_eq!(hover.move_to(Some("b.png".to_string())), HoverStep::Restart);
    assert_eq!(hover.move_to(None), HoverStep::Clear);
    assert_eq!(hover.move_to(Some("b.png".to_string())), HoverStep::Restart);
    hover.leave();
    assert_eq!(hover.move_to(Some("b.png".to_string())), HoverStep::Restart);
}

#[test]
fn drop_captions() {
    let c = drop_caption(Some("a.txt"), Some("/a"), "/b", false);
    assert_eq!((c.title.as_str(), c.detail.as_str(), c.no_effect), ("Move 'a.txt'", "From: /a\nTo: /b", false));
    let c = drop_caption(None, None, "/b", false);
    assert_eq!((c.title.as_str(), c.detail.as_str()), ("Move 'Unknown File'", "From: External Source\nTo: /b"));
    let c = drop_caption(Some("a.txt"), Some("/b"), "/b", true);
    assert_eq!(
        (c.title.as_str(), c.detail.as_str(), c.no_effect),
        ("No Effect", "Source and destination are the same.", true)
    );
}

#[test]
fn relevant_events() {
    for (kind, relevant, pwd) in [
        (EventKind::Any, false, false),
        (EventKind::Access, false, false),
        (EventKind::Create, true, false),
        (EventKind::Modify, true, true),
        (EventKind::Remove, true, false),
        (EventKind::Other, false, false),
    ] {
        assert_eq!(is_relevant(kind), relevant);
        assert_eq!(is_pwd_change(kind), pwd);
    }
    assert_eq!(WatcherCommand::Stop, WatcherCommand::Stop);
    assert_eq!(shell_directory("\u{3000}/home/x \n"), "/home/x");
}

#[test]
fn debounce_drops_events_that_come_too_soon() {
    let mut d = Debounce::new(0);
    assert!(!d.accept(49_999_999));
    assert!(d.accept(50_000_000));
    assert!(!d.accept(99_999_999));
    assert!(d.accept(100_000_000));
    assert!(!d.accept(-5));
    let mut edge = Debounce::new(i64::MIN);
    assert!(edge.accept(i64::MAX));
    assert!(!edge.accept(i64::MIN));
}

#[test]
fn keys_fed_for_a_command() {
    assert_eq!(feed_command_async("cd \u{e9}"), b"\x01 \x05\x15 cd \xc3\xa9\n".to_vec());
    assert_eq!(feed_input_restore(), b"\x19\x01\x04\x05".to_vec());
    assert_eq!(feed_command("ls"), b"\x01 \x05\x15 ls\n\x19\x01\x04\x05".to_vec());
}

#[test]
fn monitor_gives_an_unseen_child_up() {
    let mut m = Monitor::new();
    for _ in 0..10 {
        assert_eq!(monitor_and_restore_input(&mut m, Some(7), Some(7)), MonitorStep::Continue);
    }
    assert_eq!(monitor_and_restore_input(&mut m, Some(7), Some(7)), MonitorStep::Restore);
}

#[test]
fn monitor_waits_for_a_seen_child() {
    let mut m = Monitor::new();
    assert_eq!(monitor_and_restore_input(&mut m, Some(7), Some(7)), MonitorStep::Continue);
    for _ in 0..50 {
        assert_eq!(monitor_and_restore_input(&mut m, Some(7), Some(8)), MonitorStep::Continue);
    }
    assert_eq!(monitor_and_restore_input(&mut m, Some(7), Some(7)), MonitorStep::Restore);
}

#[test]
fn monitor_waits_for_a_child_that_comes_late() {
    let mut m = Monitor::new();
    for _ in 0..10 {
        assert_eq!(monitor_and_restore_input(&mut m, Some(7), Some(7)), MonitorStep::Continue);
    }
    assert_eq!(monitor_and_restore_input(&mut m, Some(7), Some(8)), MonitorStep::Continue);
    assert_eq!(monitor_and_restore_input(&mut m, Some(7), Some(8)), MonitorStep::Continue);
    assert_eq!(monitor_and_restore_input(&mut m, Some(7), Some(7)), MonitorStep::Restore);
}

#[test]
fn directory_is_the_last_one_set() {
    let mut state = session();
    for dir in ["/a", "/b", "/a"] {
        state.set_cd(dir.to_string());
        assert_eq!(state.get_cd(), dir);
        assert_eq!(state.get_cd(), dir);
    }
    assert_eq!(state.shell_pid, Some(7));
}

#[test]
fn monitor_stops_without_shell_or_terminal() {
    let mut m = Monitor::new();
    assert_eq!(monitor_and_restore_input(&mut m, None, Some(7)), MonitorStep::Stop);
    assert_eq!(monitor_and_restore_input(&mut m, Some(7), None), MonitorStep::Stop);
}
