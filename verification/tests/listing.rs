//! The listing, its menu and the grid.

use std::sync::Arc;

use moet::config::Config;
use moet::config::{compile_ignore_pattern, IgnoreRegex};
use moet::listing::{list_entries, FileType, Found};
use moet::menu::{
    label_key, layout, menu_for, render_row, run_ls, shortcut_pairs, MenuItem,
};
use moet::state::State;

fn file(name: &str) -> Found {
    found(name, false, false, 0o644)
}

fn found(name: &str, is_dir: bool, is_symlink: bool, mode: u32) -> Found {
    Found {
        name: name.to_string(),
        file_type: Some(FileType { is_dir, is_symlink }),
        mode: Some(mode),
    }
}

fn names(entries: &Vec<Found>, ignore: Option<&IgnoreRegex>) -> Vec<String> {
    list_entries(entries, ignore).into_iter().map(|e| format!("{} {}", e.style, e.name)).collect()
}

#[test]
fn directories_and_symlinks_come_first() {
    let entries = vec![
        file("b.txt"),
        found("zdir", true, false, 0o755),
        file("B.png"),
        found("alink", false, true, 0o777),
        file("\u{e9}t\u{e9}"),
        found("run", false, false, 0o755),
        Found { name: "odd.txt".to_string(), file_type: None, mode: Some(0o755) },
        Found { name: "bare.sh".to_string(), file_type: Some(FileType { is_dir: false, is_symlink: false }), mode: None },
    ];
    assert_eq!(
        names(&entries, None),
        vec![
            "symlink alink", "dir zdir", "image B.png", "text b.txt", "text bare.sh",
            "unmatched odd.txt", "exe run", "unmatched \u{e9}t\u{e9}",
        ]
    );
}

#[test]
fn hidden_entries_are_left_out() {
    let entries = vec![file(".git"), file("target"), file("targets"), file("a")];
    assert_eq!(names(&entries, None), vec!["unmatched a", "unmatched target", "unmatched targets"]);
    let re = compile_ignore_pattern("node_modules|target").expect("regex");
    assert_eq!(names(&entries, Some(&re)), vec!["unmatched a", "unmatched targets"]);
    let none: Vec<String> = vec![];
    assert_eq!(names(&vec![], None), none);
}

#[test]
fn equal_names_keep_their_order() {
    let entries = vec![found("x", false, false, 0o755), file("x"), file("a"), found("x", false, false, 0o755)];
    assert_eq!(names(&entries, None), vec!["unmatched a", "exe x", "unmatched x", "exe x"]);
}

fn label_of(items: &Vec<MenuItem>, name: &str) -> Option<char> {
    items.iter().find(|i| i.name == name).expect("item").label_char
}

#[test]
fn ls_shows_the_labels_of_the_menu() {
    let entries = vec![file("foo"), file("foe"), file("README"), found("delta", true, false, 0)];
    let items = menu_for(&entries, None);
    assert_eq!(items[0].name, "..");
    assert_eq!(items[0].label_char, Some('.'));
    assert_eq!(label_of(&items, "foe"), Some('f'));
    assert_eq!(label_of(&items, "foo"), Some('1'));
    assert_eq!(label_of(&items, "delta"), Some('0'));
    assert_eq!(label_of(&items, "README"), None);
    assert_eq!(run_ls(&entries, None), vec!["[0] delta", "    README", "[f] foe", "[1] foo"]);
    assert_eq!(
        shortcut_pairs(&items),
        vec![
            ('.', "..".to_string()),
            ('0', "delta".to_string()),
            ('f', "foe".to_string()),
            ('1', "foo".to_string()),
        ]
    );
}

#[test]
fn labels_run_out() {
    let entries: Vec<Found> = (0..40).map(|i| file(&format!("x{i:02}"))).collect();
    let items = menu_for(&entries, None);
    let with_label = items.iter().filter(|i| i.label_char.is_some()).count();
    assert_eq!(with_label, 31);
    for i in 0..items.len() {
        for j in 0..i {
            assert!(items[i].label_char.is_none() || items[i].label_char != items[j].label_char);
        }
    }
}

#[test]
fn grid_runs_down_the_columns() {
    let entries: Vec<Found> = ["a1", "b2", "c3", "d4"].iter().map(|n| file(n)).collect();
    let items = menu_for(&entries, None);
    // The longest item has 6 characters: columns of 8 characters, 80 pixels.
    assert!(layout(&items, 10, 299).is_none());
    let grid = layout(&items, 10, 300).expect("grid");
    assert_eq!((grid.cols, grid.rows, grid.col_width), (3, 2, 8));
    let rows: Vec<Vec<String>> = (0..grid.rows)
        .map(|r| render_row(&items, &grid, r).iter().map(|c| format!("{}{}{}|", c.label, c.name, c.padding)).collect())
        .collect();
    assert_eq!(
        rows,
        vec![
            vec!["[.] .. |", "[b] b2 |", "[2] d4 |"],
            vec!["[0] a1 |", "[1] c3 |"],
        ]
    );
    let narrow = layout(&items, 1000, 300).expect("grid");
    assert_eq!((narrow.cols, narrow.rows), (1, 5));
    let zero = layout(&items, 0, 300).expect("grid");
    assert_eq!((zero.cols, zero.rows), (37, 1));
    assert_eq!(render_row(&items, &zero, 0).len(), 5);
}

#[test]
fn cells_are_padded_to_one_width() {
    let entries = vec![file("long-name.txt"), file("b"), file("\u{e9}")];
    let items = menu_for(&entries, None);
    let grid = layout(&items, 10, 800).expect("grid");
    assert_eq!(grid.col_width, 19);
    for r in 0..grid.rows {
        for cell in render_row(&items, &grid, r) {
            let text = format!("{}{}{}", cell.label, cell.name, cell.padding);
            assert_eq!(text.chars().count() + 1, grid.col_width);
            let item = items.iter().find(|i| i.name == cell.name).expect("item");
            assert_eq!(label_key(&text), item.label_char);
            assert_eq!(cell.style, item.style);
        }
    }
}

#[test]
fn label_key_reads_the_bracketed_character() {
    assert_eq!(label_key("[x] name   "), Some('x'));
    assert_eq!(label_key("[]]"), Some(']'));
    assert_eq!(label_key("    name"), None);
    assert_eq!(label_key("[xy] name"), None);
    assert_eq!(label_key(""), None);
    assert_eq!(label_key("["), None);
    assert_eq!(label_key("ab"), None);
}

#[test]
fn shortcut_opens_its_item() {
    let entries = vec![file("foo"), file("README"), found("delta", true, false, 0)];
    let items = menu_for(&entries, None);
    let mut state = State::new(Some("/home".to_string()), Arc::new(Config::default()));
    state.set_shortcuts(shortcut_pairs(&items).into_iter().map(|(c, name)| (c as u32, name)).collect());
    for item in &items {
        if let Some(label) = item.label_char {
            assert_eq!(state.shortcut_path(label as u32), Some(format!("/home/{}", item.name)));
        }
    }
    assert_eq!(state.shortcuts.len(), 3);
}
