//! Classification and labels.

use moet::classify::{
    assign_labels, classify, is_image_ext, is_text_ext, label_pool, should_have_label, LabelSlot,
};

#[test]
fn image_ext_recognises_common_formats() {
  assert!(is_image_ext("png"));
  assert!(is_image_ext("PNG"));
  assert!(is_image_ext("jpeg"));
  assert!(is_image_ext("svg"));
  assert!(!is_image_ext("txt"));
  assert!(!is_image_ext(""));
}

#[test]
fn text_ext_recognises_source_files() {
  assert!(is_text_ext("rs"));
  assert!(is_text_ext("MD"));
  assert!(is_text_ext("toml"));
  assert!(!is_text_ext("png"));
  assert!(!is_text_ext("xyz"));
}

#[test]
fn label_pool_excludes_reserved_keys() {
  let pool = label_pool();
  for c in ['a', 'c', 'd', 'e', 'l', 'v'] {
    assert!(!pool.contains(&c), "pool must exclude {c}");
  }
  assert!(pool.len() >= 25);
  assert!(pool.contains(&'b'));
  assert!(pool.contains(&'0'));
}

#[test]
fn classify_picks_dir_first() {
  assert_eq!(classify("anything", true, false, 0o755), "dir");
}

#[test]
fn classify_symlink_beats_extension() {
  assert_eq!(classify("photo.png", false, true, 0), "symlink");
}

#[test]
fn classify_readme_caseinsensitive() {
  assert_eq!(classify("README", false, false, 0), "readme");
  assert_eq!(classify("Readme.md", false, false, 0), "readme");
}

#[test]
fn classify_image_ignores_executable_bit() {
  assert_eq!(classify("art.PNG", false, false, 0o755), "image");
}

#[test]
fn classify_executable_overrides_text() {
  assert_eq!(classify("run.sh", false, false, 0o755), "exe");
  assert_eq!(classify("run.sh", false, false, 0o644), "text");
}

#[test]
fn classify_executable_overrides_unmatched() {
  assert_eq!(classify("binary", false, false, 0o755), "exe");
}

#[test]
fn classify_extensionless_nonexec_is_unmatched() {
  assert_eq!(classify("notes", false, false, 0o644), "unmatched");
}

#[test]
fn should_have_label_handles_readme_correctly() {
  assert!(!should_have_label("readme", "README"));
  assert!(should_have_label("readme", "README.md"));
}

#[test]
fn should_have_label_dir_and_unmatched_always_true() {
  assert!(should_have_label("dir", "anything"));
  assert!(should_have_label("symlink", "anything"));
  assert!(should_have_label("exe", "anything"));
  assert!(should_have_label("unmatched", "anything"));
}

struct TestItem {
  name: String,
  label: Option<char>,
  wants: bool,
}
impl LabelSlot for TestItem {
  fn wants_label(&self) -> bool {
    self.wants
  }
  fn label(&self) -> Option<char> {
    self.label
  }
  fn set_label(&mut self, c: char) {
    self.label = Some(c);
  }
}
fn item(name: &str) -> TestItem {
  TestItem {
    name: name.to_string(),
    label: None,
    wants: true,
  }
}

#[test]
fn assign_labels_first_letter_when_available() {
  let mut items = vec![item("foo"), item("bar"), item("zap")];
  assign_labels(&mut items, |i| i.name.as_str());
  assert_eq!(items[0].label, Some('f'));
  assert_eq!(items[1].label, Some('b'));
  assert_eq!(items[2].label, Some('z'));
}

#[test]
fn assign_labels_fills_collisions_from_pool() {
  let mut items = vec![item("foo"), item("foe")];
  assign_labels(&mut items, |i| i.name.as_str());
  assert_eq!(items[0].label, Some('f'));
  assert!(items[1].label.is_some());
  assert_ne!(items[1].label, items[0].label);
}

#[test]
fn assign_labels_skips_reserved_letters() {
  let mut items = vec![item("alpha"), item("delta")];
  assign_labels(&mut items, |i| i.name.as_str());
  assert_ne!(items[0].label, Some('a'));
  assert_ne!(items[1].label, Some('d'));
  assert!(items[0].label.is_some());
  assert!(items[1].label.is_some());
}

#[test]
fn assign_labels_respects_preassigned() {
  let mut items = vec![
    TestItem {
      name: "..".to_string(),
      label: Some('.'),
      wants: true,
    },
    item("foo"),
  ];
  assign_labels(&mut items, |i| i.name.as_str());
  assert_eq!(items[0].label, Some('.'));
  assert_eq!(items[1].label, Some('f'));
}

#[test]
fn assign_labels_skips_items_that_dont_want_one() {
  let mut items = vec![
    item("foo"),
    TestItem {
      name: "skip".to_string(),
      label: None,
      wants: false,
    },
  ];
  assign_labels(&mut items, |i| i.name.as_str());
  assert_eq!(items[0].label, Some('f'));
  assert_eq!(items[1].label, None);
}

#[test]
fn label_pool_is_in_order() {
  let pool: String = label_pool().into_iter().collect();
  assert_eq!(pool, "0123456789bfghijkmnopqrstuwxyz");
}

#[test]
fn case_is_folded_beyond_ascii() {
  assert!(!is_text_ext("\u{130}n\u{130}"));
  assert!(is_text_ext("INI"));
  assert_eq!(classify("xREADMEx.png", false, false, 0), "readme");
  assert_eq!(classify("\u{e9}readm\u{e9}", false, false, 0), "unmatched");
  assert_eq!(classify("\u{df}readme", false, false, 0), "readme");
  assert_eq!(classify("\u{fb06}ReadMe\u{fb06}", false, false, 0), "readme");
  assert_eq!(classify("re\u{1e9a}dme", false, false, 0), "unmatched");
}

#[test]
fn label_needs_a_recognised_extension() {
  assert!(should_have_label("image", "a.TIFF"));
  assert!(should_have_label("text", "a.cpp"));
  assert!(!should_have_label("readme", "readme.xyz"));
  assert!(!should_have_label("image", "png"));
}

#[test]
fn labels_use_the_lowercase_of_ascii_letters_only() {
  let mut items = vec![item("Foo"), item("\u{c9}t\u{e9}"), item("")];
  assign_labels(&mut items, |i| i.name.as_str());
  assert_eq!(items[0].label, Some('f'));
  assert_eq!(items[1].label, Some('0'));
  assert_eq!(items[2].label, Some('1'));
}

#[test]
fn extensions_ignore_case() {
  for ext in ["png", "tiff", "txt", "html", "c", "zip", "", "m\u{212a}v", "md\u{130}"] {
    assert_eq!(is_image_ext(ext), is_image_ext(&ext.to_ascii_uppercase()));
    assert_eq!(is_text_ext(ext), is_text_ext(&ext.to_ascii_uppercase()));
    assert!(!(is_image_ext(ext) && is_text_ext(ext)));
  }
  assert!(is_text_ext("HtMl") && is_image_ext("TiF"));
}

#[test]
fn labels_stay_when_handed_out_again() {
  let mut items = vec![item("foo"), item("fox"), item("alpha"), item("")];
  assign_labels(&mut items, |i| i.name.as_str());
  let first: Vec<Option<char>> = items.iter().map(|i| i.label).collect();
  assign_labels(&mut items, |i| i.name.as_str());
  let second: Vec<Option<char>> = items.iter().map(|i| i.label).collect();
  assert_eq!(first, second);
}

#[test]
fn naming_may_keep_count() {
  let mut asked = 0;
  let mut items = vec![item("foo"), item("bar")];
  assign_labels(&mut items, |i| {
    asked += 1;
    i.name.as_str()
  });
  assert_eq!(asked, 2);
  assert_eq!(items[1].label, Some('b'));
}
