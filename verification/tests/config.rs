//! The configuration and the pattern of hidden names.

use moet::config::{
    anchor_pattern, compile_ignore_pattern, Config, TomlEntry, TomlField, TomlValue, DEFAULT_CONFIG,
};

#[test]
fn ignore_pattern_anchors_full_name() {
  let re = compile_ignore_pattern("Public").expect("regex");
  assert!(re.is_match("Public"));
  assert!(!re.is_match("PublicTwinApp"));
}

#[test]
fn ignore_pattern_trims_whitespace() {
  let re = compile_ignore_pattern("  node_modules  ").expect("regex");
  assert!(re.is_match("node_modules"));
}

#[test]
fn ignore_pattern_rejects_empty() {
  assert!(compile_ignore_pattern("").is_none());
  assert!(compile_ignore_pattern("   ").is_none());
}

#[test]
fn ignore_pattern_supports_alternation() {
  let re = compile_ignore_pattern("node_modules|target|\\.git").expect("regex");
  assert!(re.is_match("node_modules"));
  assert!(re.is_match("target"));
  assert!(re.is_match(".git"));
  assert!(!re.is_match("targets"));
}

#[test]
fn parse_reads_known_field() {
  let (cfg, warnings) = Config::parse(r#"ignore_pattern = "node_modules""#);
  assert!(warnings.is_empty());
  assert!(cfg.ignore_regex.expect("regex").is_match("node_modules"));
}

#[test]
fn parse_supports_literal_strings_for_regex() {
  let (cfg, warnings) = Config::parse(r"ignore_pattern = 'node_modules|target|\.git'");
  assert!(warnings.is_empty());
  let re = cfg.ignore_regex.expect("regex");
  assert!(re.is_match(".git"));
  assert!(re.is_match("target"));
}

#[test]
fn parse_warns_on_invalid_toml() {
  let (cfg, warnings) = Config::parse("not = = valid");
  assert!(cfg.ignore_regex.is_none());
  assert_eq!(warnings.len(), 1);
  assert!(warnings[0].contains("not valid TOML"));
}

#[test]
fn parse_warns_on_unknown_key() {
  let (cfg, warnings) = Config::parse(r#"surprise = "feature""#);
  assert!(cfg.ignore_regex.is_none());
  assert_eq!(warnings.len(), 1);
  assert!(warnings[0].contains("unknown config key 'surprise'"));
}

#[test]
fn parse_warns_on_wrong_value_type() {
  let (cfg, warnings) = Config::parse("ignore_pattern = 42");
  assert!(cfg.ignore_regex.is_none());
  assert_eq!(warnings.len(), 1);
  assert!(warnings[0].contains("must be a string"));
}

#[test]
fn parse_missing_field_returns_default() {
  let (cfg, warnings) = Config::parse("");
  assert!(cfg.ignore_regex.is_none());
  assert!(warnings.is_empty());
}

#[test]
fn parse_reads_handlers_table() {
  let (cfg, warnings) = Config::parse(
    r#"
[handlers]
pdf = "zathura --fork"
ZIP = "engrampa"
"#,
  );
  assert!(warnings.is_empty(), "{warnings:?}");
  assert_eq!(cfg.handler_for_ext("pdf"), Some("zathura --fork"));
  assert_eq!(cfg.handler_for_ext("zip"), Some("engrampa"));
  assert_eq!(cfg.handler_for_ext("PDF"), Some("zathura --fork"));
  assert_eq!(cfg.handler_for_ext("missing"), None);
}

#[test]
fn parse_warns_on_handlers_table_with_non_string_value() {
  let (cfg, warnings) = Config::parse(
    r#"
[handlers]
pdf = 42
"#,
  );
  assert_eq!(cfg.handlers.len(), 0);
  assert_eq!(warnings.len(), 1);
  assert!(warnings[0].contains("handlers.pdf"));
}

#[test]
fn parse_warns_when_handlers_is_not_a_table() {
  let (cfg, warnings) = Config::parse(r#"handlers = "oops""#);
  assert_eq!(cfg.handlers.len(), 0);
  assert_eq!(warnings.len(), 1);
  assert!(warnings[0].contains("must be a table"));
}

#[test]
fn default_config_parses_without_warnings() {
  let (cfg, warnings) = Config::parse(DEFAULT_CONFIG);
  assert!(
    warnings.is_empty(),
    "DEFAULT_CONFIG produced warnings: {warnings:?}"
  );
  assert!(
    cfg.ignore_regex.is_some(),
    "DEFAULT_CONFIG should set ignore_regex"
  );
}

#[test]
fn ignore_pattern_is_anchored_and_checked() {
    assert_eq!(anchor_pattern(" a|b\t"), Some("^(?:a|b)$".to_string()));
    assert_eq!(anchor_pattern("\u{3000}"), None);
    assert_eq!(compile_ignore_pattern("a|b").expect("regex").as_str(), "^(?:a|b)$");
    assert!(compile_ignore_pattern("(").is_none());
    assert!(compile_ignore_pattern("a)|(?:b").is_none());
    assert!(compile_ignore_pattern(" (a))|((b) ").is_none());
    assert!(compile_ignore_pattern("(?x)a # )").is_none());
    assert!(compile_ignore_pattern("(a|b)").expect("regex").is_match("b"));
    assert!(!compile_ignore_pattern("(a|b)").expect("regex").is_match("bc"));
    assert!(compile_ignore_pattern(r"a\)b[)]").expect("regex").is_match("a)b)"));
    let re = compile_ignore_pattern(r"a|\.b|").expect("regex");
    assert!(re.is_match("a") && re.is_match(".b") && re.is_match(""));
    assert!(!re.is_match("xb") && !re.is_match("a\n") && !re.is_match("A"));
    let re = compile_ignore_pattern("[0-9]+").expect("regex");
    assert!(re.is_match("42") && !re.is_match("42a"));
}

#[test]
fn long_plain_pattern_compiles() {
    let words = vec!["a_b9|"; 198].concat();
    assert!(compile_ignore_pattern(&words).expect("regex").is_match("a_b9"));
}

#[test]
fn load_without_a_file_is_the_default() {
    let (cfg, warnings) = Config::load(None);
    assert!(cfg.ignore_regex.is_none() && cfg.handlers.is_empty() && warnings.is_empty());
    let (cfg, warnings) = Config::load(Some("ignore_pattern = 'x'\nother = 1\nhandlers = {a = 1, b = 'c'}"));
    assert!(cfg.ignore_regex.expect("regex").is_match("x"));
    assert_eq!(cfg.handlers.len(), 1);
    assert_eq!(
        warnings,
        vec![
            "config key 'handlers.a' must be a string, ignoring",
            "unknown config key 'other', ignoring",
        ]
    );
}

#[test]
fn warnings_name_the_fault() {
    let (_, warnings) = Config::parse("ignore_pattern = []\nhandlers = 2024-01-01");
    assert_eq!(
        warnings,
        vec![
            "config key 'handlers' must be a table, ignoring",
            "config key 'ignore_pattern' must be a string, ignoring",
        ]
    );
    let (_, warnings) = Config::parse("=");
    assert!(warnings[0].starts_with("~/.config/moet/moet.conf is not valid TOML, using defaults: TOML parse error"));
}

#[test]
fn later_key_of_the_handlers_table_wins() {
    let (cfg, warnings) = Config::parse("[handlers]\npdf = 'lower'\nPDF = 'upper'\n");
    assert!(warnings.is_empty());
    assert_eq!(cfg.handler_for_ext("Pdf"), Some("lower"));
}

#[test]
fn document_is_read_key_by_key() {
    let entry = |key: &str, value: TomlValue| TomlEntry { key: key.to_string(), value };
    let doc = Ok(Some(vec![
        entry("ignore_pattern", TomlValue::Text("a".to_string())),
        entry("handlers", TomlValue::Table(vec![
            TomlField { key: "\u{c9}".to_string(), text: Some("one".to_string()) },
            TomlField { key: "x".to_string(), text: None },
        ])),
        entry("handlers", TomlValue::Other),
        entry("ignore_pattern", TomlValue::Text("  ".to_string())),
        entry("odd", TomlValue::Other),
    ]));
    let (cfg, warnings) = Config::from_document(doc);
    assert!(cfg.ignore_regex.is_none());
    assert_eq!(cfg.handler_for_ext("\u{e9}"), Some("one"));
    assert_eq!(warnings.len(), 3);
    let (_, warnings) = Config::from_document(Err("boom".to_string()));
    assert_eq!(warnings, vec!["~/.config/moet/moet.conf is not valid TOML, using defaults: boom"]);
    let (_, warnings) = Config::from_document(Ok(None));
    assert!(warnings.is_empty());
}

#[test]
fn document_that_is_no_table_is_the_default() {
    let (cfg, warnings) = Config::parse("\"$__toml_private_datetime\" = \"1979-05-27\"");
    assert!(cfg.ignore_regex.is_none() && cfg.handlers.is_empty() && warnings.is_empty());
}
