//! Reading the configuration: the TOML document, its warnings, and the
//! pattern of names to hide.
//!
//! Validation policy: unknown keys and invalid value types warn and fall back
//! to the default. A document that does not parse warns and falls back to the
//! default. Loading is never fatal.

use crate::paths;
use crate::text;
use vstd::hash_map::StringHashMap;
use vstd::prelude::*;

verus! {

/// The file written on first run.
pub const DEFAULT_CONFIG: &'static str = r#"# moet configuration file (TOML).
#
# Reset to defaults:
#   moet --print-default-config > ~/.config/moet/moet.conf
#
# Tip: use TOML *literal* strings (single quotes) for regex values so you
# don't have to double-escape backslashes — write '\.git', not "\\.git".

# Filenames matching this regex are hidden from the listing. Anchored to
# the full filename; uses Rust regex syntax. Set to '' to disable.
ignore_pattern = 'node_modules|target|\.git'

# Per-extension handler overrides. Maps a lowercase extension to the
# command run when that file type is selected. Without an override, text
# files open in $EDITOR (fallback nano) and everything else opens with
# xdg-open. Values may include flags (e.g. "zathura --fork").
# [handlers]
# pdf = "zathura"
# md  = "code"
# zip = "engrampa"
"#;

/// Whether the `regex` crate compiles a pattern.
pub uninterp spec fn regex_accepts(pattern: Seq<char>) -> bool;

/// Whether the `regex` crate finds a match of a pattern in a text.
pub uninterp spec fn regex_finds(pattern: Seq<char>, haystack: Seq<char>) -> bool;

pub open spec fn word_char(c: char) -> bool {
    'a' <= c <= 'z' || 'A' <= c <= 'Z' || '0' <= c <= '9' || c == '_'
}

/// A character of a pattern that stands for itself: a word character, a bar, or
/// one half of an escaped dot.
pub open spec fn plain_at(p: Seq<char>, i: int) -> bool {
    ||| word_char(p[i])
    ||| p[i] == '|'
    ||| p[i] == '\\' && i + 1 < p.len() && p[i + 1] == '.'
    ||| p[i] == '.' && i > 0 && p[i - 1] == '\\'
}

/// A pattern of plain words, in which dots are escaped, with bars between them.
pub open spec fn plain_pattern(p: Seq<char>) -> bool {
    forall|i: int| 0 <= i < p.len() ==> #[trigger] plain_at(p, i)
}

/// A pattern of plain words with its dots no longer escaped.
pub open spec fn unescaped(p: Seq<char>) -> Seq<char> {
    p.filter(|c: char| c != '\\')
}

/// The words of a pattern of plain words.
pub open spec fn plain_words(p: Seq<char>) -> Seq<Seq<char>> {
    alternatives(unescaped(p))
}

/// What stands between the bars of `p`.
pub open spec fn alternatives(p: Seq<char>) -> Seq<Seq<char>>
    decreases p.len(),
{
    let bar = text::first_at(p, '|');
    if 0 <= bar < p.len() {
        seq![p.take(bar)] + alternatives(p.skip(bar + 1))
    } else {
        seq![p]
    }
}

/// `p` anchored at both ends.
pub open spec fn anchored(p: Seq<char>) -> Seq<char> {
    "^(?:"@ + p + ")$"@
}

/// What [`anchored`] has put its anchors around.
pub open spec fn unanchored(pattern: Seq<char>) -> Seq<char> {
    pattern.subrange(4, pattern.len() - 2)
}

/// An anchored pattern of plain words.
pub open spec fn plain_anchored(pattern: Seq<char>) -> bool {
    &&& pattern.len() >= 6
    &&& plain_pattern(unanchored(pattern))
    &&& pattern == anchored(unanchored(pattern))
}

/// No pattern of this length is near the size limit of the `regex` crate.
pub const SMALL_PATTERN: usize = 1000;

/// A short pattern of plain words, anchored or not.
pub open spec fn small_plain(pattern: Seq<char>) -> bool {
    pattern.len() <= SMALL_PATTERN && (plain_pattern(pattern) || plain_anchored(pattern))
}

/// In `p`, of which `depth` groups are open already, a group is closed that was
/// not opened. Nothing is said from the first escape, character class or
/// comment on, in which a parenthesis may stand for something else.
pub open spec fn closes_unopened(p: Seq<char>, depth: nat) -> bool
    decreases p.len(),
{
    if p.len() == 0 || p[0] == '\\' || p[0] == '[' || p[0] == '#' {
        false
    } else if p[0] == '(' {
        closes_unopened(p.drop_first(), depth + 1)
    } else if p[0] == ')' {
        depth == 0 || closes_unopened(p.drop_first(), (depth - 1) as nat)
    } else {
        closes_unopened(p.drop_first(), depth)
    }
}

/// Whether a pattern compiles. Plain words do, and a pattern that closes a
/// group too many does not.
pub open spec fn regex_valid(pattern: Seq<char>) -> bool {
    small_plain(pattern) || (!closes_unopened(pattern, 0) && regex_accepts(pattern))
}

/// Whether a pattern matches a text. An anchored pattern of plain words
/// matches these words and nothing else.
pub open spec fn regex_match(pattern: Seq<char>, haystack: Seq<char>) -> bool {
    if plain_anchored(pattern) {
        plain_words(unanchored(pattern)).contains(haystack)
    } else {
        regex_finds(pattern, haystack)
    }
}

/// `regex::Regex::new`: whether the pattern compiles. Word characters, escaped
/// dots and bars do, also in a group between anchors. A closing parenthesis
/// without an opening one does not. Of other patterns this is left to the name.
#[verifier::external_body]
fn regex_compiles(pattern: &str) -> (r: bool)
    ensures
        small_plain(pattern@) ==> r,
        !small_plain(pattern@) && closes_unopened(pattern@, 0) ==> !r,
        !small_plain(pattern@) && !closes_unopened(pattern@, 0) ==> r == regex_accepts(pattern@),
{
    regex::Regex::new(pattern).is_ok()
}

/// `regex::Regex::is_match`: whether the pattern, which compiles, matches
/// somewhere in the haystack. Between `^` and `$` that is the whole haystack,
/// a plain word matches itself, an escaped dot a dot, and a bar parts what may
/// stand there; what other patterns match is left to the name.
#[verifier::external_body]
fn regex_is_match(pattern: &str, haystack: &str) -> (r: bool)
    requires
        regex_valid(pattern@),
    ensures
        plain_anchored(pattern@) ==> r == plain_words(unanchored(pattern@)).contains(haystack@),
        !plain_anchored(pattern@) ==> r == regex_finds(pattern@, haystack@),
{
    match regex::Regex::new(pattern) {
        Ok(re) => re.is_match(haystack),
        Err(_) => false,
    }
}

/// A pattern that compiles.
pub struct IgnoreRegex {
    pattern: String,
}

impl View for IgnoreRegex {
    type V = Seq<char>;

    closed spec fn view(&self) -> Seq<char> {
        self.pattern@
    }
}

impl IgnoreRegex {
    #[verifier::type_invariant]
    spec fn compiles(self) -> bool {
        regex_valid(self.pattern@)
    }

    /// Whether the pattern matches `name`.
    pub fn is_match(&self, name: &str) -> (r: bool)
        ensures
            r == regex_match(self@, name@),
    {
        proof {
            use_type_invariant(&*self);
        }
        regex_is_match(self.pattern.as_str(), name)
    }

    /// The pattern, anchors included.
    pub fn as_str(&self) -> (r: &str)
        ensures
            r@ == self@,
    {
        self.pattern.as_str()
    }
}

/// The anchored form of `raw`, if anything is in it but white space.
pub open spec fn anchored_pattern(raw: Seq<char>) -> Option<Seq<char>> {
    if text::trimmed(raw).len() == 0 {
        None
    } else {
        Some(anchored(text::trimmed(raw)))
    }
}

/// The pattern that `raw` stands for, if it stands for one. It compiles between
/// the anchors and by itself: else what stands between the anchors could end
/// the group around it, and match a part of a name.
pub open spec fn ignore_pattern(raw: Seq<char>) -> Option<Seq<char>> {
    match anchored_pattern(raw) {
        Some(pattern) => if regex_valid(text::trimmed(raw)) && regex_valid(pattern) {
            Some(pattern)
        } else {
            None
        },
        None => None,
    }
}

pub open spec fn regex_view(re: Option<IgnoreRegex>) -> Option<Seq<char>> {
    match re {
        Some(re) => Some(re@),
        None => None,
    }
}

/// Anchor a pattern so that it must match the full filename: without this,
/// `Public` would match `PublicTwinApp`. White space around the pattern does
/// not count, and an empty one is none.
pub fn anchor_pattern(raw: &str) -> (r: Option<String>)
    ensures
        paths::opt_view(r) == anchored_pattern(raw@),
{
    let pattern = raw.trim();
    if pattern.is_empty() {
        return None;
    }
    let mut out = "^(?:".to_owned();
    out.push_str(pattern);
    out.push_str(")$");
    Some(out)
}

/// Compile a regex pattern, anchored to the full filename. A pattern that does
/// not compile without the anchors is refused: `a)|(?:b` would end the group
/// between them, and match at one end only.
pub fn compile_ignore_pattern(raw: &str) -> (r: Option<IgnoreRegex>)
    ensures
        regex_view(r) == ignore_pattern(raw@),
{
    match anchor_pattern(raw) {
        Some(pattern) => if regex_compiles(raw.trim()) && regex_compiles(pattern.as_str()) {
            Some(IgnoreRegex { pattern })
        } else {
            None
        },
        None => None,
    }
}

/// A pattern of plain words, such as `node_modules|target|\.git`, white space
/// around it or not, matches exactly the names that are one of the words. One
/// that is not too long for the `regex` crate is sure to compile.
pub proof fn law_plain_pattern_matches_whole_names(raw: Seq<char>, name: Seq<char>)
    requires
        plain_pattern(text::trimmed(raw)),
    ensures
        0 < text::trimmed(raw).len() <= SMALL_PATTERN - 6 ==> ignore_pattern(raw) is Some,
        ignore_pattern(raw) is Some ==> regex_match(ignore_pattern(raw)->0, name) == plain_words(
            text::trimmed(raw),
        ).contains(name),
{
    let p = text::trimmed(raw);
    reveal_strlit("^(?:");
    reveal_strlit(")$");
    assert(unanchored(anchored(p)) =~= p);
}

proof fn lemma_closes_after(p: Seq<char>, tail: Seq<char>, depth: nat)
    requires
        forall|i: int| 0 <= i < p.len() ==> #[trigger] p[i] != ')' && p[i] != '(',
        !closes_unopened(tail, depth),
    ensures
        !closes_unopened(p + tail, depth),
    decreases p.len(),
{
    let all = p + tail;
    if p.len() == 0 {
        assert(all =~= tail);
    } else {
        let rest = p.drop_first();
        assert forall|i: int| 0 <= i < rest.len() implies #[trigger] rest[i] != ')' && rest[i]
            != '(' by {
            assert(rest[i] == p[i + 1]);
        }
        lemma_closes_after(rest, tail, depth);
        assert(all.drop_first() =~= rest + tail);
        assert(all[0] == p[0]);
    }
}

proof fn lemma_anchored_closes_nothing(pattern: Seq<char>)
    requires
        plain_anchored(pattern),
    ensures
        !closes_unopened(pattern, 0),
{
    let p = unanchored(pattern);
    reveal_strlit("^(?:");
    reveal_strlit(")$");
    let end = seq!['$'];
    assert(end.drop_first() =~= Seq::<char>::empty());
    assert(!closes_unopened(end, 0)) by {
        reveal_with_fuel(closes_unopened, 2);
    }
    let tail = seq![')', '$'];
    assert(tail.drop_first() =~= end);
    assert(!closes_unopened(tail, 1));
    assert forall|i: int| 0 <= i < p.len() implies #[trigger] p[i] != ')' && p[i] != '(' by {
        assert(plain_at(p, i));
    }
    let body = seq!['?', ':'] + p;
    assert forall|i: int| 0 <= i < body.len() implies #[trigger] body[i] != ')' && body[i]
        != '(' by {
        if i >= 2 {
            assert(body[i] == p[i - 2]);
        }
    }
    lemma_closes_after(body, tail, 1);
    let group = seq!['('] + (body + tail);
    assert(group.drop_first() =~= body + tail);
    assert(!closes_unopened(group, 0));
    assert(pattern =~= seq!['^'] + group);
    assert(pattern.drop_first() =~= group);
}

/// A pattern that closes a group too many, such as `a)|(?:b`, is refused: what
/// it holds cannot step out of the group between the anchors.
pub proof fn law_pattern_stays_between_the_anchors(raw: Seq<char>)
    requires
        closes_unopened(text::trimmed(raw), 0),
    ensures
        ignore_pattern(raw) is None,
{
    let p = text::trimmed(raw);
    if small_plain(p) {
        if plain_pattern(p) {
            let none = Seq::<char>::empty();
            assert forall|i: int| 0 <= i < p.len() implies #[trigger] p[i] != ')' && p[i]
                != '(' by {
                assert(plain_at(p, i));
            }
            lemma_closes_after(p, none, 0);
            assert(p + none =~= p);
        } else {
            lemma_anchored_closes_nothing(p);
        }
    }
}

/// One key of a TOML table inside the document: its text, if its value is a
/// string.
pub struct TomlField {
    pub key: String,
    pub text: Option<String>,
}

/// What is read off a value at the top of a TOML document.
pub enum TomlValue {
    Text(String),
    Table(Vec<TomlField>),
    /// An integer, a float, a boolean, a date or an array.
    Other,
}

/// One key at the top of a TOML document.
pub struct TomlEntry {
    pub key: String,
    pub value: TomlValue,
}

/// A [`TomlField`] in a contract.
pub struct FieldView {
    pub key: Seq<char>,
    pub text: Option<Seq<char>>,
}

/// A [`TomlValue`] in a contract.
pub enum ValueView {
    Text(Seq<char>),
    Table(Seq<FieldView>),
    Other,
}

/// A [`TomlEntry`] in a contract.
pub struct EntryView {
    pub key: Seq<char>,
    pub value: ValueView,
}

impl View for TomlField {
    type V = FieldView;

    open spec fn view(&self) -> FieldView {
        FieldView { key: self.key@, text: paths::opt_view(self.text) }
    }
}

pub open spec fn fields_view(fields: Seq<TomlField>) -> Seq<FieldView> {
    fields.map_values(|f: TomlField| f@)
}

impl View for TomlEntry {
    type V = EntryView;

    open spec fn view(&self) -> EntryView {
        EntryView {
            key: self.key@,
            value: match self.value {
                TomlValue::Text(s) => ValueView::Text(s@),
                TomlValue::Table(fields) => ValueView::Table(fields_view(fields@)),
                TomlValue::Other => ValueView::Other,
            },
        }
    }
}

pub open spec fn entries_view(entries: Seq<TomlEntry>) -> Seq<EntryView> {
    entries.map_values(|e: TomlEntry| e@)
}

pub open spec fn document_view(doc: Result<Option<Vec<TomlEntry>>, String>) -> Result<
    Option<Seq<EntryView>>,
    Seq<char>,
> {
    match doc {
        Ok(Some(entries)) => Ok(Some(entries_view(entries@))),
        Ok(None) => Ok(None),
        Err(message) => Err(message@),
    }
}

/// What the `toml` crate makes of a text: the keys at the top of the document
/// sorted by name, nothing where the document is no table, or the message of
/// the error.
pub uninterp spec fn toml_document(content: Seq<char>) -> Result<
    Option<Seq<EntryView>>,
    Seq<char>,
>;

/// `toml::Value`'s `from_str`: the parsed document, or the error's message.
/// Which texts parse, and to what, is left to the name.
#[verifier::external_body]
fn parse_toml(content: &str) -> (r: Result<Option<Vec<TomlEntry>>, String>)
    ensures
        document_view(r) == toml_document(content@),
{
    let entry = |(key, value): (String, toml::Value)| TomlEntry { key, value: match value {
        toml::Value::String(s) => TomlValue::Text(s),
        toml::Value::Table(t) => TomlValue::Table(t.into_iter().map(|(key, v)|
            TomlField { key, text: v.as_str().map(str::to_string) }).collect()),
        _ => TomlValue::Other,
    } };
    match content.parse::<toml::Value>() {
        Ok(toml::Value::Table(t)) => Ok(Some(t.into_iter().map(entry).collect())),
        Ok(_) => Ok(None),
        Err(e) => Err(e.to_string()),
    }
}

/// The configuration.
pub struct Config {
    /// Names that match are hidden from the listing.
    pub ignore_regex: Option<IgnoreRegex>,
    /// Lowercase extension to the command to run. The command may hold
    /// arguments (e.g. `"zathura --fork"`); for external launches it is
    /// split on whitespace, for inline shell commands it is fed verbatim.
    pub handlers: StringHashMap<String>,
}

/// A [`Config`] in a contract.
#[verifier::ext_equal]
pub struct ConfigView {
    pub ignore: Option<Seq<char>>,
    pub handlers: Map<Seq<char>, Seq<char>>,
}

impl View for Config {
    type V = ConfigView;

    open spec fn view(&self) -> ConfigView {
        ConfigView {
            ignore: regex_view(self.ignore_regex),
            handlers: self.handlers@.map_values(|s: String| s@),
        }
    }
}

/// A configuration and the warnings that reading it gave.
#[verifier::ext_equal]
pub struct Outcome {
    pub config: ConfigView,
    pub warnings: Seq<Seq<char>>,
}

impl Outcome {
    pub open spec fn warn(self, warning: Seq<char>) -> Outcome {
        Outcome { warnings: self.warnings.push(warning), ..self }
    }

    /// After one key of the `[handlers]` table.
    pub open spec fn with_handler(self, field: FieldView) -> Outcome {
        match field.text {
            Some(cmd) => Outcome {
                config: ConfigView {
                    handlers: self.config.handlers.insert(text::lowercase(field.key), cmd),
                    ..self.config
                },
                ..self
            },
            None => self.warn(
                "config key 'handlers."@ + field.key + "' must be a string, ignoring"@,
            ),
        }
    }

    pub open spec fn with_handlers(self, fields: Seq<FieldView>) -> Outcome
        decreases fields.len(),
    {
        if fields.len() == 0 {
            self
        } else {
            self.with_handlers(fields.drop_last()).with_handler(fields.last())
        }
    }

    /// After one key at the top of the document.
    pub open spec fn with_entry(self, entry: EntryView) -> Outcome {
        if entry.key == "ignore_pattern"@ {
            match entry.value {
                ValueView::Text(raw) => Outcome {
                    config: ConfigView { ignore: ignore_pattern(raw), ..self.config },
                    ..self
                },
                _ => self.warn("config key 'ignore_pattern' must be a string, ignoring"@),
            }
        } else if entry.key == "handlers"@ {
            match entry.value {
                ValueView::Table(fields) => self.with_handlers(fields),
                _ => self.warn("config key 'handlers' must be a table, ignoring"@),
            }
        } else {
            self.warn("unknown config key '"@ + entry.key + "', ignoring"@)
        }
    }

    pub open spec fn with_entries(self, entries: Seq<EntryView>) -> Outcome
        decreases entries.len(),
    {
        if entries.len() == 0 {
            self
        } else {
            self.with_entries(entries.drop_last()).with_entry(entries.last())
        }
    }
}

/// No pattern, no handlers, no warnings.
pub open spec fn nothing_read() -> Outcome {
    Outcome {
        config: ConfigView { ignore: None, handlers: Map::empty() },
        warnings: seq![],
    }
}

/// What reading a document gives: key by key, and the default with one warning
/// where the text is not TOML.
pub open spec fn config_of(doc: Result<Option<Seq<EntryView>>, Seq<char>>) -> Outcome {
    match doc {
        Ok(Some(entries)) => nothing_read().with_entries(entries),
        Ok(None) => nothing_read(),
        Err(message) => nothing_read().warn(
            "~/.config/moet/moet.conf is not valid TOML, using defaults: "@ + message,
        ),
    }
}

pub open spec fn outcome_of(config: Config, warnings: Seq<String>) -> Outcome {
    Outcome { config: config@, warnings: text::views(warnings) }
}

/// `a`, `b` and `c` in one string.
fn joined_text(a: &str, b: &str, c: &str) -> (r: String)
    ensures
        r@ == a@ + b@ + c@,
{
    let mut out = a.to_owned();
    out.push_str(b);
    out.push_str(c);
    out
}

impl Default for Config {
    fn default() -> (r: Config)
        ensures
            r@ == nothing_read().config,
    {
        let r = Config { ignore_regex: None, handlers: StringHashMap::new() };
        assert(r@.handlers =~= Map::<Seq<char>, Seq<char>>::empty());
        r
    }
}

impl Config {
    /// Lookup a handler override for a given extension (case-insensitive).
    pub fn handler_for_ext(&self, ext: &str) -> (r: Option<&str>)
        ensures
            paths::opt_str_view(r) == handler_for(self@, ext@),
    {
        match self.handlers.get(ext.to_lowercase().as_str()) {
            Some(cmd) => Some(cmd.as_str()),
            None => None,
        }
    }

    /// The configuration for what was read of the configuration file, and the
    /// warnings. No file gives the default and no warning: that is the
    /// first-run case.
    pub fn load(content: Option<&str>) -> (r: (Config, Vec<String>))
        ensures
            outcome_of(r.0, r.1@) == match content {
                Some(text) => config_of(toml_document(text@)),
                None => nothing_read(),
            },
    {
        match content {
            Some(text) => Config::parse(text),
            None => {
                let r: (Config, Vec<String>) = (Config::default(), Vec::new());
                assert(text::views(r.1@) =~= Seq::<Seq<char>>::empty());
                r
            },
        }
    }

    /// Parse a TOML config string into a Config plus a list of warnings.
    pub fn parse(content: &str) -> (r: (Config, Vec<String>))
        ensures
            outcome_of(r.0, r.1@) == config_of(toml_document(content@)),
    {
        Config::from_document(parse_toml(content))
    }

    /// The configuration that a parsed document stands for, and the warnings.
    pub fn from_document(doc: Result<Option<Vec<TomlEntry>>, String>) -> (r: (Config, Vec<String>))
        ensures
            outcome_of(r.0, r.1@) == config_of(document_view(doc)),
    {
        let mut warnings: Vec<String> = Vec::new();
        let mut cfg = Config::default();
        assert(outcome_of(cfg, warnings@) =~= nothing_read());
        let entries = match doc {
            Ok(Some(entries)) => entries,
            Ok(None) => return (cfg, warnings),
            Err(message) => {
                warnings.push(
                    joined_text(
                        "~/.config/moet/moet.conf is not valid TOML, using defaults: ",
                        message.as_str(),
                        "",
                    ),
                );
                proof {
                    reveal_strlit("");
                    let head = "~/.config/moet/moet.conf is not valid TOML, using defaults: "@;
                    assert(head + message@ + ""@ =~= head + message@);
                    assert(outcome_of(cfg, warnings@) =~= nothing_read().warn(head + message@));
                }
                return (cfg, warnings);
            },
        };
        let ghost keys = entries_view(entries@);
        let mut i: usize = 0;
        assert(keys.take(0) =~= Seq::<EntryView>::empty());
        while i < entries.len()
            invariant
                i <= entries@.len(),
                keys == entries_view(entries@),
                outcome_of(cfg, warnings@) == nothing_read().with_entries(keys.take(i as int)),
            decreases entries@.len() - i,
        {
            proof {
                assert(keys.take(i + 1).drop_last() =~= keys.take(i as int));
                assert(keys.take(i + 1).last() == entries@[i as int]@);
            }
            read_entry(&mut cfg, &mut warnings, &entries[i]);
            i += 1;
        }
        assert(keys.take(i as int) =~= keys);
        (cfg, warnings)
    }
}

/// The command that a configuration sets for an extension, in whatever case.
pub open spec fn handler_for(config: ConfigView, ext: Seq<char>) -> Option<Seq<char>> {
    let key = text::lowercase(ext);
    if config.handlers.contains_key(key) {
        Some(config.handlers[key])
    } else {
        None
    }
}

fn warn(warnings: &mut Vec<String>, warning: String)
    ensures
        text::views(final(warnings)@) == text::views(old(warnings)@).push(warning@),
{
    let ghost before = text::views(warnings@);
    warnings.push(warning);
    assert(text::views(warnings@) =~= before.push(warning@));
}

fn read_entry(cfg: &mut Config, warnings: &mut Vec<String>, entry: &TomlEntry)
    ensures
        outcome_of(*final(cfg), final(warnings)@) == outcome_of(*old(cfg), old(warnings)@).with_entry(
            entry@,
        ),
{
    let key = entry.key.as_str();
    if text::same(key, "ignore_pattern") {
        match &entry.value {
            TomlValue::Text(raw) => {
                cfg.ignore_regex = compile_ignore_pattern(raw.as_str());
            },
            _ => warn(
                warnings,
                "config key 'ignore_pattern' must be a string, ignoring".to_owned(),
            ),
        }
    } else if text::same(key, "handlers") {
        match &entry.value {
            TomlValue::Table(fields) => read_handlers(cfg, warnings, fields),
            _ => warn(warnings, "config key 'handlers' must be a table, ignoring".to_owned()),
        }
    } else {
        warn(warnings, joined_text("unknown config key '", key, "', ignoring"));
    }
}

fn read_handlers(cfg: &mut Config, warnings: &mut Vec<String>, fields: &Vec<TomlField>)
    ensures
        outcome_of(*final(cfg), final(warnings)@) == outcome_of(
            *old(cfg),
            old(warnings)@,
        ).with_handlers(fields_view(fields@)),
{
    let ghost keys = fields_view(fields@);
    let ghost start = outcome_of(*cfg, warnings@);
    let mut i: usize = 0;
    assert(keys.take(0) =~= Seq::<FieldView>::empty());
    while i < fields.len()
        invariant
            i <= fields@.len(),
            keys == fields_view(fields@),
            outcome_of(*cfg, warnings@) == start.with_handlers(keys.take(i as int)),
        decreases fields@.len() - i,
    {
        let ghost before = outcome_of(*cfg, warnings@);
        let field = &fields[i];
        proof {
            assert(keys.take(i + 1).drop_last() =~= keys.take(i as int));
            assert(keys.take(i + 1).last() == field@);
        }
        match &field.text {
            Some(cmd) => {
                cfg.handlers.insert(field.key.to_lowercase(), cmd.clone());
                assert(outcome_of(*cfg, warnings@).config.handlers
                    =~= before.config.handlers.insert(text::lowercase(field.key@), cmd@));
            },
            None => warn(
                warnings,
                joined_text(
                    "config key 'handlers.",
                    field.key.as_str(),
                    "' must be a string, ignoring",
                ),
            ),
        }
        i += 1;
    }
    assert(keys.take(i as int) =~= keys);
}

/// The override for an extension does not depend on its case: two that are the
/// same in lower case have the same one. For ASCII text that is so where they
/// differ in nothing but the case of their letters.
pub proof fn law_handler_lookup_ignores_case(config: ConfigView, a: Seq<char>, b: Seq<char>)
    requires
        text::lowercase(a) == text::lowercase(b) || (text::all_ascii(a) && text::all_ascii(b)
            && text::ascii_lower_all(a) == text::ascii_lower_all(b)),
    ensures
        handler_for(config, a) == handler_for(config, b),
{
}

/// A text that is not TOML leaves the default configuration, and one warning.
pub proof fn law_invalid_document_is_the_default(message: Seq<char>)
    ensures
        config_of(Err(message)).config == nothing_read().config,
        config_of(Err(message)).warnings.len() == 1,
{
}

/// A key that is not known changes nothing but the warnings, and adds one.
pub proof fn law_unknown_key_only_warns(outcome: Outcome, entry: EntryView)
    requires
        entry.key != "ignore_pattern"@,
        entry.key != "handlers"@,
    ensures
        outcome.with_entry(entry).config == outcome.config,
        outcome.with_entry(entry).warnings == outcome.warnings.push(
            "unknown config key '"@ + entry.key + "', ignoring"@,
        ),
{
}

/// A known key with a value of another type than it should have changes nothing
/// but the warnings, and adds one; so does a handler that is no text.
pub proof fn law_wrong_type_only_warns(outcome: Outcome, entry: EntryView, field: FieldView)
    requires
        entry.key == "ignore_pattern"@ && entry.value !is Text || entry.key == "handlers"@
            && entry.value !is Table,
        field.text is None,
    ensures
        outcome.with_entry(entry).config == outcome.config,
        outcome.with_entry(entry).warnings.len() == outcome.warnings.len() + 1,
        outcome.with_handler(field).config == outcome.config,
        outcome.with_handler(field).warnings.len() == outcome.warnings.len() + 1,
{
    reveal_strlit("ignore_pattern");
    reveal_strlit("handlers");
    assert("ignore_pattern"@.len() != "handlers"@.len());
}

proof fn lemma_handlers_keep(outcome: Outcome, fields: Seq<FieldView>)
    ensures
        outcome.with_handlers(fields).config.ignore == outcome.config.ignore,
        (forall|i: int| 0 <= i < fields.len() ==> (#[trigger] fields[i]).text is Some)
            ==> outcome.with_handlers(fields).warnings == outcome.warnings,
    decreases fields.len(),
{
    if fields.len() > 0 {
        let front = fields.drop_last();
        lemma_handlers_keep(outcome, front);
        if forall|i: int| 0 <= i < fields.len() ==> (#[trigger] fields[i]).text is Some {
            assert forall|i: int| 0 <= i < front.len() implies (#[trigger] front[i]).text is Some by {
                assert(front[i] == fields[i]);
            }
            assert(fields[fields.len() - 1].text is Some);
        }
    }
}

/// A known key with a value of the type that it should have.
pub open spec fn well_typed(entry: EntryView) -> bool {
    ||| entry.key == "ignore_pattern"@ && entry.value is Text
    ||| entry.key == "handlers"@ && match entry.value {
        ValueView::Table(fields) => forall|i: int|
            0 <= i < fields.len() ==> (#[trigger] fields[i]).text is Some,
        _ => false,
    }
}

/// Reading a document whose keys are known and whose values are of the right
/// types gives no warning.
pub proof fn law_well_typed_document_gives_no_warning(entries: Seq<EntryView>)
    requires
        forall|i: int| 0 <= i < entries.len() ==> well_typed(#[trigger] entries[i]),
    ensures
        config_of(Ok(Some(entries))).warnings.len() == 0,
    decreases entries.len(),
{
    if entries.len() > 0 {
        let front = entries.drop_last();
        assert forall|i: int| 0 <= i < front.len() implies well_typed(#[trigger] front[i]) by {
            assert(front[i] == entries[i]);
        }
        law_well_typed_document_gives_no_warning(front);
        let last = entries.last();
        assert(well_typed(entries[entries.len() - 1]));
        reveal_strlit("ignore_pattern");
        reveal_strlit("handlers");
        if last.key == "handlers"@ {
            assert("ignore_pattern"@.len() != "handlers"@.len());
            let before = nothing_read().with_entries(front);
            match last.value {
                ValueView::Table(fields) => lemma_handlers_keep(before, fields),
                _ => {},
            }
        }
    }
}

/// The pattern in effect is the one that the document sets, unless a later key
/// sets another.
pub proof fn law_document_sets_the_pattern(entries: Seq<EntryView>, i: int, raw: Seq<char>)
    requires
        0 <= i < entries.len(),
        entries[i].key == "ignore_pattern"@,
        entries[i].value == ValueView::Text(raw),
        forall|j: int| i < j < entries.len() ==> (#[trigger] entries[j]).key != "ignore_pattern"@,
    ensures
        config_of(Ok(Some(entries))).config.ignore == ignore_pattern(raw),
    decreases entries.len(),
{
    let front = entries.drop_last();
    let last = entries.last();
    let before = nothing_read().with_entries(front);
    if i < front.len() {
        assert(entries[entries.len() - 1].key != "ignore_pattern"@);
        assert forall|j: int| i < j < front.len() implies (#[trigger] front[j]).key
            != "ignore_pattern"@ by {
            assert(front[j] == entries[j]);
        }
        law_document_sets_the_pattern(front, i, raw);
        match last.value {
            ValueView::Table(fields) => lemma_handlers_keep(before, fields),
            _ => {},
        }
    }
}

/// The command for an extension is the one that the `[handlers]` table sets for
/// it, in whatever case, unless a later key of the table sets another.
pub proof fn law_table_sets_the_handler(
    outcome: Outcome,
    fields: Seq<FieldView>,
    i: int,
    ext: Seq<char>,
)
    requires
        0 <= i < fields.len(),
        fields[i].text is Some,
        text::lowercase(fields[i].key) == text::lowercase(ext),
        forall|j: int|
            i < j < fields.len() ==> text::lowercase((#[trigger] fields[j]).key) != text::lowercase(
                ext,
            ),
    ensures
        handler_for(outcome.with_handlers(fields).config, ext) == fields[i].text,
    decreases fields.len(),
{
    let front = fields.drop_last();
    if i < front.len() {
        assert(text::lowercase(fields[fields.len() - 1].key) != text::lowercase(ext));
        assert forall|j: int| i < j < front.len() implies text::lowercase((#[trigger] front[j]).key)
            != text::lowercase(ext) by {
            assert(front[j] == fields[j]);
        }
        law_table_sets_the_handler(outcome, front, i, ext);
    }
}

proof fn lemma_blank_is_trimmed_away(raw: Seq<char>)
    requires
        forall|i: int| 0 <= i < raw.len() ==> text::white_space(#[trigger] raw[i]),
    ensures
        text::trim_start(raw).len() == 0,
    decreases raw.len(),
{
    if raw.len() > 0 {
        assert(text::white_space(raw[0]));
        let rest = raw.drop_first();
        assert forall|i: int| 0 <= i < rest.len() implies text::white_space(#[trigger] rest[i]) by {
            assert(rest[i] == raw[i + 1]);
        }
        lemma_blank_is_trimmed_away(rest);
    }
}

/// A pattern of nothing but white space is no pattern.
pub proof fn law_blank_pattern_is_none(raw: Seq<char>)
    requires
        forall|i: int| 0 <= i < raw.len() ==> text::white_space(#[trigger] raw[i]),
    ensures
        ignore_pattern(raw) is None,
{
    lemma_blank_is_trimmed_away(raw);
}

/// Every pattern is anchored at both ends, whatever characters it holds: what is
/// compiled of a text is `^(?:`, the text without the white space around it,
/// and `)$`. Nothing is compiled of white space alone, and nothing of what is
/// no pattern by itself.
pub proof fn law_every_pattern_is_anchored(lead: Seq<char>, core: Seq<char>, tail: Seq<char>)
    requires
        text::all_white(lead),
        text::all_white(tail),
        core.len() == 0 || (!text::white_space(core[0]) && !text::white_space(core.last())),
    ensures
        ({
            let raw = lead + core + tail;
            let whole = "^(?:"@ + core + ")$"@;
            &&& core.len() == 0 ==> anchored_pattern(raw) is None && ignore_pattern(raw) is None
            &&& core.len() > 0 ==> anchored_pattern(raw) == Some(whole)
            &&& core.len() > 0 && regex_valid(core) && regex_valid(whole) ==> ignore_pattern(raw)
                == Some(whole)
            &&& !(regex_valid(core) && regex_valid(whole)) ==> ignore_pattern(raw) is None
            &&& whole[0] == '^' && whole[whole.len() - 1] == '$'
        }),
{
    text::law_trimmed_is_what_stands_between(lead, core, tail);
    reveal_strlit("^(?:");
    reveal_strlit(")$");
}

/// Whatever pattern is in effect begins with `^(?:` and ends with `)$`, and what
/// stands between is the configured text without white space around it.
pub proof fn law_pattern_in_effect_is_anchored(raw: Seq<char>)
    requires
        ignore_pattern(raw) is Some,
    ensures
        ({
            let p = ignore_pattern(raw)->0;
            &&& p.len() == text::trimmed(raw).len() + 6
            &&& p.take(4) == seq!['^', '(', '?', ':']
            &&& p.skip(p.len() - 2) == seq![')', '$']
            &&& p.subrange(4, p.len() - 2) == text::trimmed(raw)
        }),
{
    reveal_strlit("^(?:");
    reveal_strlit(")$");
    let p = ignore_pattern(raw)->0;
    assert(p.take(4) =~= seq!['^', '(', '?', ':']);
    assert(p.skip(p.len() - 2) =~= seq![')', '$']);
    assert(p.subrange(4, p.len() - 2) =~= text::trimmed(raw));
}

/// Whether a pattern matches is up to the `regex` crate, but for anchored plain
/// words, which match themselves alone.
pub proof fn law_what_a_pattern_matches(p: Seq<char>, word: Seq<char>, name: Seq<char>)
    requires
        word.len() > 0,
        forall|i: int| 0 <= i < word.len() ==> word_char(#[trigger] word[i]),
        p == "^(?:"@ + word + ")$"@,
    ensures
        regex_match(p, name) <==> name == word,
{
    reveal_strlit("^(?:");
    reveal_strlit(")$");
    assert(unanchored(p) =~= word);
    assert forall|i: int| 0 <= i < word.len() implies #[trigger] plain_at(word, i) by {
        assert(word_char(word[i]));
    }
    assert forall|i: int| 0 <= i < word.len() implies #[trigger] word[i] != '\\' && word[i]
        != '|' by {
        assert(word_char(word[i]));
    }
    lemma_filter_keeps(word);
    text::lemma_first_at(word, '|');
    assert(text::first_at(word, '|') == word.len());
    assert(alternatives(word) =~= seq![word]);
    assert(plain_words(word)[0] == word);
}

proof fn lemma_filter_keeps(word: Seq<char>)
    requires
        forall|i: int| 0 <= i < word.len() ==> #[trigger] word[i] != '\\',
    ensures
        unescaped(word) == word,
    decreases word.len(),
{
    reveal(Seq::filter);
    if word.len() > 0 {
        let front = word.drop_last();
        assert forall|i: int| 0 <= i < front.len() implies #[trigger] front[i] != '\\' by {
            assert(front[i] == word[i]);
        }
        lemma_filter_keeps(front);
        assert(word[word.len() - 1] != '\\');
        assert(front.push(word.last()) =~= word);
    } else {
        assert(unescaped(word) =~= word);
    }
}

/// A document is read key by key, and a table of handlers too: one key more at
/// the end does what it does to the outcome of those before it.
pub proof fn law_keys_are_read_in_turn(
    outcome: Outcome,
    entries: Seq<EntryView>,
    entry: EntryView,
    fields: Seq<FieldView>,
    field: FieldView,
)
    ensures
        config_of(Ok(Some(entries.push(entry)))) == config_of(Ok(Some(entries))).with_entry(entry),
        config_of(Ok(Some(Seq::<EntryView>::empty()))) == config_of(Ok(None)),
        config_of(Ok(None)).config.ignore is None,
        config_of(Ok(None)).config.handlers == Map::<Seq<char>, Seq<char>>::empty(),
        config_of(Ok(None)).warnings.len() == 0,
        outcome.with_handlers(fields.push(field)) == outcome.with_handlers(fields).with_handler(
            field,
        ),
        outcome.with_handlers(Seq::<FieldView>::empty()) == outcome,
{
    assert(entries.push(entry).drop_last() =~= entries);
    assert(fields.push(field).drop_last() =~= fields);
}

/// What one key of a document does. A pattern replaces the one before it, and a
/// table adds its handlers; a value of another type, or another key, leaves the
/// configuration as it is and adds the warning that names it.
pub proof fn law_what_a_key_does(outcome: Outcome, value: ValueView, key: Seq<char>)
    ensures
        ({
            let after = outcome.with_entry(EntryView { key: "ignore_pattern"@, value });
            match value {
                ValueView::Text(raw) => after.config.ignore == ignore_pattern(raw)
                    && after.config.handlers == outcome.config.handlers && after.warnings
                    == outcome.warnings,
                _ => after.config == outcome.config && after.warnings == outcome.warnings.push(
                    "config key 'ignore_pattern' must be a string, ignoring"@,
                ),
            }
        }),
        ({
            let after = outcome.with_entry(EntryView { key: "handlers"@, value });
            match value {
                ValueView::Table(fields) => after == outcome.with_handlers(fields),
                _ => after.config == outcome.config && after.warnings == outcome.warnings.push(
                    "config key 'handlers' must be a table, ignoring"@,
                ),
            }
        }),
        key != "ignore_pattern"@ && key != "handlers"@ ==> ({
            let after = outcome.with_entry(EntryView { key, value });
            after.config == outcome.config && after.warnings == outcome.warnings.push(
                "unknown config key '"@ + key + "', ignoring"@,
            )
        }),
{
    reveal_strlit("ignore_pattern");
    reveal_strlit("handlers");
    assert("ignore_pattern"@.len() != "handlers"@.len());
}

/// What one key of the table of handlers does: a text becomes the command for
/// the extension in lower case, and no other extension changes; anything else
/// is left out with a warning that names the key.
pub proof fn law_what_a_handler_does(
    outcome: Outcome,
    key: Seq<char>,
    cmd: Seq<char>,
    ext: Seq<char>,
)
    ensures
        ({
            let set = outcome.with_handler(FieldView { key, text: Some(cmd) });
            &&& set.warnings == outcome.warnings
            &&& set.config.ignore == outcome.config.ignore
            &&& handler_for(set.config, ext) == if text::lowercase(ext) == text::lowercase(key) {
                Some(cmd)
            } else {
                handler_for(outcome.config, ext)
            }
            &&& handler_for(set.config, key) == Some(cmd)
        }),
        ({
            let left = outcome.with_handler(FieldView { key, text: None });
            left.config == outcome.config && left.warnings == outcome.warnings.push(
                "config key 'handlers."@ + key + "' must be a string, ignoring"@,
            )
        }),
        handler_for(nothing_read().config, ext) is None,
{
}

/// The command that a document sets for an extension is in effect: that of the
/// last key of its table of handlers that is the extension in whatever case.
pub proof fn law_document_sets_the_handler(
    entries: Seq<EntryView>,
    i: int,
    fields: Seq<FieldView>,
    k: int,
    ext: Seq<char>,
)
    requires
        0 <= i < entries.len(),
        entries[i].key == "handlers"@,
        entries[i].value == ValueView::Table(fields),
        forall|j: int| i < j < entries.len() ==> (#[trigger] entries[j]).key != "handlers"@,
        0 <= k < fields.len(),
        fields[k].text is Some,
        text::lowercase(fields[k].key) == text::lowercase(ext),
        forall|j: int|
            k < j < fields.len() ==> text::lowercase((#[trigger] fields[j]).key) != text::lowercase(
                ext,
            ),
    ensures
        handler_for(config_of(Ok(Some(entries))).config, ext) == fields[k].text,
    decreases entries.len(),
{
    let front = entries.drop_last();
    let last = entries.last();
    let before = nothing_read().with_entries(front);
    reveal_strlit("ignore_pattern");
    reveal_strlit("handlers");
    assert("ignore_pattern"@.len() != "handlers"@.len());
    if i < front.len() {
        assert(entries[entries.len() - 1].key != "handlers"@);
        assert forall|j: int| i < j < front.len() implies (#[trigger] front[j]).key
            != "handlers"@ by {
            assert(front[j] == entries[j]);
        }
        law_document_sets_the_handler(front, i, fields, k, ext);
    } else {
        law_table_sets_the_handler(before, fields, k, ext);
    }
}

/// A text that is not TOML is warned of with the message of the parser.
pub proof fn law_invalid_document_is_reported(message: Seq<char>)
    ensures
        config_of(Err(message)).warnings == seq![
            "~/.config/moet/moet.conf is not valid TOML, using defaults: "@ + message,
        ],
        config_of(Err(message)).config == config_of(Ok(None)).config,
{
    assert(config_of(Err(message)).warnings =~= seq![
        "~/.config/moet/moet.conf is not valid TOML, using defaults: "@ + message,
    ]);
}

/// A bar parts the words of a plain pattern, and a dot is escaped in it.
pub proof fn law_bars_part_the_words(word: Seq<char>, rest: Seq<char>)
    requires
        forall|i: int| 0 <= i < word.len() ==> #[trigger] word[i] != '|',
    ensures
        alternatives(word) == seq![word],
        alternatives(word + seq!['|'] + rest) == seq![word] + alternatives(rest),
        unescaped(word + seq!['\\', '.']) == unescaped(word).push('.'),
        word.len() > 0 && word[word.len() - 1] != '\\' ==> unescaped(word) == unescaped(
            word.drop_last(),
        ).push(word[word.len() - 1]),
{
    text::lemma_first_at(word, '|');
    assert(text::first_at(word, '|') == word.len());
    let all = word + seq!['|'] + rest;
    text::lemma_first_at(all, '|');
    let bar = text::first_at(all, '|');
    assert(all[word.len() as int] == '|');
    assert(bar == word.len()) by {
        if bar < word.len() {
            assert(all[bar] == word[bar]);
        }
    }
    assert(all.take(bar) =~= word);
    assert(all.skip(bar + 1) =~= rest);
    reveal(Seq::filter);
    let dotted = word + seq!['\\', '.'];
    assert(dotted.drop_last() =~= word.push('\\'));
    assert(word.push('\\').drop_last() =~= word);
    assert(unescaped(word.push('\\')) == unescaped(word));
}

/// What a text is anchored to: `^(?:`, the text without the white space around
/// it, and `)$`, whatever the text holds; and nothing where it holds nothing but
/// white space.
pub proof fn law_anchor_pattern_of_every_text(raw: &str, r: Option<String>)
    requires
        call_ensures(anchor_pattern, (raw,), r),
    ensures
        r is Some <==> text::trimmed(raw@).len() > 0,
        r is Some ==> r->0@ == seq!['^', '(', '?', ':'] + text::trimmed(raw@) + seq![')', '$'],
{
    reveal_strlit("^(?:");
    reveal_strlit(")$");
    assert("^(?:"@ =~= seq!['^', '(', '?', ':']);
    assert(")$"@ =~= seq![')', '$']);
    assert(paths::opt_view(r) == anchored_pattern(raw@));
}

/// A regex that is compiled has an anchor at either end of a group that holds
/// the whole text.
pub proof fn law_compiled_pattern_is_anchored(raw: &str, r: Option<IgnoreRegex>)
    requires
        call_ensures(compile_ignore_pattern, (raw,), r),
        r is Some,
    ensures
        r->0@ == seq!['^', '(', '?', ':'] + text::trimmed(raw@) + seq![')', '$'],
{
    reveal_strlit("^(?:");
    reveal_strlit(")$");
    assert("^(?:"@ =~= seq!['^', '(', '?', ':']);
    assert(")$"@ =~= seq![')', '$']);
    assert(regex_view(r) == ignore_pattern(raw@));
}

/// A configuration that could not be read is the default, without a warning.
pub proof fn law_no_file_is_the_default(r: (Config, Vec<String>))
    requires
        call_ensures(Config::load, (None::<&str>,), r),
    ensures
        r.0@.ignore is None,
        r.0@.handlers == Map::<Seq<char>, Seq<char>>::empty(),
        r.1@.len() == 0,
{
    assert(text::views(r.1@).len() == r.1@.len());
    assert(outcome_of(r.0, r.1@) == nothing_read());
}

/// What patterns other than short plain words compile, and what patterns other
/// than anchored plain words match, is up to the `regex` crate; but one that
/// closes a group too many does not compile.
pub proof fn law_other_patterns_are_up_to_the_regex_crate(p: Seq<char>, name: Seq<char>)
    ensures
        !plain_anchored(p) ==> regex_match(p, name) == regex_finds(p, name),
        !small_plain(p) && closes_unopened(p, 0) ==> !regex_valid(p),
        !small_plain(p) && !closes_unopened(p, 0) ==> regex_valid(p) == regex_accepts(p),
        plain_anchored(p) ==> p.len() >= 6 && p[0] == '^' && p[p.len() - 1] == '$',
{
    reveal_strlit("^(?:");
    reveal_strlit(")$");
    if plain_anchored(p) {
        let q = unanchored(p);
        assert(anchored(q)[0] == '^');
        assert(anchored(q)[anchored(q).len() - 1] == '$');
    }
}

/// A pattern in effect matches a name if and only if the `regex` crate says so,
/// where it is not one of plain words.
pub proof fn law_match_of_a_pattern_in_effect(re: &IgnoreRegex, name: &str, r: bool)
    requires
        call_ensures(IgnoreRegex::is_match, (re, name), r),
        !plain_anchored(re@),
    ensures
        r == regex_finds(re@, name@),
{
    law_other_patterns_are_up_to_the_regex_crate(re@, name@);
}

/// Reading a text is reading the document that it parses to, and reading a file
/// is reading its text.
pub proof fn law_text_is_read_as_its_document(
    content: &str,
    parsed: (Config, Vec<String>),
    loaded: (Config, Vec<String>),
    doc: Result<Option<Vec<TomlEntry>>, String>,
    read: (Config, Vec<String>),
)
    requires
        call_ensures(Config::parse, (content,), parsed),
        call_ensures(Config::load, (Some(content),), loaded),
        document_view(doc) == toml_document(content@),
        call_ensures(Config::from_document, (doc,), read),
    ensures
        outcome_of(parsed.0, parsed.1@) == outcome_of(read.0, read.1@),
        outcome_of(loaded.0, loaded.1@) == outcome_of(read.0, read.1@),
{
}

/// The command that is found for an extension is the one that the configuration
/// holds under the extension in lower case.
pub proof fn law_handler_that_is_found(config: &Config, ext: &str, r: Option<&str>)
    requires
        call_ensures(Config::handler_for_ext, (config, ext), r),
    ensures
        r is Some <==> config@.handlers.contains_key(text::lowercase(ext@)),
        r is Some ==> r->0@ == config@.handlers[text::lowercase(ext@)],
{
    assert(paths::opt_str_view(r) == handler_for(config@, ext@));
}

} // verus!
