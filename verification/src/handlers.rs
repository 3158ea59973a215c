//! What opening an entry does, by the kind of the entry, and the chain that
//! finds the right handler.

use crate::classify;
use crate::config;
use crate::paths;
use crate::paths::{EntryPath, PathView};
use crate::shell_inject;
use crate::state::{State, StateView};
use crate::text;
use vstd::prelude::*;

verus! {

/// Default editor command for text files when no `[handlers]` override is
/// set. Fed verbatim to bash, so `${EDITOR:-nano}` is expanded by the
/// shell at click-time and respects the user's environment.
pub const DEFAULT_TEXT_EDITOR: &'static str = "${EDITOR:-nano}";

/// Default external launcher for non-text files when no override is set.
pub const DEFAULT_EXTERNAL_OPENER: &'static str = "xdg-open";

/// An entry to open: its path and what the file system says of it. There is
/// no mode where the metadata cannot be read.
pub struct Entry {
    pub path: EntryPath,
    pub is_dir: bool,
    pub mode: Option<u32>,
}

/// An [`Entry`] in a contract.
pub struct EntryView {
    pub path: PathView,
    pub is_dir: bool,
    pub mode: Option<u32>,
}

impl View for Entry {
    type V = EntryView;

    open spec fn view(&self) -> EntryView {
        EntryView { path: self.path@, is_dir: self.is_dir, mode: self.mode }
    }
}

/// A program to start, with the arguments that come before the path of the
/// entry.
pub struct SpawnPlan {
    /// The command as it was given, for the report of a failure.
    pub command: String,
    pub program: String,
    pub args: Vec<String>,
}

/// A [`SpawnPlan`] in a contract.
#[verifier::ext_equal]
pub struct SpawnView {
    pub command: Seq<char>,
    pub program: Seq<char>,
    pub args: Seq<Seq<char>>,
}

impl View for SpawnPlan {
    type V = SpawnView;

    open spec fn view(&self) -> SpawnView {
        SpawnView {
            command: self.command@,
            program: self.program@,
            args: text::views(self.args@),
        }
    }
}

impl SpawnPlan {
    /// All arguments of the program: the path comes last, as one argument.
    pub fn arguments(&self, path: &str) -> (r: Vec<String>)
        ensures
            text::views(r@) == self@.args.push(path@),
    {
        let mut all: Vec<String> = Vec::new();
        let mut i: usize = 0;
        while i < self.args.len()
            invariant
                i <= self.args@.len(),
                text::views(all@) == text::views(self.args@).take(i as int),
            decreases self.args@.len() - i,
        {
            let ghost had = text::views(all@);
            all.push(self.args[i].clone());
            assert(text::views(all@) =~= had.push(self.args@[i as int]@));
            assert(text::views(self.args@).take(i + 1) =~= had.push(self.args@[i as int]@));
            i += 1;
        }
        let ghost had = text::views(all@);
        assert(had =~= self@.args);
        all.push(path.to_owned());
        assert(text::views(all@) =~= had.push(path@));
        all
    }
}

/// What is left to do for an entry that was opened.
pub enum Action {
    /// The session has moved: refresh the listing, and feed the keys.
    Enter { keys: Vec<u8> },
    /// Show the image at this path in a window of its own.
    Present { path: String },
    /// Start a program on the entry, or report the message.
    Spawn { plan: Result<SpawnPlan, String> },
    /// Feed the keys, and watch the terminal to restore the prompt.
    Run { keys: Vec<u8> },
}

/// An [`Action`] in a contract.
pub enum ActionView {
    Enter { keys: Seq<u8> },
    Present { path: Seq<char> },
    Spawn { plan: Result<SpawnView, Seq<char>> },
    Run { keys: Seq<u8> },
}

pub open spec fn plan_view(plan: Result<SpawnPlan, String>) -> Result<SpawnView, Seq<char>> {
    match plan {
        Ok(p) => Ok(p@),
        Err(message) => Err(message@),
    }
}

impl View for Action {
    type V = ActionView;

    open spec fn view(&self) -> ActionView {
        match self {
            Action::Enter { keys } => ActionView::Enter { keys: keys@ },
            Action::Present { path } => ActionView::Present { path: path@ },
            Action::Spawn { plan } => ActionView::Spawn { plan: plan_view(*plan) },
            Action::Run { keys } => ActionView::Run { keys: keys@ },
        }
    }
}

/// The user's override for the extension of a path.
pub open spec fn override_cmd(config: config::ConfigView, path: PathView) -> Option<Seq<char>> {
    match path.ext {
        Some(ext) => config::handler_for(config, ext),
        None => None,
    }
}

/// Look up the handler override for the extension of `path`: the command, if
/// the user has set one.
pub fn override_for<'a>(config: &'a config::Config, path: &EntryPath) -> (r: Option<&'a str>)
    ensures
        paths::opt_str_view(r) == override_cmd(config@, path@),
{
    match path.ext() {
        Some(ext) => config.handler_for_ext(ext),
        None => None,
    }
}

pub open spec fn or_default(cmd: Option<Seq<char>>, default: Seq<char>) -> Seq<char> {
    match cmd {
        Some(c) => c,
        None => default,
    }
}

/// How a command with a path is started: its first word is the program, the
/// others are arguments. Nothing is started where it has no word.
pub open spec fn spawn_plan(cmd: Seq<char>, path: Seq<char>) -> Result<SpawnView, Seq<char>> {
    let words = text::words(cmd);
    if words.len() == 0 {
        Err("moet: empty handler command for "@ + path)
    } else {
        Ok(SpawnView { command: cmd, program: words[0], args: words.drop_first() })
    }
}

/// Plan the launch of an external program for the given path. The command may
/// include arguments (e.g. `"zathura --fork"`); it's split on whitespace, so
/// paths with literal spaces don't work as the program. An empty command is
/// answered with the message to report.
pub fn spawn_external(cmd: &str, path: &str) -> (r: Result<SpawnPlan, String>)
    ensures
        plan_view(r) == spawn_plan(cmd@, path@),
{
    let mut words = text::split_words(cmd);
    if words.len() == 0 {
        let mut message = "moet: empty handler command for ".to_owned();
        message.push_str(path);
        return Err(message);
    }
    let ghost all = words@;
    let program = words.remove(0);
    assert(text::views(words@) =~= text::views(all).drop_first());
    assert(text::views(all)[0] == program@);
    Ok(SpawnPlan { command: cmd.to_owned(), program, args: words })
}

/// The report of a launch that failed.
pub fn launch_failure(cmd: &str, path: &str, error: &str) -> (r: String)
    ensures
        r@ == "moet: failed to launch '"@ + cmd@ + "' for "@ + path@ + ": "@ + error@,
{
    let mut out = "moet: failed to launch '".to_owned();
    out.push_str(cmd);
    out.push_str("' for ");
    out.push_str(path);
    out.push_str(": ");
    out.push_str(error);
    out
}

/// `file` lies directly in `dir`. The resolved forms of its parent and of `dir`
/// are compared if both are known, else the paths as written.
pub open spec fn in_dir(
    file: Seq<char>,
    dir: Seq<char>,
    resolved_parent: Option<Seq<char>>,
    resolved_dir: Option<Seq<char>>,
) -> bool {
    match paths::parent(file) {
        Some(parent) => if resolved_parent is Some && resolved_dir is Some {
            paths::path_parts(resolved_parent->0) == paths::path_parts(resolved_dir->0)
        } else {
            paths::path_parts(parent) == paths::path_parts(dir)
        },
        None => false,
    }
}

/// True when the parent directory of `file_path` is the same as `target_dir`.
/// Both sides are compared in their canonical form where the file system gives
/// one, so symlinks and trailing slashes don't fool the comparison; falls back
/// to literal path equality if it does not (e.g. the path doesn't exist on
/// disk).
pub fn same_dir(
    file_path: &str,
    target_dir: &str,
    canonical_parent: Option<&str>,
    canonical_target: Option<&str>,
) -> (r: bool)
    ensures
        r == in_dir(
            file_path@,
            target_dir@,
            paths::opt_str_view(canonical_parent),
            paths::opt_str_view(canonical_target),
        ),
{
    let parent = match paths::path_parent(file_path) {
        Some(p) => p,
        None => return false,
    };
    match (canonical_parent, canonical_target) {
        (Some(p), Some(t)) => paths::path_same(p, t),
        _ => paths::path_same(parent.as_str(), target_dir),
    }
}

/// One kind of entry: which entries it claims, and what opening one does.
pub trait EntryHandler {
    spec fn claims(&self, entry: EntryView) -> bool;

    /// What is left to do, and the session afterwards.
    spec fn opened(&self, entry: EntryView, state: StateView) -> (ActionView, StateView);

    fn can_handle(&self, entry: &Entry) -> (r: bool)
        ensures
            r == self.claims(entry@),
    ;

    fn handle(&self, entry: &Entry, state: &mut State) -> (r: Action)
        ensures
            (r@, final(state)@) == self.opened(entry@, old(state)@),
    ;
}

/// An entry opened with an external program: the override, or the default.
pub open spec fn opened_externally(entry: EntryView, state: StateView) -> (ActionView, StateView) {
    let cmd = or_default(override_cmd(state.config, entry.path), DEFAULT_EXTERNAL_OPENER@);
    (ActionView::Spawn { plan: spawn_plan(cmd, entry.path.text) }, state)
}

fn open_externally(entry: &Entry, state: &State) -> (r: Action)
    ensures
        (r@, state@) == opened_externally(entry@, state@),
{
    let cmd = match override_for(&state.config, &entry.path) {
        Some(cmd) => cmd,
        None => DEFAULT_EXTERNAL_OPENER,
    };
    Action::Spawn { plan: spawn_external(cmd, entry.path.text()) }
}

pub struct DirectoryHandler;

impl EntryHandler for DirectoryHandler {
    open spec fn claims(&self, entry: EntryView) -> bool {
        entry.is_dir
    }

    open spec fn opened(&self, entry: EntryView, state: StateView) -> (ActionView, StateView) {
        (
            ActionView::Enter {
                keys: shell_inject::command_keys(shell_inject::cd_command(entry.path))
                    + shell_inject::restore_keys(),
            },
            StateView { cd: entry.path.text, ..state },
        )
    }

    fn can_handle(&self, entry: &Entry) -> (r: bool) {
        entry.is_dir
    }

    fn handle(&self, entry: &Entry, state: &mut State) -> (r: Action) {
        state.set_cd(entry.path.text().to_owned());
        let cmd = shell_inject::build_cd_command(&entry.path);
        Action::Enter { keys: shell_inject::feed_command(cmd.as_str()) }
    }
}

pub open spec fn image_path(path: PathView) -> bool {
    path.ext is Some && classify::image_ext(path.ext->0)
}

/// Shows an image in a window of its own, unless the user has set a command
/// for it.
pub struct ImageHandler;

impl EntryHandler for ImageHandler {
    open spec fn claims(&self, entry: EntryView) -> bool {
        image_path(entry.path)
    }

    open spec fn opened(&self, entry: EntryView, state: StateView) -> (ActionView, StateView) {
        match override_cmd(state.config, entry.path) {
            Some(cmd) => (ActionView::Spawn { plan: spawn_plan(cmd, entry.path.text) }, state),
            None => (ActionView::Present { path: entry.path.text }, state),
        }
    }

    fn can_handle(&self, entry: &Entry) -> (r: bool) {
        is_image(&entry.path)
    }

    fn handle(&self, entry: &Entry, state: &mut State) -> (r: Action) {
        match override_for(&state.config, &entry.path) {
            Some(cmd) => Action::Spawn { plan: spawn_external(cmd, entry.path.text()) },
            None => Action::Present { path: entry.path.text().to_owned() },
        }
    }
}

pub fn is_image(path: &EntryPath) -> (r: bool)
    ensures
        r == image_path(path@),
{
    match path.ext() {
        Some(ext) => classify::is_image_ext(ext),
        None => false,
    }
}

/// The text of the path ends like that of an archive, whatever the case of its
/// letters.
pub open spec fn archive_path(path: PathView) -> bool {
    let p = text::ascii_lower_all(path.text);
    ||| text::has_suffix(p, ".zip"@)
    ||| text::has_suffix(p, ".7z"@)
    ||| text::has_suffix(p, ".tar.gz"@)
    ||| text::has_suffix(p, ".tar"@)
    ||| text::has_suffix(p, ".gz"@)
    ||| text::has_suffix(p, ".rar"@)
    ||| text::has_suffix(p, ".xz"@)
}

/// No suffix of an archive holds a `k`.
proof fn lemma_archives_are_plain()
    ensures
        text::plain_lower(".zip"@),
        text::plain_lower(".7z"@),
        text::plain_lower(".tar.gz"@),
        text::plain_lower(".tar"@),
        text::plain_lower(".gz"@),
        text::plain_lower(".rar"@),
        text::plain_lower(".xz"@),
{
    reveal_strlit(".zip");
    reveal_strlit(".7z");
    reveal_strlit(".tar.gz");
    reveal_strlit(".tar");
    reveal_strlit(".gz");
    reveal_strlit(".rar");
    reveal_strlit(".xz");
}

pub fn is_archive(path: &EntryPath) -> (r: bool)
    ensures
        r == archive_path(path@),
{
    let lower = path.text().to_lowercase();
    let p = lower.as_str();
    proof {
        lemma_archives_are_plain();
    }
    text::ends_with(p, ".zip") || text::ends_with(p, ".7z") || text::ends_with(p, ".tar.gz")
        || text::ends_with(p, ".tar") || text::ends_with(p, ".gz") || text::ends_with(p, ".rar")
        || text::ends_with(p, ".xz")
}

pub struct ArchiveHandler;

impl EntryHandler for ArchiveHandler {
    open spec fn claims(&self, entry: EntryView) -> bool {
        archive_path(entry.path)
    }

    open spec fn opened(&self, entry: EntryView, state: StateView) -> (ActionView, StateView) {
        opened_externally(entry, state)
    }

    fn can_handle(&self, entry: &Entry) -> (r: bool) {
        is_archive(&entry.path)
    }

    fn handle(&self, entry: &Entry, state: &mut State) -> (r: Action) {
        open_externally(entry, state)
    }
}

pub open spec fn pdf_path(path: PathView) -> bool {
    shell_inject::is_ext(path.ext, "pdf"@)
}

pub fn is_pdf(path: &EntryPath) -> (r: bool)
    ensures
        r == pdf_path(path@),
{
    shell_inject::has_ext(path, "pdf")
}

pub struct PdfHandler;

impl EntryHandler for PdfHandler {
    open spec fn claims(&self, entry: EntryView) -> bool {
        pdf_path(entry.path)
    }

    open spec fn opened(&self, entry: EntryView, state: StateView) -> (ActionView, StateView) {
        opened_externally(entry, state)
    }

    fn can_handle(&self, entry: &Entry) -> (r: bool) {
        is_pdf(&entry.path)
    }

    fn handle(&self, entry: &Entry, state: &mut State) -> (r: Action) {
        open_externally(entry, state)
    }
}

/// `ext` is that of a sound or a film, whatever the case of its letters. The
/// Kelvin sign counts as a capital `k`.
pub open spec fn media_ext(ext: Seq<char>) -> bool {
    let e = text::ascii_lower_all(ext);
    ||| e == "mp3"@
    ||| e == "wav"@
    ||| e == "flac"@
    ||| e == "ogg"@
    ||| e == "m4a"@
    ||| e == "aac"@
    ||| e == "wma"@
    ||| e == "mp4"@
    ||| e == "avi"@
    ||| e == "mov"@
    ||| e == "webm"@
    ||| e == "wmv"@
    ||| e == "flv"@
    ||| e == "mpg"@
    ||| e == "mpeg"@
    ||| text::lowercase(ext) == "mkv"@
}

pub open spec fn media_path(path: PathView) -> bool {
    path.ext is Some && media_ext(path.ext->0)
}

/// No extension of a sound or a film holds a `k`, but for `mkv`.
proof fn lemma_media_are_plain()
    ensures
        text::plain_lower("mp3"@),
        text::plain_lower("wav"@),
        text::plain_lower("flac"@),
        text::plain_lower("ogg"@),
        text::plain_lower("m4a"@),
        text::plain_lower("aac"@),
        text::plain_lower("wma"@),
        text::plain_lower("mp4"@),
        text::plain_lower("avi"@),
        text::plain_lower("mov"@),
        text::plain_lower("webm"@),
        text::plain_lower("wmv"@),
        text::plain_lower("flv"@),
        text::plain_lower("mpg"@),
        text::plain_lower("mpeg"@),
{
    reveal_strlit("mp3");
    reveal_strlit("wav");
    reveal_strlit("flac");
    reveal_strlit("ogg");
    reveal_strlit("m4a");
    reveal_strlit("aac");
    reveal_strlit("wma");
    reveal_strlit("mp4");
    reveal_strlit("avi");
    reveal_strlit("mov");
    reveal_strlit("webm");
    reveal_strlit("wmv");
    reveal_strlit("flv");
    reveal_strlit("mpg");
    reveal_strlit("mpeg");
}

pub fn is_media(path: &EntryPath) -> (r: bool)
    ensures
        r == media_path(path@),
{
    match path.ext() {
        Some(ext) => {
            let lower = ext.to_lowercase();
            let e = lower.as_str();
            proof {
                classify::lemma_lowercase_is(ext@, e@);
                lemma_media_are_plain();
            }
            text::same(e, "mp3") || text::same(e, "wav") || text::same(e, "flac") || text::same(
                e,
                "ogg",
            ) || text::same(e, "m4a") || text::same(e, "aac") || text::same(e, "wma")
                || text::same(e, "mp4") || text::same(e, "mkv") || text::same(e, "avi")
                || text::same(e, "mov") || text::same(e, "webm") || text::same(e, "wmv")
                || text::same(e, "flv") || text::same(e, "mpg") || text::same(e, "mpeg")
        },
        None => false,
    }
}

pub struct MediaHandler;

impl EntryHandler for MediaHandler {
    open spec fn claims(&self, entry: EntryView) -> bool {
        media_path(entry.path)
    }

    open spec fn opened(&self, entry: EntryView, state: StateView) -> (ActionView, StateView) {
        opened_externally(entry, state)
    }

    fn can_handle(&self, entry: &Entry) -> (r: bool) {
        is_media(&entry.path)
    }

    fn handle(&self, entry: &Entry, state: &mut State) -> (r: Action) {
        open_externally(entry, state)
    }
}

/// Some execute bit is set, as far as the metadata can be read.
pub open spec fn runnable(mode: Option<u32>) -> bool {
    mode is Some && classify::executable(mode->0)
}

pub fn is_runnable(mode: Option<u32>) -> (r: bool)
    ensures
        r == runnable(mode),
{
    match mode {
        Some(m) => m & 0o111 != 0,
        None => false,
    }
}

pub struct ExecutableHandler;

impl EntryHandler for ExecutableHandler {
    open spec fn claims(&self, entry: EntryView) -> bool {
        runnable(entry.mode)
    }

    open spec fn opened(&self, entry: EntryView, state: StateView) -> (ActionView, StateView) {
        let cmd = shell_inject::exec_command(entry.path, override_cmd(state.config, entry.path));
        (ActionView::Run { keys: shell_inject::command_keys(cmd) }, state)
    }

    fn can_handle(&self, entry: &Entry) -> (r: bool) {
        is_runnable(entry.mode)
    }

    fn handle(&self, entry: &Entry, state: &mut State) -> (r: Action) {
        let cmd = shell_inject::build_exec_command(
            &entry.path,
            override_for(&state.config, &entry.path),
        );
        Action::Run { keys: shell_inject::feed_command_async(cmd.as_str()) }
    }
}

/// Handles plain text files: anything with a recognised text extension or
/// no extension at all (READMEs, Makefiles, etc.). Anything past this in
/// the chain falls through to [`DefaultHandler`].
pub struct TextFileHandler;

impl EntryHandler for TextFileHandler {
    open spec fn claims(&self, entry: EntryView) -> bool {
        entry.path.ext is Some ==> classify::text_ext(entry.path.ext->0)
    }

    open spec fn opened(&self, entry: EntryView, state: StateView) -> (ActionView, StateView) {
        let editor = or_default(override_cmd(state.config, entry.path), DEFAULT_TEXT_EDITOR@);
        (
            ActionView::Run {
                keys: shell_inject::command_keys(shell_inject::edit_command(entry.path, editor)),
            },
            state,
        )
    }

    fn can_handle(&self, entry: &Entry) -> (r: bool) {
        match entry.path.ext() {
            Some(ext) => classify::is_text_ext(ext),
            None => true,
        }
    }

    fn handle(&self, entry: &Entry, state: &mut State) -> (r: Action) {
        let editor = match override_for(&state.config, &entry.path) {
            Some(cmd) => cmd,
            None => DEFAULT_TEXT_EDITOR,
        };
        let cmd = shell_inject::build_edit_command(&entry.path, editor);
        Action::Run { keys: shell_inject::feed_command_async(cmd.as_str()) }
    }
}

/// Catch-all for any file class not claimed by an earlier handler. Hands
/// the file to xdg-open (or the user's per-extension override) so unknown
/// types like `.docx` or `.psd` get the system's default app.
pub struct DefaultHandler;

impl EntryHandler for DefaultHandler {
    open spec fn claims(&self, entry: EntryView) -> bool {
        true
    }

    open spec fn opened(&self, entry: EntryView, state: StateView) -> (ActionView, StateView) {
        opened_externally(entry, state)
    }

    fn can_handle(&self, entry: &Entry) -> (r: bool) {
        true
    }

    fn handle(&self, entry: &Entry, state: &mut State) -> (r: Action) {
        open_externally(entry, state)
    }
}

/// Any one of the handlers.
pub enum Handler {
    Directory(DirectoryHandler),
    Image(ImageHandler),
    Archive(ArchiveHandler),
    Pdf(PdfHandler),
    Media(MediaHandler),
    Executable(ExecutableHandler),
    TextFile(TextFileHandler),
    Default(DefaultHandler),
}

impl EntryHandler for Handler {
    open spec fn claims(&self, entry: EntryView) -> bool {
        match self {
            Handler::Directory(h) => h.claims(entry),
            Handler::Image(h) => h.claims(entry),
            Handler::Archive(h) => h.claims(entry),
            Handler::Pdf(h) => h.claims(entry),
            Handler::Media(h) => h.claims(entry),
            Handler::Executable(h) => h.claims(entry),
            Handler::TextFile(h) => h.claims(entry),
            Handler::Default(h) => h.claims(entry),
        }
    }

    open spec fn opened(&self, entry: EntryView, state: StateView) -> (ActionView, StateView) {
        match self {
            Handler::Directory(h) => h.opened(entry, state),
            Handler::Image(h) => h.opened(entry, state),
            Handler::Archive(h) => h.opened(entry, state),
            Handler::Pdf(h) => h.opened(entry, state),
            Handler::Media(h) => h.opened(entry, state),
            Handler::Executable(h) => h.opened(entry, state),
            Handler::TextFile(h) => h.opened(entry, state),
            Handler::Default(h) => h.opened(entry, state),
        }
    }

    fn can_handle(&self, entry: &Entry) -> (r: bool) {
        match self {
            Handler::Directory(h) => h.can_handle(entry),
            Handler::Image(h) => h.can_handle(entry),
            Handler::Archive(h) => h.can_handle(entry),
            Handler::Pdf(h) => h.can_handle(entry),
            Handler::Media(h) => h.can_handle(entry),
            Handler::Executable(h) => h.can_handle(entry),
            Handler::TextFile(h) => h.can_handle(entry),
            Handler::Default(h) => h.can_handle(entry),
        }
    }

    fn handle(&self, entry: &Entry, state: &mut State) -> (r: Action) {
        match self {
            Handler::Directory(h) => h.handle(entry, state),
            Handler::Image(h) => h.handle(entry, state),
            Handler::Archive(h) => h.handle(entry, state),
            Handler::Pdf(h) => h.handle(entry, state),
            Handler::Media(h) => h.handle(entry, state),
            Handler::Executable(h) => h.handle(entry, state),
            Handler::TextFile(h) => h.handle(entry, state),
            Handler::Default(h) => h.handle(entry, state),
        }
    }
}

/// The handlers in the order in which they are asked.
pub open spec fn handler_chain() -> Seq<Handler> {
    seq![
        Handler::Directory(DirectoryHandler),
        Handler::Image(ImageHandler),
        Handler::Archive(ArchiveHandler),
        Handler::Pdf(PdfHandler),
        Handler::Media(MediaHandler),
        Handler::Executable(ExecutableHandler),
        Handler::TextFile(TextFileHandler),
        Handler::Default(DefaultHandler),
    ]
}

/// The single source of truth for handler order. `TextFileHandler` claims
/// recognised text exts and extension-less files (READMEs etc.); anything
/// else falls through to `DefaultHandler`, which must remain last.
pub fn build_handlers() -> (r: Vec<Handler>)
    ensures
        r@ == handler_chain(),
{
    let r: Vec<Handler> = vec![
        Handler::Directory(DirectoryHandler),
        Handler::Image(ImageHandler),
        Handler::Archive(ArchiveHandler),
        Handler::Pdf(PdfHandler),
        Handler::Media(MediaHandler),
        Handler::Executable(ExecutableHandler),
        Handler::TextFile(TextFileHandler),
        Handler::Default(DefaultHandler),
    ];
    assert(r@ =~= handler_chain());
    r
}

/// The place of the first handler that claims the entry, or the number of the
/// handlers.
pub open spec fn first_claim(handlers: Seq<Handler>, entry: EntryView) -> int
    decreases handlers.len(),
{
    if handlers.len() == 0 || handlers[0].claims(entry) {
        0
    } else {
        1 + first_claim(handlers.drop_first(), entry)
    }
}

/// What asking the handlers in turn gives: the first that claims the entry
/// opens it.
pub open spec fn dispatched(handlers: Seq<Handler>, entry: EntryView, state: StateView) -> (
    Option<ActionView>,
    StateView,
) {
    let i = first_claim(handlers, entry);
    if i < handlers.len() {
        (Some(handlers[i].opened(entry, state).0), handlers[i].opened(entry, state).1)
    } else {
        (None, state)
    }
}

pub open spec fn action_view(action: Option<Action>) -> Option<ActionView> {
    match action {
        Some(a) => Some(a@),
        None => None,
    }
}

/// Find the first handler that claims the entry and run it.
pub fn dispatch(handlers: &Vec<Handler>, entry: &Entry, state: &mut State) -> (r: Option<Action>)
    ensures
        (action_view(r), final(state)@) == dispatched(handlers@, entry@, old(state)@),
{
    let mut i: usize = 0;
    assert(handlers@.skip(0) =~= handlers@);
    while i < handlers.len()
        invariant
            i <= handlers@.len(),
            state@ == old(state)@,
            first_claim(handlers@, entry@) == i + first_claim(handlers@.skip(i as int), entry@),
        decreases handlers@.len() - i,
    {
        if handlers[i].can_handle(entry) {
            return Some(handlers[i].handle(entry, state));
        }
        assert(handlers@.skip(i as int).drop_first() =~= handlers@.skip(i + 1));
        i += 1;
    }
    None
}

/// The handler that the kind of an entry calls for.
pub open spec fn handler_of(entry: EntryView) -> Handler {
    if entry.is_dir {
        Handler::Directory(DirectoryHandler)
    } else if image_path(entry.path) {
        Handler::Image(ImageHandler)
    } else if archive_path(entry.path) {
        Handler::Archive(ArchiveHandler)
    } else if pdf_path(entry.path) {
        Handler::Pdf(PdfHandler)
    } else if media_path(entry.path) {
        Handler::Media(MediaHandler)
    } else if runnable(entry.mode) {
        Handler::Executable(ExecutableHandler)
    } else if entry.path.ext is None || classify::text_ext(entry.path.ext->0) {
        Handler::TextFile(TextFileHandler)
    } else {
        Handler::Default(DefaultHandler)
    }
}

/// The chain handles every entry, with the handler that its kind calls for.
pub proof fn law_every_entry_is_handled(entry: EntryView, state: StateView)
    ensures
        dispatched(handler_chain(), entry, state) == (
            Some(handler_of(entry).opened(entry, state).0),
            handler_of(entry).opened(entry, state).1,
        ),
{
    let c0 = handler_chain();
    let c1 = c0.drop_first();
    let c2 = c1.drop_first();
    let c3 = c2.drop_first();
    let c4 = c3.drop_first();
    let c5 = c4.drop_first();
    let c6 = c5.drop_first();
    let c7 = c6.drop_first();
    assert(first_claim(c7, entry) == 0);
    assert(first_claim(c6, entry) == if c6[0].claims(entry) {
        0int
    } else {
        1
    });
    assert(first_claim(c5, entry) == if c5[0].claims(entry) {
        0
    } else {
        1 + first_claim(c6, entry)
    });
    assert(first_claim(c4, entry) == if c4[0].claims(entry) {
        0
    } else {
        1 + first_claim(c5, entry)
    });
    assert(first_claim(c3, entry) == if c3[0].claims(entry) {
        0
    } else {
        1 + first_claim(c4, entry)
    });
    assert(first_claim(c2, entry) == if c2[0].claims(entry) {
        0
    } else {
        1 + first_claim(c3, entry)
    });
    assert(first_claim(c1, entry) == if c1[0].claims(entry) {
        0
    } else {
        1 + first_claim(c2, entry)
    });
    assert(first_claim(c0, entry) == if c0[0].claims(entry) {
        0
    } else {
        1 + first_claim(c1, entry)
    });
    assert(c0[first_claim(c0, entry)] == handler_of(entry));
}

/// Opening an entry changes nothing of the session but, for a directory, where
/// it is.
pub proof fn law_only_directories_move_the_session(entry: EntryView, state: StateView)
    ensures
        dispatched(handler_chain(), entry, state).1 == if entry.is_dir {
            StateView { cd: entry.path.text, ..state }
        } else {
            state
        },
{
    law_every_entry_is_handled(entry, state);
}

/// A slash more at the end of a directory's path does not change what lies in
/// it.
pub proof fn law_trailing_slash_does_not_matter(file: Seq<char>, dir: Seq<char>)
    requires
        dir.len() > 0,
    ensures
        in_dir(file, dir.push('/'), None, None) == in_dir(file, dir, None, None),
{
    paths::lemma_trailing_slash(dir);
}

/// The user's command for an extension is the one that opens a file of it,
/// whatever its kind: it is fed to the shell for what runs in the terminal, and
/// started by itself for all else.
pub proof fn law_override_opens_the_file(entry: EntryView, state: StateView, cmd: Seq<char>)
    requires
        !entry.is_dir,
        override_cmd(state.config, entry.path) == Some(cmd),
    ensures
        dispatched(handler_chain(), entry, state).0 == Some(
            match handler_of(entry) {
                Handler::Executable(_) | Handler::TextFile(_) => ActionView::Run {
                    keys: shell_inject::command_keys(shell_inject::edit_command(entry.path, cmd)),
                },
                _ => ActionView::Spawn { plan: spawn_plan(cmd, entry.path.text) },
            },
        ),
{
    law_every_entry_is_handled(entry, state);
}

/// Without an override, an image is shown in a window, a text file is opened in
/// the editor, and a file of an unknown kind with `xdg-open`.
pub proof fn law_defaults_without_override(entry: EntryView, state: StateView)
    requires
        override_cmd(state.config, entry.path) is None,
    ensures
        handler_of(entry) is Image ==> handler_of(entry).opened(entry, state).0 == (
        ActionView::Present { path: entry.path.text }),
        handler_of(entry) is Default ==> handler_of(entry).opened(entry, state).0 == (
        ActionView::Spawn {
            plan: Ok(SpawnView { command: "xdg-open"@, program: "xdg-open"@, args: seq![] }),
        }),
        handler_of(entry) is TextFile ==> handler_of(entry).opened(entry, state).0 == (
        ActionView::Run {
            keys: shell_inject::command_keys(
                shell_inject::edit_command(entry.path, "${EDITOR:-nano}"@),
            ),
        }),
{
    lemma_one_word();
    let w = text::words("xdg-open"@);
    assert(w.drop_first() =~= Seq::<Seq<char>>::empty());
}

proof fn lemma_no_white(s: Seq<char>)
    requires
        forall|i: int| 0 <= i < s.len() ==> !text::white_space(#[trigger] s[i]),
    ensures
        text::word_len(s) == s.len(),
    decreases s.len(),
{
    if s.len() > 0 {
        let rest = s.drop_first();
        assert forall|i: int| 0 <= i < rest.len() implies !text::white_space(#[trigger] rest[i]) by {
            assert(rest[i] == s[i + 1]);
        }
        assert(!text::white_space(s[0]));
        lemma_no_white(rest);
    }
}

proof fn lemma_one_word()
    ensures
        text::words("xdg-open"@) == seq!["xdg-open"@],
{
    let s = "xdg-open"@;
    reveal_strlit("xdg-open");
    lemma_no_white(s);
    assert(s.take(s.len() as int) =~= s);
    assert(s.skip(s.len() as int) =~= Seq::<char>::empty());
    assert(text::words(Seq::<char>::empty()) =~= Seq::<Seq<char>>::empty());
    assert(!text::white_space(s[0]));
    assert(seq![s] + Seq::<Seq<char>>::empty() =~= seq![s]);
}

/// The user's command for a path is the one under its extension in lower case;
/// a path without an extension has none.
pub proof fn law_override_is_that_of_the_extension(config: config::ConfigView, path: PathView)
    ensures
        path.ext is None ==> override_cmd(config, path) is None,
        path.ext is Some && config.handlers.contains_key(text::lowercase(path.ext->0))
            ==> override_cmd(config, path) == Some(
            config.handlers[text::lowercase(path.ext->0)],
        ),
        path.ext is Some && !config.handlers.contains_key(text::lowercase(path.ext->0))
            ==> override_cmd(config, path) is None,
{
}

/// How a command is started: its first word is the program, and the words that
/// follow are its arguments, whatever white space stands around them. Where
/// there is no word, that is reported with the path.
pub proof fn law_command_is_split_into_words(
    lead: Seq<char>,
    program: Seq<char>,
    rest: Seq<char>,
    path: Seq<char>,
)
    requires
        text::all_white(lead),
        program.len() > 0,
        text::none_white(program),
        rest.len() == 0 || text::white_space(rest[0]),
    ensures
        ({
            let cmd = lead + program + rest;
            spawn_plan(cmd, path) == Ok::<SpawnView, Seq<char>>(
                SpawnView { command: cmd, program, args: text::words(rest) },
            )
        }),
        spawn_plan(lead, path) == Err::<SpawnView, Seq<char>>(
            "moet: empty handler command for "@ + path,
        ),
{
    text::law_words_are_the_runs(lead, program, rest);
    let words = text::words(lead + program + rest);
    assert(words[0] == program);
    assert(words.drop_first() =~= text::words(rest));
}

/// The paths of archives: those that end in one of these, whatever the case of
/// the letters.
pub proof fn law_which_paths_are_archives(path: PathView, stem: Seq<char>, end: Seq<char>)
    ensures
        ({
            let ends = seq![".zip"@, ".7z"@, ".tar.gz"@, ".tar"@, ".gz"@, ".rar"@, ".xz"@];
            &&& archive_path(path) ==> exists|w: Seq<char>| #[trigger]
                ends.contains(w) && text::has_suffix(text::ascii_lower_all(path.text), w)
            &&& path.text == stem + end && ends.contains(text::ascii_lower_all(end))
                ==> archive_path(path)
        }),
{
    let ends = seq![".zip"@, ".7z"@, ".tar.gz"@, ".tar"@, ".gz"@, ".rar"@, ".xz"@];
    let lower = text::ascii_lower_all(path.text);
    assert(ends[0] == ".zip"@ && ends[1] == ".7z"@ && ends[2] == ".tar.gz"@ && ends[3] == ".tar"@
        && ends[4] == ".gz"@ && ends[5] == ".rar"@ && ends[6] == ".xz"@);
    assert(ends.contains(".zip"@) && ends.contains(".7z"@) && ends.contains(".tar.gz"@)
        && ends.contains(".tar"@) && ends.contains(".gz"@) && ends.contains(".rar"@)
        && ends.contains(".xz"@));
    if path.text == stem + end && ends.contains(text::ascii_lower_all(end)) {
        let w = text::ascii_lower_all(end);
        assert(lower =~= text::ascii_lower_all(stem) + w);
        text::law_parts_of_a_text(text::ascii_lower_all(stem), w, seq![]);
        assert(text::has_suffix(lower, w));
        let i = choose|i: int| 0 <= i < ends.len() && ends[i] == w;
        assert(i == 0 || i == 1 || i == 2 || i == 3 || i == 4 || i == 5 || i == 6);
    }
}

/// The paths of PDF files and of media: by their extensions, whatever the case
/// of the letters.
pub proof fn law_which_paths_are_pdf_or_media(path: PathView)
    ensures
        pdf_path(path) <==> path.ext is Some && text::ascii_lower_all(path.ext->0) == "pdf"@,
        path.ext is None ==> !media_path(path),
        path.ext is Some && text::all_ascii(path.ext->0) ==> (media_path(path) <==> seq![
            "mp3"@,
            "wav"@,
            "flac"@,
            "ogg"@,
            "m4a"@,
            "aac"@,
            "wma"@,
            "mp4"@,
            "mkv"@,
            "avi"@,
            "mov"@,
            "webm"@,
            "wmv"@,
            "flv"@,
            "mpg"@,
            "mpeg"@,
        ].contains(text::ascii_lower_all(path.ext->0))),
{
    reveal_strlit("pdf");
    assert(text::ascii_lower_all("pdf"@) =~= "pdf"@);
    let media = seq![
        "mp3"@,
        "wav"@,
        "flac"@,
        "ogg"@,
        "m4a"@,
        "aac"@,
        "wma"@,
        "mp4"@,
        "mkv"@,
        "avi"@,
        "mov"@,
        "webm"@,
        "wmv"@,
        "flv"@,
        "mpg"@,
        "mpeg"@,
    ];
    assert(media[0] == "mp3"@ && media[1] == "wav"@ && media[2] == "flac"@ && media[3] == "ogg"@
        && media[4] == "m4a"@ && media[5] == "aac"@ && media[6] == "wma"@ && media[7] == "mp4"@
        && media[8] == "mkv"@ && media[9] == "avi"@ && media[10] == "mov"@ && media[11] == "webm"@
        && media[12] == "wmv"@ && media[13] == "flv"@ && media[14] == "mpg"@ && media[15]
        == "mpeg"@);
}

/// What opening an entry does, by its kind. A directory is entered. An image is
/// shown. An archive, a PDF file and media are handed to another program. What
/// may be executed is run. A text file and one without an extension are edited.
/// All else is handed to another program. The user's command for the extension
/// takes the place of the default.
pub proof fn law_what_opening_does(entry: EntryView, state: StateView)
    ensures
        ({
            let (action, after) = dispatched(handler_chain(), entry, state);
            let path = entry.path;
            let set = override_cmd(state.config, path);
            let opener = if set is Some {
                set->0
            } else {
                "xdg-open"@
            };
            let editor = if set is Some {
                set->0
            } else {
                "${EDITOR:-nano}"@
            };
            let image = path.ext is Some && classify::image_ext(path.ext->0);
            let outside = archive_path(path) || pdf_path(path) || media_path(path);
            let runs = entry.mode is Some && entry.mode->0 & 0o111 != 0;
            let text = path.ext is None || classify::text_ext(path.ext->0);
            &&& entry.is_dir ==> after.cd == path.text && action == Some(
                ActionView::Enter {
                    keys: shell_inject::command_keys(
                        "clear; cd "@ + shell_inject::quoted(path.text),
                    ) + shell_inject::restore_keys(),
                },
            )
            &&& !entry.is_dir ==> after == state
            &&& !entry.is_dir && image && set is None ==> action == Some(
                ActionView::Present { path: path.text },
            )
            &&& !entry.is_dir && (image && set is Some || !image && outside || !image && !runs
                && !text) ==> action == Some(
                ActionView::Spawn { plan: spawn_plan(opener, path.text) },
            )
            &&& !entry.is_dir && !image && !outside && runs ==> action == Some(
                ActionView::Run {
                    keys: shell_inject::command_keys(shell_inject::exec_command(path, set)),
                },
            )
            &&& !entry.is_dir && !image && !outside && !runs && text ==> action == Some(
                ActionView::Run {
                    keys: shell_inject::command_keys(
                        "clear; "@ + editor + " "@ + shell_inject::quoted(path.text),
                    ),
                },
            )
        }),
{
    law_every_entry_is_handled(entry, state);
}

/// A name that can stand as one component of a path.
spec fn component(name: Seq<char>) -> bool {
    &&& name.len() > 0
    &&& name != seq!['.']
    &&& paths::no_slash(name)
}

/// A file lies in the directory that its path names before its own name, and in
/// none above or below that.
pub proof fn law_file_lies_in_the_directory_before_its_name(
    dir: Seq<char>,
    sub: Seq<char>,
    name: Seq<char>,
)
    requires
        dir.len() > 0,
        sub.len() > 0 && sub != seq!['.'] && paths::no_slash(sub),
        name.len() > 0 && name != seq!['.'] && paths::no_slash(name),
    ensures
        in_dir(paths::under(dir, name), dir, None, None),
        in_dir(paths::under(dir, name), paths::under(dir, seq![]), None, None),
        !in_dir(paths::under(dir, name), paths::under(dir, sub), None, None),
        !in_dir(paths::under(paths::under(dir, sub), name), dir, None, None),
        in_dir(paths::under(paths::under(dir, sub), name), paths::under(dir, sub), None, None),
{
    let none = Seq::<char>::empty();
    let deep = paths::under(dir, sub);
    lemma_parent_of_under(dir, name);
    lemma_parent_of_under(deep, name);
    paths::law_components_stand_between_slashes(dir, sub);
    paths::law_components_stand_between_slashes(dir, none);
    assert(paths::path_names(deep).len() == paths::path_names(dir).len() + 1);
    lemma_start_of_under(dir, none);
    assert(paths::path_names(dir) + Seq::<Seq<char>>::empty() =~= paths::path_names(dir));
}

proof fn lemma_start_of_under(dir: Seq<char>, name: Seq<char>)
    requires
        dir.len() > 0,
    ensures
        paths::path_parts(paths::under(dir, name)).rooted == paths::path_parts(dir).rooted,
        paths::path_parts(paths::under(dir, name)).from_here == paths::path_parts(dir).from_here,
{
    let p = paths::under(dir, name);
    assert(p[0] == dir[0]);
    if dir.len() > 1 {
        assert(p[1] == dir[1]);
    } else {
        assert(p[1] == '/');
    }
}

proof fn lemma_parent_of_under(dir: Seq<char>, name: Seq<char>)
    requires
        dir.len() > 0,
        component(name),
    ensures
        paths::parent(paths::under(dir, name)) is Some,
        paths::path_parts(paths::parent(paths::under(dir, name))->0) == paths::path_parts(dir),
{
    let p = paths::under(dir, name);
    paths::law_components_stand_between_slashes(dir, name);
    paths::law_parent_drops_the_last_component(p);
    lemma_start_of_under(dir, name);
    let names = paths::path_names(p);
    assert(names.take(names.len() - 1) =~= paths::path_names(dir));
    paths::law_where_a_path_starts(paths::parent(p)->0, dir);
}

/// Where the file system knows both directories, a file lies in the one if and
/// only if that is its own: the same from the root down, with neither more nor
/// fewer components. How they are written does not count then. A path without a
/// parent lies nowhere.
pub proof fn law_known_directories_are_compared(
    file: Seq<char>,
    dir: Seq<char>,
    parent: Seq<char>,
    target: Seq<char>,
    sub: Seq<char>,
)
    requires
        sub.len() > 0 && sub != seq!['.'] && paths::no_slash(sub),
    ensures
        paths::parent(file) is None ==> !in_dir(file, dir, Some(parent), Some(target)) && !in_dir(
            file,
            dir,
            None,
            None,
        ),
        paths::parent(file) is Some ==> ({
            &&& in_dir(file, dir, Some(parent), Some(parent))
            &&& !in_dir(file, dir, Some(paths::under(parent, sub)), Some(parent))
            &&& !in_dir(file, dir, Some(parent), Some(paths::under(parent, sub)))
            &&& paths::path_names(parent) != paths::path_names(target) ==> !in_dir(
                file,
                dir,
                Some(parent),
                Some(target),
            )
            &&& paths::path_names(parent) == paths::path_names(target) && parent.len() > 0
                && target.len() > 0 && parent[0] == '/' && target[0] == '/' ==> in_dir(
                file,
                dir,
                Some(parent),
                Some(target),
            )
        }),
        in_dir(file, dir, Some(parent), None) == in_dir(file, dir, None, None),
        in_dir(file, dir, None, Some(target)) == in_dir(file, dir, None, None),
{
    paths::law_components_stand_between_slashes(parent, sub);
    let deep = paths::under(parent, sub);
    assert(paths::path_names(deep).len() == paths::path_names(parent).len() + 1);
    paths::law_where_a_path_starts(parent, target);
}

/// Asked where the file system knows both directories: a file with a parent lies
/// in the directory if and only if the two have the same components from the
/// same start; so not where one has more of them than the other.
pub proof fn law_same_dir_compares_components(
    file: &str,
    dir: &str,
    parent: &str,
    target: &str,
    r: bool,
)
    requires
        call_ensures(same_dir, (file, dir, Some(parent), Some(target)), r),
        paths::parent(file@) is Some,
    ensures
        r ==> paths::path_names(parent@) == paths::path_names(target@) && paths::path_parts(
            parent@,
        ).rooted == paths::path_parts(target@).rooted && paths::path_parts(parent@).from_here
            == paths::path_parts(target@).from_here,
        paths::path_names(parent@) == paths::path_names(target@) && paths::path_parts(
            parent@,
        ).rooted == paths::path_parts(target@).rooted && paths::path_parts(parent@).from_here
            == paths::path_parts(target@).from_here ==> r,
        paths::path_names(parent@).len() != paths::path_names(target@).len() ==> !r,
{
    paths::law_where_a_path_starts(parent@, target@);
}

/// Asked where the file system does not know both, the paths as they are written
/// are compared in the same way.
pub proof fn law_same_dir_compares_written_paths(file: &str, dir: &str, r: bool)
    requires
        call_ensures(same_dir, (file, dir, None::<&str>, None::<&str>), r),
    ensures
        r <==> paths::parent(file@) is Some && paths::path_names(paths::parent(file@)->0)
            == paths::path_names(dir@) && paths::path_parts(paths::parent(file@)->0).rooted
            == paths::path_parts(dir@).rooted && paths::path_parts(
            paths::parent(file@)->0,
        ).from_here == paths::path_parts(dir@).from_here,
{
    if paths::parent(file@) is Some {
        paths::law_where_a_path_starts(paths::parent(file@)->0, dir@);
    }
}

/// A program gets the words of its command as they are, and then the path as one
/// argument more, whatever it holds.
pub proof fn law_path_is_the_last_argument(plan: &SpawnPlan, path: &str, r: Vec<String>, i: int)
    requires
        call_ensures(SpawnPlan::arguments, (plan, path), r),
        0 <= i < plan.args@.len(),
    ensures
        r@.len() == plan.args@.len() + 1,
        r@[r@.len() - 1]@ == path@,
        r@[i]@ == plan.args@[i]@,
{
    let all = text::views(r@);
    assert(all.len() == r@.len());
    assert(all[r@.len() - 1] == r@[r@.len() - 1]@);
    assert(all[i] == r@[i]@);
    assert(plan@.args[i] == plan.args@[i]@);
}

/// The report of a launch that failed names the command, the path and the
/// error, in this order.
pub proof fn law_report_of_a_failed_launch(cmd: &str, path: &str, error: &str, r: String)
    requires
        call_ensures(launch_failure, (cmd, path, error), r),
    ensures
        r@ == "moet: failed to launch '"@ + cmd@ + "' for "@ + path@ + ": "@ + error@,
{
}

/// The media whose extensions are not ASCII: those that are `mkv` in lower case.
pub proof fn law_which_foreign_extensions_are_media(ext: Seq<char>)
    requires
        !text::all_ascii(ext),
    ensures
        media_ext(ext) <==> text::lowercase(ext) == "mkv"@,
{
    let i = choose|i: int| 0 <= i < ext.len() && !((#[trigger] ext[i]) as u32 <= 127);
    let e = text::ascii_lower_all(ext);
    assert(e[i] == ext[i]);
    assert(!text::all_ascii(e));
    lemma_media_are_plain();
}

/// Whatever the handlers are, the first that claims the entry opens it, and none
/// does where none claims it.
pub proof fn law_first_handler_that_claims_opens(
    handlers: Seq<Handler>,
    entry: EntryView,
    state: StateView,
    i: int,
)
    requires
        0 <= i <= handlers.len(),
        i < handlers.len() ==> handlers[i].claims(entry),
        forall|k: int| 0 <= k < i ==> !(#[trigger] handlers[k]).claims(entry),
    ensures
        i < handlers.len() ==> dispatched(handlers, entry, state) == (
            Some(handlers[i].opened(entry, state).0),
            handlers[i].opened(entry, state).1,
        ),
        i == handlers.len() ==> dispatched(handlers, entry, state) == (
            None::<ActionView>,
            state,
        ),
{
    lemma_first_claim_is(handlers, entry, i);
}

proof fn lemma_first_claim_is(handlers: Seq<Handler>, entry: EntryView, i: int)
    requires
        0 <= i <= handlers.len(),
        i < handlers.len() ==> handlers[i].claims(entry),
        forall|k: int| 0 <= k < i ==> !(#[trigger] handlers[k]).claims(entry),
    ensures
        first_claim(handlers, entry) == i,
    decreases handlers.len(),
{
    if i > 0 {
        let rest = handlers.drop_first();
        assert(!handlers[0].claims(entry));
        assert forall|k: int| 0 <= k < i - 1 implies !(#[trigger] rest[k]).claims(entry) by {
            assert(rest[k] == handlers[k + 1]);
        }
        lemma_first_claim_is(rest, entry, i - 1);
    }
}

/// Which entries each handler claims.
pub proof fn law_what_handlers_claim(entry: EntryView)
    ensures
        DirectoryHandler.claims(entry) == entry.is_dir,
        ImageHandler.claims(entry) == (entry.path.ext is Some && classify::image_ext(
            entry.path.ext->0,
        )),
        ArchiveHandler.claims(entry) == archive_path(entry.path),
        PdfHandler.claims(entry) == pdf_path(entry.path),
        MediaHandler.claims(entry) == media_path(entry.path),
        ExecutableHandler.claims(entry) == (entry.mode is Some && entry.mode->0 & 0o111 != 0),
        TextFileHandler.claims(entry) == (entry.path.ext is None || classify::text_ext(
            entry.path.ext->0,
        )),
        DefaultHandler.claims(entry),
{
}

/// The handlers that are built, asked in turn, are those of the chain.
pub proof fn law_handlers_that_are_built(r: Vec<Handler>)
    requires
        call_ensures(build_handlers, (), r),
    ensures
        r@.len() == 8,
        r@[0] is Directory && r@[1] is Image && r@[2] is Archive && r@[3] is Pdf && r@[4] is Media
            && r@[5] is Executable && r@[6] is TextFile && r@[7] is Default,
{
}

/// The user's command for a path, as it is looked up, and the program that is
/// planned for a command.
pub proof fn law_command_and_program_that_are_found(
    config: &config::Config,
    path: &EntryPath,
    found: Option<&str>,
    cmd: &str,
    text: &str,
    plan: Result<SpawnPlan, String>,
)
    requires
        call_ensures(override_for, (config, path), found),
        call_ensures(spawn_external, (cmd, text), plan),
    ensures
        found is Some <==> path@.ext is Some && config@.handlers.contains_key(
            text::lowercase(path@.ext->0),
        ),
        found is Some ==> found->0@ == config@.handlers[text::lowercase(path@.ext->0)],
        plan is Ok <==> text::words(cmd@).len() > 0,
        plan is Ok ==> plan->Ok_0.program@ == text::words(cmd@)[0] && plan->Ok_0.command@ == cmd@
            && plan->Ok_0.args@.len() + 1 == text::words(cmd@).len(),
        plan is Err ==> plan->Err_0@ == "moet: empty handler command for "@ + text@,
{
    assert(paths::opt_str_view(found) == override_cmd(config@, path@));
    assert(plan_view(plan) == spawn_plan(cmd@, text@));
    if plan is Ok {
        assert(plan->Ok_0@.args.len() == plan->Ok_0.args@.len());
    }
}

/// The kinds of path, as they are told apart.
pub proof fn law_kinds_that_are_told_apart(
    path: &EntryPath,
    mode: Option<u32>,
    image: bool,
    archive: bool,
    pdf: bool,
    media: bool,
    runs: bool,
)
    requires
        call_ensures(is_image, (path,), image),
        call_ensures(is_archive, (path,), archive),
        call_ensures(is_pdf, (path,), pdf),
        call_ensures(is_media, (path,), media),
        call_ensures(is_runnable, (mode,), runs),
    ensures
        image == image_path(path@),
        archive == archive_path(path@),
        pdf == pdf_path(path@),
        media == media_path(path@),
        runs == (mode is Some && mode->0 & 0o111 != 0),
        image ==> !pdf,
{
    reveal_strlit("pdf");
    if image && pdf {
        let ext = path@.ext->0;
        law_which_paths_are_pdf_or_media(path@);
        classify::law_which_extensions_are_known(ext);
        reveal_strlit("png");
        reveal_strlit("jpg");
        reveal_strlit("jpeg");
        reveal_strlit("gif");
        reveal_strlit("bmp");
        reveal_strlit("webp");
        reveal_strlit("svg");
        reveal_strlit("tif");
        reveal_strlit("tiff");
        assert("pdf"@[1] == 'd');
        assert(text::ascii_lower_all(ext)[1] == 'd');
    }
}

} // verus!
