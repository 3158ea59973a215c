//! What to do with the path argument before the window opens.
//!
//! `moet <path>` has six distinct cases (no path, directory, archive/pdf/
//! media, image preview, missing image, anything else). [`classify_startup`]
//! decides; [`plan_launch`] says what follows.

use crate::classify;
use crate::config::{Config, ConfigView};
use crate::handlers;
use crate::handlers::{EntryHandler, SpawnPlan, SpawnView};
use crate::paths;
use crate::paths::{EntryPath, PathView};
use crate::shell_inject;
use crate::state::StateView;
use crate::text;
use vstd::prelude::*;

verus! {

/// What was decided about the path argument. There is such a decision only
/// when the command line has a path.
pub enum StartupAction {
    /// Path resolved to an existing directory; start a session there.
    Directory(String),
    /// To be handled by an external program alone: start it, or report the
    /// message, and exit.
    HandledExternally(Result<SpawnPlan, String>),
    /// Path is an image; open the preview window.
    ImagePreview(String),
    /// Image path doesn't exist: print an error and exit.
    MissingImage(String),
    /// Path is a file that needs the terminal session to act on it.
    RunInSession { initial_pwd: String, target: EntryPath },
}

/// A [`StartupAction`] in a contract.
pub enum StartupView {
    Directory(Seq<char>),
    HandledExternally(Result<SpawnView, Seq<char>>),
    ImagePreview(Seq<char>),
    MissingImage(Seq<char>),
    RunInSession { initial_pwd: Seq<char>, target: PathView },
}

impl View for StartupAction {
    type V = StartupView;

    open spec fn view(&self) -> StartupView {
        match self {
            StartupAction::Directory(dir) => StartupView::Directory(dir@),
            StartupAction::HandledExternally(plan) => StartupView::HandledExternally(
                handlers::plan_view(*plan),
            ),
            StartupAction::ImagePreview(path) => StartupView::ImagePreview(path@),
            StartupAction::MissingImage(path) => StartupView::MissingImage(path@),
            StartupAction::RunInSession { initial_pwd, target } => StartupView::RunInSession {
                initial_pwd: initial_pwd@,
                target: target@,
            },
        }
    }
}

/// A reading of the path argument, what the file system says of it, and its
/// canonical form if it has one. There is no path where its base is unknown.
pub struct Candidate<P> {
    pub path: Option<P>,
    pub exists: bool,
    pub canonical: Option<P>,
}

/// The readings of the path argument.
pub struct Candidates<P> {
    /// Against the `PWD` of the shell.
    pub from_pwd: Candidate<P>,
    /// Resolved by the file system.
    pub resolved: Candidate<P>,
    /// Against the working directory of the process.
    pub from_cwd: Candidate<P>,
    /// As it stands.
    pub literal: Candidate<P>,
}

impl<P> Candidate<P> {
    /// The reading, canonical if possible, if it exists.
    pub open spec fn found(self) -> Option<P> {
        if self.path is None || !self.exists {
            None
        } else if self.canonical is Some {
            self.canonical
        } else {
            self.path
        }
    }

    fn into_found(self) -> (r: Option<P>)
        ensures
            r == self.found(),
    {
        match self.path {
            Some(path) => if !self.exists {
                None
            } else {
                match self.canonical {
                    Some(canonical) => Some(canonical),
                    None => Some(path),
                }
            },
            None => None,
        }
    }
}

impl<P> Candidates<P> {
    /// The first reading that exists.
    pub open spec fn found(self) -> Option<P> {
        if self.from_pwd.found() is Some {
            self.from_pwd.found()
        } else if self.resolved.found() is Some {
            self.resolved.found()
        } else if self.from_cwd.found() is Some {
            self.from_cwd.found()
        } else {
            self.literal.found()
        }
    }
}

/// Resolve a possibly-relative path against several sensible bases (the
/// shell's PWD, the process CWD, etc.) and return the first one that exists,
/// canonicalised when possible.
pub fn resolve_path<P>(candidates: Candidates<P>) -> (r: Option<P>)
    ensures
        r == candidates.found(),
{
    if let Some(path) = candidates.from_pwd.into_found() {
        return Some(path);
    }
    if let Some(path) = candidates.resolved.into_found() {
        return Some(path);
    }
    if let Some(path) = candidates.from_cwd.into_found() {
        return Some(path);
    }
    candidates.literal.into_found()
}

/// A path that exists.
pub struct Resolved {
    pub path: EntryPath,
    pub is_dir: bool,
}

/// A [`Resolved`] path in a contract.
pub struct ResolvedView {
    pub path: PathView,
    pub is_dir: bool,
}

impl View for Resolved {
    type V = ResolvedView;

    open spec fn view(&self) -> ResolvedView {
        ResolvedView { path: self.path@, is_dir: self.is_dir }
    }
}

pub open spec fn resolved_view(resolved: Option<&Resolved>) -> Option<ResolvedView> {
    match resolved {
        Some(r) => Some(r@),
        None => None,
    }
}

/// Where the session for a file starts: in its directory.
pub open spec fn session_dir(path: Seq<char>) -> Seq<char> {
    match paths::parent(path) {
        Some(parent) => parent,
        None => "."@,
    }
}

pub open spec fn run_in_session(path: PathView) -> StartupView {
    StartupView::RunInSession { initial_pwd: session_dir(path.text), target: path }
}

/// The command that an external program is started with.
pub open spec fn external_plan(path: PathView, config: ConfigView) -> Result<
    SpawnView,
    Seq<char>,
> {
    handlers::spawn_plan(
        handlers::or_default(
            handlers::override_cmd(config, path),
            handlers::DEFAULT_EXTERNAL_OPENER@,
        ),
        path.text,
    )
}

pub open spec fn startup_of(
    input: PathView,
    resolved: Option<ResolvedView>,
    config: ConfigView,
) -> StartupView {
    match resolved {
        None => if handlers::image_path(input) {
            StartupView::MissingImage(input.text)
        } else {
            run_in_session(input)
        },
        Some(found) => if found.is_dir {
            StartupView::Directory(found.path.text)
        } else if handlers::archive_path(found.path) || handlers::pdf_path(found.path)
            || handlers::media_path(found.path) {
            StartupView::HandledExternally(external_plan(found.path, config))
        } else if handlers::image_path(found.path) {
            StartupView::ImagePreview(found.path.text)
        } else {
            run_in_session(found.path)
        },
    }
}

fn start_in_session(path: &EntryPath) -> (r: StartupAction)
    ensures
        r@ == run_in_session(path@),
{
    let pwd = match paths::path_parent(path.text()) {
        Some(parent) => parent,
        None => ".".to_owned(),
    };
    StartupAction::RunInSession { initial_pwd: pwd, target: path.copy() }
}

/// Decide what to do with the path argument. Mirrors the in-session handler
/// chain for the classes of file that can be dispatched without a running
/// terminal. Honours `[handlers]` overrides for what an external program opens;
/// an image is previewed in any case.
pub fn classify_startup(input: &EntryPath, resolved: Option<&Resolved>, config: &Config) -> (r:
    StartupAction)
    ensures
        r@ == startup_of(input@, resolved_view(resolved), config@),
{
    let found = match resolved {
        Some(found) => found,
        None => {
            // The path doesn't exist anywhere. Images are an error; everything
            // else gets a fresh session.
            if handlers::is_image(input) {
                return StartupAction::MissingImage(input.text().to_owned());
            }
            return start_in_session(input);
        },
    };
    if found.is_dir {
        return StartupAction::Directory(found.path.text().to_owned());
    }
    if handlers::is_archive(&found.path) || handlers::is_pdf(&found.path) || handlers::is_media(
        &found.path,
    ) {
        let cmd = match handlers::override_for(config, &found.path) {
            Some(cmd) => cmd,
            None => handlers::DEFAULT_EXTERNAL_OPENER,
        };
        return StartupAction::HandledExternally(handlers::spawn_external(cmd, found.path.text()));
    }
    if handlers::is_image(&found.path) {
        return StartupAction::ImagePreview(found.path.text().to_owned());
    }
    start_in_session(&found.path)
}

/// What follows from the decision.
pub enum Launch {
    /// Start the program or report the message, and exit.
    External(Result<SpawnPlan, String>),
    /// Report the message and exit.
    Fail(String),
    /// Show the image; no session.
    Preview(String),
    /// A session, with a file to act on once the shell runs.
    Session { initial_pwd: String, target: Option<EntryPath> },
}

/// A [`Launch`] in a contract.
pub enum LaunchView {
    External(Result<SpawnView, Seq<char>>),
    Fail(Seq<char>),
    Preview(Seq<char>),
    Session { initial_pwd: Seq<char>, target: Option<PathView> },
}

impl View for Launch {
    type V = LaunchView;

    open spec fn view(&self) -> LaunchView {
        match self {
            Launch::External(plan) => LaunchView::External(handlers::plan_view(*plan)),
            Launch::Fail(message) => LaunchView::Fail(message@),
            Launch::Preview(path) => LaunchView::Preview(path@),
            Launch::Session { initial_pwd, target } => LaunchView::Session {
                initial_pwd: initial_pwd@,
                target: match target {
                    Some(t) => Some(t@),
                    None => None,
                },
            },
        }
    }
}

/// What the program does about a path argument.
pub fn plan_launch(action: StartupAction) -> (r: Launch)
    ensures
        r@ == match action@ {
            StartupView::Directory(dir) => LaunchView::Session { initial_pwd: dir, target: None },
            StartupView::HandledExternally(plan) => LaunchView::External(plan),
            StartupView::ImagePreview(path) => LaunchView::Preview(path),
            StartupView::MissingImage(path) => LaunchView::Fail(
                "Error: Image file not found: "@ + path,
            ),
            StartupView::RunInSession { initial_pwd, target } => LaunchView::Session {
                initial_pwd,
                target: Some(target),
            },
        },
{
    match action {
        StartupAction::Directory(dir) => Launch::Session { initial_pwd: dir, target: None },
        StartupAction::HandledExternally(plan) => Launch::External(plan),
        StartupAction::ImagePreview(path) => Launch::Preview(path),
        StartupAction::MissingImage(path) => {
            let mut message = "Error: Image file not found: ".to_owned();
            message.push_str(path.as_str());
            Launch::Fail(message)
        },
        StartupAction::RunInSession { initial_pwd, target } => Launch::Session {
            initial_pwd,
            target: Some(target),
        },
    }
}

/// A file given on the command line is run if it is a python or node script or
/// has the execute bit; any other is edited.
pub open spec fn target_command(target: PathView, mode: Option<u32>, config: ConfigView) -> Seq<
    char,
> {
    let cmd = handlers::override_cmd(config, target);
    if shell_inject::is_ext(target.ext, "py"@) || shell_inject::is_ext(target.ext, "js"@)
        || handlers::runnable(mode) {
        shell_inject::exec_command(target, cmd)
    } else {
        shell_inject::edit_command(
            target,
            handlers::or_default(cmd, handlers::DEFAULT_TEXT_EDITOR@),
        )
    }
}

/// The shell command for the file given on the command line: py/js always run
/// via their interpreter; other files need the +x bit to run. (Opening a
/// non-executable `.py` from the listing edits it.)
pub fn startup_command(target: &EntryPath, mode: Option<u32>, config: &Config) -> (r: String)
    ensures
        r@ == target_command(target@, mode, config@),
{
    let cmd = handlers::override_for(config, target);
    if shell_inject::has_ext(target, "py") || shell_inject::has_ext(target, "js")
        || handlers::is_runnable(mode) {
        shell_inject::build_exec_command(target, cmd)
    } else {
        let editor = match cmd {
            Some(cmd) => cmd,
            None => handlers::DEFAULT_TEXT_EDITOR,
        };
        shell_inject::build_edit_command(target, editor)
    }
}

/// The extension of a path that ends in `suffix`, whatever the case, is what
/// follows the dot of `suffix`.
proof fn lemma_suffix_is_extension(s: Seq<char>, suffix: Seq<char>)
    requires
        text::has_suffix(text::ascii_lower_all(s), suffix),
        suffix.len() >= 2,
        suffix[0] == '.',
        forall|i: int| 1 <= i < suffix.len() ==> #[trigger] suffix[i] != '.' && suffix[i] != '/',
    ensures
        paths::extension(s) is Some ==> text::ascii_lower_all(paths::extension(s)->0)
            == suffix.skip(1),
{
    let lower = text::ascii_lower_all(s);
    let n = s.len() as int;
    let k = suffix.len() - 1;
    let tail = s.skip(n - k);
    assert forall|i: int| 0 <= i < suffix.len() implies #[trigger] suffix[i] == text::ascii_lower(
        s[n - k - 1 + i],
    ) by {
        assert(lower.skip(n - k - 1)[i] == suffix[i]);
    }
    assert(suffix[0] == text::ascii_lower(s[n - k - 1]));
    lemma_lower_keeps(s[n - k - 1]);
    assert forall|i: int| 0 <= i < tail.len() implies #[trigger] tail[i] != '.' && tail[i]
        != '/' by {
        assert(suffix[i + 1] == text::ascii_lower(s[n - k + i]));
    }
    paths::lemma_extension_of_suffix(s, tail);
    assert(text::ascii_lower_all(tail) =~= suffix.skip(1)) by {
        assert forall|i: int| 0 <= i < k implies text::ascii_lower_all(tail)[i] == suffix.skip(
            1,
        )[i] by {
            assert(suffix[i + 1] == text::ascii_lower(s[n - k + i]));
        }
    }
}

proof fn lemma_lower_keeps(c: char)
    ensures
        text::ascii_lower(c) == '.' ==> c == '.',
{
}

proof fn lemma_image_is_not_external(path: PathView)
    requires
        path == paths::path_of(path.text),
        handlers::image_path(path),
    ensures
        !handlers::archive_path(path),
        !handlers::pdf_path(path),
        !handlers::media_path(path),
{
    let s = path.text;
    let ext = path.ext->0;
    let e = text::ascii_lower_all(ext);
    reveal_strlit("png");
    reveal_strlit("jpg");
    reveal_strlit("jpeg");
    reveal_strlit("gif");
    reveal_strlit("bmp");
    reveal_strlit("webp");
    reveal_strlit("svg");
    reveal_strlit("tif");
    reveal_strlit("tiff");
    assert(e.len() == 3 || e.len() == 4);
    assert(text::all_ascii(e));
    assert(text::all_ascii(ext)) by {
        assert forall|i: int| 0 <= i < ext.len() implies (#[trigger] ext[i]) as u32 <= 127 by {
            assert(e[i] as u32 <= 127);
            lemma_lower_ascii(ext[i]);
        }
    }
    assert(!handlers::media_path(path)) by {
        reveal_strlit("mp3");
        reveal_strlit("wav");
        reveal_strlit("flac");
        reveal_strlit("ogg");
        reveal_strlit("m4a");
        reveal_strlit("aac");
        reveal_strlit("wma");
        reveal_strlit("mp4");
        reveal_strlit("mkv");
        reveal_strlit("avi");
        reveal_strlit("mov");
        reveal_strlit("webm");
        reveal_strlit("wmv");
        reveal_strlit("flv");
        reveal_strlit("mpg");
        reveal_strlit("mpeg");
        assert(e[0] == 'p' || e[0] == 'j' || e[0] == 'g' || e[0] == 'b' || e[0] == 'w' || e[0] == 's'
            || e[0] == 't');
        assert(e[0] == 'w' ==> e[3] == 'p');
    }
    assert(!handlers::pdf_path(path)) by {
        reveal_strlit("pdf");
        if handlers::pdf_path(path) {
            assert(text::ascii_lower_all("pdf"@) =~= "pdf"@);
            assert(e[1] == 'd');
        }
    }
    assert(!handlers::archive_path(path)) by {
        reveal_strlit(".zip");
        reveal_strlit(".7z");
        reveal_strlit(".tar.gz");
        reveal_strlit(".tar");
        reveal_strlit(".gz");
        reveal_strlit(".rar");
        reveal_strlit(".xz");
        let lower = text::ascii_lower_all(s);
        if text::has_suffix(lower, ".tar.gz"@) {
            assert(lower.skip(lower.len() - 3) =~= lower.skip(lower.len() - 7).skip(4));
            assert(".tar.gz"@.skip(4) =~= ".gz"@);
        }
        assert(e[e.len() - 1] == 'g' || e[e.len() - 1] == 'f' || e[e.len() - 1] == 'p');
        if text::has_suffix(lower, ".zip"@) {
            lemma_suffix_is_extension(s, ".zip"@);
            assert(".zip"@.skip(1)[1] == 'i');
        } else if text::has_suffix(lower, ".7z"@) {
            lemma_suffix_is_extension(s, ".7z"@);
        } else if text::has_suffix(lower, ".tar"@) {
            lemma_suffix_is_extension(s, ".tar"@);
            assert(".tar"@.skip(1)[2] == 'r');
        } else if text::has_suffix(lower, ".gz"@) {
            lemma_suffix_is_extension(s, ".gz"@);
        } else if text::has_suffix(lower, ".rar"@) {
            lemma_suffix_is_extension(s, ".rar"@);
            assert(".rar"@.skip(1)[2] == 'r');
        } else if text::has_suffix(lower, ".xz"@) {
            lemma_suffix_is_extension(s, ".xz"@);
        }
    }
}

proof fn lemma_lower_ascii(c: char)
    ensures
        text::ascii_lower(c) as u32 <= 127 ==> c as u32 <= 127,
{
}

/// A path that exists is handled from the command line as it is in a session: a
/// session starts in a directory, what a session opens with an external program
/// or in an image window is opened so at once, the former with the same
/// command, and all that needs the terminal gets a session. An image with an
/// override is shown at startup all the same.
pub proof fn law_startup_mirrors_the_chain(
    input: PathView,
    path: PathView,
    is_dir: bool,
    mode: Option<u32>,
    state: StateView,
)
    requires
        path.ext is Some ==> path == paths::path_of(path.text),
    ensures
        ({
            let entry = handlers::EntryView { path, is_dir, mode };
            let found = Some(ResolvedView { path, is_dir });
            let started = startup_of(input, found, state.config);
            let opened = handlers::handler_of(entry).opened(entry, state).0;
            match handlers::handler_of(entry) {
                handlers::Handler::Directory(_) => started == StartupView::Directory(path.text),
                handlers::Handler::Archive(_)
                | handlers::Handler::Pdf(_)
                | handlers::Handler::Media(_) => started == StartupView::HandledExternally(
                    external_plan(path, state.config),
                ) && opened == (handlers::ActionView::Spawn {
                    plan: external_plan(path, state.config),
                }),
                handlers::Handler::Image(_) => started == StartupView::ImagePreview(path.text) && (
                handlers::override_cmd(state.config, path) is None ==> opened == (
                handlers::ActionView::Present { path: path.text })),
                _ => started == run_in_session(path),
            }
        }),
{
    if handlers::image_path(path) {
        lemma_image_is_not_external(path);
    }
}

/// The command for a file given on the command line. The user's command for its
/// extension, if there is one, gets the quoted path, whatever the extension and
/// the mode. Without one a Python or JavaScript file runs in its interpreter, any
/// other that may be executed by its path, and all else opens in the editor.
pub proof fn law_command_for_the_path_argument(
    target: PathView,
    mode: Option<u32>,
    config: ConfigView,
)
    ensures
        ({
            let cmd = target_command(target, mode, config);
            let quoted = shell_inject::quoted(target.text);
            let e = target.ext->0;
            let set = target.ext is Some && config.handlers.contains_key(text::lowercase(e));
            let py = target.ext is Some && text::ascii_lower_all(e) == "py"@;
            let js = target.ext is Some && text::ascii_lower_all(e) == "js"@;
            let runs = mode is Some && mode->0 & 0o111 != 0;
            let absolute = target.text.len() > 0 && target.text[0] == '/';
            &&& set ==> cmd == "clear; "@ + config.handlers[text::lowercase(e)] + " "@ + quoted
            &&& !set && py ==> cmd == "clear; python "@ + quoted
            &&& !set && js ==> cmd == "clear; node "@ + quoted
            &&& !set && !py && !js && runs && absolute ==> cmd == "clear; "@ + quoted
            &&& !set && !py && !js && runs && !absolute ==> cmd == "clear; ./"@ + quoted
            &&& !set && !py && !js && !runs ==> cmd == "clear; ${EDITOR:-nano} "@ + quoted
        }),
{
    let set = handlers::override_cmd(config, target);
    shell_inject::law_what_is_typed(
        target,
        if set is Some {
            set->0
        } else {
            "${EDITOR:-nano}"@
        },
    );
    reveal_strlit("py");
    reveal_strlit("js");
    reveal_strlit("clear; ");
    reveal_strlit(" ");
    reveal_strlit("${EDITOR:-nano}");
    reveal_strlit("clear; ${EDITOR:-nano} ");
    assert("clear; "@ + "${EDITOR:-nano}"@ + " "@ =~= "clear; ${EDITOR:-nano} "@);
    assert(text::ascii_lower_all("py"@) =~= "py"@);
    assert(text::ascii_lower_all("js"@) =~= "js"@);
    if target.ext is Some {
        let e = target.ext->0;
        let lower = text::ascii_lower_all(e);
        if lower == "py"@ {
            assert(text::ascii_lower(e[0]) == 'p' && text::ascii_lower(e[1]) == 'y') by {
                assert(lower[0] == 'p' && lower[1] == 'y');
            }
            lemma_letter_of(e[0]);
            lemma_letter_of(e[1]);
        }
        if lower == "js"@ {
            assert(text::ascii_lower(e[0]) == 'j' && text::ascii_lower(e[1]) == 's') by {
                assert(lower[0] == 'j' && lower[1] == 's');
            }
            lemma_letter_of(e[0]);
            lemma_letter_of(e[1]);
        }
        if e.len() == 2 {
            lemma_letter_of(e[0]);
            lemma_letter_of(e[1]);
            assert(lower =~= seq![text::ascii_lower(e[0]), text::ascii_lower(e[1])]);
            assert("py"@ =~= seq!['p', 'y']);
            assert("js"@ =~= seq!['j', 's']);
        }
    }
}

proof fn lemma_letter_of(c: char)
    ensures
        text::ascii_lower(c) == 'p' <==> c == 'p' || c == 'P',
        text::ascii_lower(c) == 'y' <==> c == 'y' || c == 'Y',
        text::ascii_lower(c) == 'j' <==> c == 'j' || c == 'J',
        text::ascii_lower(c) == 's' <==> c == 's' || c == 'S',
{
}

/// What a path argument leads to. One that does not exist is an error if it
/// names an image, and else starts a session in its directory. A directory
/// starts a session there. An archive, a PDF file and media are handed to
/// another program, with the user's command for the extension or `xdg-open`. An
/// image is shown. Anything else starts a session in its directory, which is
/// the current one where the path names none.
pub proof fn law_what_a_path_argument_leads_to(
    input: PathView,
    path: PathView,
    is_dir: bool,
    config: ConfigView,
)
    ensures
        ({
            let missing = startup_of(input, None, config);
            let image = input.ext is Some && classify::image_ext(input.ext->0);
            &&& image ==> missing == StartupView::MissingImage(input.text)
            &&& !image ==> missing == (StartupView::RunInSession {
                initial_pwd: if paths::parent(input.text) is Some {
                    paths::parent(input.text)->0
                } else {
                    "."@
                },
                target: input,
            })
        }),
        ({
            let found = startup_of(input, Some(ResolvedView { path, is_dir }), config);
            let outside = handlers::archive_path(path) || handlers::pdf_path(path)
                || handlers::media_path(path);
            let image = path.ext is Some && classify::image_ext(path.ext->0);
            let set = path.ext is Some && config.handlers.contains_key(
                text::lowercase(path.ext->0),
            );
            let cmd = if set {
                config.handlers[text::lowercase(path.ext->0)]
            } else {
                "xdg-open"@
            };
            &&& is_dir ==> found == StartupView::Directory(path.text)
            &&& !is_dir && outside ==> found == StartupView::HandledExternally(
                handlers::spawn_plan(cmd, path.text),
            )
            &&& !is_dir && !outside && image ==> found == StartupView::ImagePreview(path.text)
            &&& !is_dir && !outside && !image ==> found == (StartupView::RunInSession {
                initial_pwd: if paths::parent(path.text) is Some {
                    paths::parent(path.text)->0
                } else {
                    "."@
                },
                target: path,
            })
        }),
{
}

/// Of the readings of a path argument the first that exists counts: against the
/// shell's directory, as the file system resolves it, against the working
/// directory, and as it stands. It counts in its canonical form, if it has one.
pub proof fn law_first_existing_reading_counts<P>(c: Candidates<P>)
    ensures
        ({
            let there = |r: Candidate<P>| r.path is Some && r.exists;
            let form = |r: Candidate<P>|
                if r.canonical is Some {
                    r.canonical
                } else {
                    r.path
                };
            let (a, b, d, e) = (c.from_pwd, c.resolved, c.from_cwd, c.literal);
            &&& there(a) ==> c.found() == form(a)
            &&& !there(a) && there(b) ==> c.found() == form(b)
            &&& !there(a) && !there(b) && there(d) ==> c.found() == form(d)
            &&& !there(a) && !there(b) && !there(d) && there(e) ==> c.found() == form(e)
            &&& !there(a) && !there(b) && !there(d) && !there(e) ==> c.found() is None
        }),
{
}

/// The command that is given for a path argument whose extension has an
/// override: that command, and the quoted path, whatever the mode.
pub proof fn law_override_runs_the_path_argument(
    target: &EntryPath,
    mode: Option<u32>,
    config: &Config,
    cmd: Seq<char>,
    r: String,
)
    requires
        call_ensures(startup_command, (target, mode, config), r),
        target@.ext is Some,
        config@.handlers.contains_key(text::lowercase(target@.ext->0)),
        config@.handlers[text::lowercase(target@.ext->0)] == cmd,
    ensures
        r@ == "clear; "@ + cmd + " "@ + shell_inject::quoted(target@.text),
{
    law_command_for_the_path_argument(target@, mode, config@);
}

/// What follows from the decision about a path argument: a session in the
/// directory that was found, or in that of the file that is to be run in it;
/// the external program; the image; or the report that an image is missing.
pub proof fn law_what_follows_from_the_path_argument(action: StartupAction, r: Launch)
    requires
        call_ensures(plan_launch, (action,), r),
    ensures
        match action@ {
            StartupView::Directory(dir) => r@ == (LaunchView::Session {
                initial_pwd: dir,
                target: None,
            }),
            StartupView::HandledExternally(plan) => r@ == LaunchView::External(plan),
            StartupView::ImagePreview(path) => r@ == LaunchView::Preview(path),
            StartupView::MissingImage(path) => r@ == LaunchView::Fail(
                "Error: Image file not found: "@ + path,
            ),
            StartupView::RunInSession { initial_pwd, target } => r@ == (LaunchView::Session {
                initial_pwd,
                target: Some(target),
            }),
        },
{
}

/// The decision about a path argument, as it is made: that which follows from
/// what exists and from the configuration.
pub proof fn law_decision_about_a_path_argument(
    input: &EntryPath,
    found: &Resolved,
    config: &Config,
    there: StartupAction,
    missing: StartupAction,
)
    requires
        call_ensures(classify_startup, (input, Some(found), config), there),
        call_ensures(classify_startup, (input, None::<&Resolved>, config), missing),
    ensures
        there@ == startup_of(input@, Some(found@), config@),
        missing@ == startup_of(input@, None, config@),
        found.is_dir ==> there@ == StartupView::Directory(found.path@.text),
        missing@ is MissingImage <==> input@.ext is Some && classify::image_ext(input@.ext->0),
        missing@ is MissingImage || missing@ is RunInSession,
{
    law_what_a_path_argument_leads_to(input@, found.path@, found.is_dir, config@);
}

/// The reading of a path argument that is taken is the first that exists.
pub proof fn law_reading_that_is_taken<P>(candidates: Candidates<P>, r: Option<P>)
    requires
        call_ensures(resolve_path::<P>, (candidates,), r),
    ensures
        r == candidates.found(),
        candidates.from_pwd.path is Some && candidates.from_pwd.exists ==> r == if candidates.from_pwd.canonical
            is Some {
            candidates.from_pwd.canonical
        } else {
            candidates.from_pwd.path
        },
{
    law_first_existing_reading_counts(candidates);
}

} // verus!
