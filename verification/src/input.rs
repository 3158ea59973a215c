//! What keys, the pointer and dragged files do in a session.

use crate::paths;
use crate::state;
use crate::state::{State, StateView};
use crate::text;
use vstd::prelude::*;

verus! {

/// The keys that mean something by themselves.
#[derive(Clone, Copy, PartialEq, Eq, Structural, Debug)]
pub enum Key {
    UpperC,
    UpperV,
    LowerC,
    LowerV,
    LowerQ,
    Equal,
    KeypadAdd,
    Minus,
    KeypadSubtract,
    Other,
}

/// A key that was pressed.
pub struct KeyPress {
    pub key: Key,
    /// The key value, under which shortcuts are kept.
    pub keyval: u32,
    pub ctrl: bool,
    pub shift: bool,
    /// Control is held, and no other modifier.
    pub only_ctrl: bool,
}

/// What a key does.
pub enum KeyAction {
    /// Copy the selection.
    Copy,
    /// Paste the clipboard.
    Paste,
    /// Open the entry at this path.
    Open(String),
    /// Nothing; the terminal does not see the key either.
    Swallow,
    GrowFont,
    ShrinkFont,
    /// The terminal gets the key.
    Pass,
}

/// A [`KeyAction`] in a contract.
pub enum KeyActionView {
    Copy,
    Paste,
    Open(Seq<char>),
    Swallow,
    GrowFont,
    ShrinkFont,
    Pass,
}

impl View for KeyAction {
    type V = KeyActionView;

    open spec fn view(&self) -> KeyActionView {
        match self {
            KeyAction::Copy => KeyActionView::Copy,
            KeyAction::Paste => KeyActionView::Paste,
            KeyAction::Open(path) => KeyActionView::Open(path@),
            KeyAction::Swallow => KeyActionView::Swallow,
            KeyAction::GrowFont => KeyActionView::GrowFont,
            KeyAction::ShrinkFont => KeyActionView::ShrinkFont,
            KeyAction::Pass => KeyActionView::Pass,
        }
    }
}

/// What a key does. Copy and paste with Shift always work; all else is for the
/// program in the foreground while that is not the shell. Ctrl-C copies only
/// where something is selected, and else falls through to the shell; shortcuts
/// come before the keys for the font.
pub open spec fn key_effect(
    press: KeyPress,
    foreground: Option<i32>,
    has_selection: bool,
    state: StateView,
) -> KeyActionView {
    if press.ctrl && press.shift && press.key == Key::UpperC {
        KeyActionView::Copy
    } else if press.ctrl && press.shift && press.key == Key::UpperV {
        KeyActionView::Paste
    } else if state::busy(state.shell_pid, foreground) {
        KeyActionView::Pass
    } else if press.ctrl && press.key == Key::LowerV {
        KeyActionView::Paste
    } else if press.ctrl && press.key == Key::LowerC && has_selection {
        KeyActionView::Copy
    } else if press.ctrl && state::shortcut_target(state, press.keyval) is Some {
        KeyActionView::Open(state::shortcut_target(state, press.keyval)->0)
    } else if press.only_ctrl && press.key == Key::LowerQ {
        KeyActionView::Swallow
    } else if press.only_ctrl && (press.key == Key::Equal || press.key == Key::KeypadAdd) {
        KeyActionView::GrowFont
    } else if press.only_ctrl && (press.key == Key::Minus || press.key == Key::KeypadSubtract) {
        KeyActionView::ShrinkFont
    } else {
        KeyActionView::Pass
    }
}

/// Decide what a key does; `foreground` is the process group in the foreground
/// of the terminal, if it has one.
pub fn key_action(
    press: &KeyPress,
    foreground: Option<i32>,
    has_selection: bool,
    state: &State,
) -> (r: KeyAction)
    ensures
        r@ == key_effect(*press, foreground, has_selection, state@),
{
    if press.ctrl && press.shift {
        if press.key == Key::UpperC {
            return KeyAction::Copy;
        }
        if press.key == Key::UpperV {
            return KeyAction::Paste;
        }
    }
    if state.is_busy(foreground) {
        return KeyAction::Pass;
    }
    if press.ctrl {
        if press.key == Key::LowerV {
            return KeyAction::Paste;
        }
        if press.key == Key::LowerC && has_selection {
            return KeyAction::Copy;
        }
        if let Some(path) = state.shortcut_path(press.keyval) {
            return KeyAction::Open(path);
        }
    }
    if press.only_ctrl {
        if press.key == Key::LowerQ {
            return KeyAction::Swallow;
        }
        if press.key == Key::Equal || press.key == Key::KeypadAdd {
            return KeyAction::GrowFont;
        }
        if press.key == Key::Minus || press.key == Key::KeypadSubtract {
            return KeyAction::ShrinkFont;
        }
    }
    KeyAction::Pass
}

/// While another program has the foreground, no key but copy and paste with
/// Shift is taken from it.
pub proof fn law_busy_terminal_gets_its_keys(
    press: KeyPress,
    foreground: Option<i32>,
    has_selection: bool,
    state: StateView,
)
    requires
        state::busy(state.shell_pid, foreground),
        !(press.ctrl && press.shift && (press.key == Key::UpperC || press.key == Key::UpperV)),
    ensures
        key_effect(press, foreground, has_selection, state) == KeyActionView::Pass,
{
}

/// The font size that a session starts with, in pixels.
pub const INITIAL_FONT_PX: i32 = 20;

/// The font size one pixel larger or smaller.
pub fn step_font(size: i32, grow: bool) -> (r: i32)
    requires
        grow ==> size < i32::MAX,
        !grow ==> size > i32::MIN,
    ensures
        r == if grow {
            size + 1
        } else {
            size - 1
        },
{
    if grow {
        size + 1
    } else {
        size - 1
    }
}

/// The style sheet for a font size.
pub open spec fn font_sheet(size: int) -> Seq<char> {
    let digits = if size < 0 {
        seq!['-'] + text::decimal_digits((-size) as nat)
    } else {
        text::decimal_digits(size as nat)
    };
    "* { font-size: "@ + digits + "px; }"@
}

/// The style sheet for a font size in pixels.
pub fn font_css(size: i32) -> (r: String)
    ensures
        r@ == font_sheet(size as int),
{
    let mut out = "* { font-size: ".to_owned();
    let ghost head = out@;
    if size < 0 {
        out.push('-');
        out.push_str(text::decimal((-(size as i64)) as u32).as_str());
    } else {
        out.push_str(text::decimal(size as u32).as_str());
    }
    out.push_str("px; }");
    assert(out@ =~= font_sheet(size as int));
    out
}

/// What the pointer rests on.
pub struct Hover {
    /// The image under the pointer.
    pub current: Option<String>,
}

/// What a move of the pointer leads to.
#[derive(Clone, Copy, PartialEq, Eq, Structural, Debug)]
pub enum HoverStep {
    /// The pointer rests on what it rested on.
    Same,
    /// Drop what is shown or about to be shown.
    Clear,
    /// The same, and start to wait for a preview of the new image.
    Restart,
}

/// What a move of the pointer from one image to another leads to; either may be
/// something that is no image.
pub open spec fn hover_step(from: Option<Seq<char>>, to: Option<Seq<char>>) -> HoverStep {
    if to == from {
        HoverStep::Same
    } else if to is None {
        HoverStep::Clear
    } else {
        HoverStep::Restart
    }
}

impl Hover {
    pub fn new() -> (r: Hover)
        ensures
            paths::opt_view(r.current) is None,
    {
        Hover { current: None }
    }

    /// The pointer moves to an image, or to something else.
    pub fn move_to(&mut self, image: Option<String>) -> (r: HoverStep)
        ensures
            paths::opt_view(final(self).current) == paths::opt_view(image),
            r == if paths::opt_view(image) == paths::opt_view(old(self).current) {
                HoverStep::Same
            } else if image is None {
                HoverStep::Clear
            } else {
                HoverStep::Restart
            },
            r == hover_step(paths::opt_view(old(self).current), paths::opt_view(image)),
    {
        let step = match (&self.current, &image) {
            (None, None) => HoverStep::Same,
            (Some(a), Some(b)) => if text::same(a.as_str(), b.as_str()) {
                HoverStep::Same
            } else {
                HoverStep::Restart
            },
            (None, Some(_)) => HoverStep::Restart,
            (Some(_), None) => HoverStep::Clear,
        };
        self.current = image;
        step
    }

    /// The pointer leaves the listing.
    pub fn leave(&mut self)
        ensures
            paths::opt_view(final(self).current) is None,
    {
        self.current = None;
    }
}

/// What is shown while a file is held over the window.
pub struct DropCaption {
    pub title: String,
    pub detail: String,
    /// Dropping it here has no effect.
    pub no_effect: bool,
}

/// A [`DropCaption`] in a contract.
#[verifier::ext_equal]
pub struct CaptionView {
    pub title: Seq<char>,
    pub detail: Seq<char>,
    pub no_effect: bool,
}

impl View for DropCaption {
    type V = CaptionView;

    open spec fn view(&self) -> CaptionView {
        CaptionView { title: self.title@, detail: self.detail@, no_effect: self.no_effect }
    }
}

pub open spec fn text_or(given: Option<Seq<char>>, default: Seq<char>) -> Seq<char> {
    match given {
        Some(s) => s,
        None => default,
    }
}

pub open spec fn caption_of(
    filename: Option<Seq<char>>,
    source: Option<Seq<char>>,
    dest: Seq<char>,
    same: bool,
) -> CaptionView {
    if same {
        CaptionView {
            title: "No Effect"@,
            detail: "Source and destination are the same."@,
            no_effect: true,
        }
    } else {
        CaptionView {
            title: "Move '"@ + text_or(filename, "Unknown File"@) + "'"@,
            detail: "From: "@ + text_or(source, "External Source"@) + "\nTo: "@ + dest,
            no_effect: false,
        }
    }
}

/// The caption for a file: its name and its directory, as far as they are
/// known, the directory that it would move to, and whether it is there.
pub fn drop_caption(
    filename: Option<&str>,
    source: Option<&str>,
    dest: &str,
    same: bool,
) -> (r: DropCaption)
    ensures
        r@ == caption_of(paths::opt_str_view(filename), paths::opt_str_view(source), dest@, same),
{
    if same {
        return DropCaption {
            title: "No Effect".to_owned(),
            detail: "Source and destination are the same.".to_owned(),
            no_effect: true,
        };
    }
    let mut title = "Move '".to_owned();
    title.push_str(
        match filename {
            Some(name) => name,
            None => "Unknown File",
        },
    );
    title.push_str("'");
    let mut detail = "From: ".to_owned();
    detail.push_str(
        match source {
            Some(dir) => dir,
            None => "External Source",
        },
    );
    detail.push_str("\nTo: ");
    detail.push_str(dest);
    DropCaption { title, detail, no_effect: false }
}

/// What the keys do while the shell has the foreground. Copy and paste work
/// with Shift in any case; without it Ctrl-V pastes, and Ctrl-C copies where
/// something is selected and else goes to the shell. Ctrl with the key of a
/// shortcut opens what it stands for. Ctrl alone with `q` does nothing, and
/// with `=` or `-`, of the keypad or not, it changes the font. Every other key
/// goes to the shell.
pub proof fn law_what_keys_do(
    press: KeyPress,
    foreground: Option<i32>,
    has_selection: bool,
    state: StateView,
)
    ensures
        ({
            let does = key_effect(press, foreground, has_selection, state);
            let both = press.ctrl && press.shift;
            let taken = both && (press.key == Key::UpperC || press.key == Key::UpperV);
            let idle = state.shell_pid is None || foreground is None || state.shell_pid
                == foreground;
            let paste = press.ctrl && press.key == Key::LowerV;
            let copy = press.ctrl && press.key == Key::LowerC && has_selection;
            let target = state::shortcut_target(state, press.keyval);
            let open = press.ctrl && target is Some && !paste && !copy;
            let alone = press.only_ctrl && !paste && !copy && !open;
            let grow = press.key == Key::Equal || press.key == Key::KeypadAdd;
            let shrink = press.key == Key::Minus || press.key == Key::KeypadSubtract;
            &&& both && press.key == Key::UpperC ==> does is Copy
            &&& both && press.key == Key::UpperV ==> does is Paste
            &&& !taken && !idle ==> does is Pass
            &&& !taken && idle && paste ==> does is Paste
            &&& !taken && idle && copy ==> does is Copy
            &&& !taken && idle && open ==> does == KeyActionView::Open(target->0)
            &&& !taken && idle && alone && press.key == Key::LowerQ ==> does is Swallow
            &&& !taken && idle && alone && grow ==> does is GrowFont
            &&& !taken && idle && alone && shrink ==> does is ShrinkFont
            &&& !taken && idle && !paste && !copy && !open && !(press.only_ctrl && (press.key
                == Key::LowerQ || grow || shrink)) ==> does is Pass
        }),
{
}

/// The style sheet names the font size in decimal, with a sign where it is
/// negative.
pub proof fn law_style_sheet_names_the_size(n: nat)
    ensures
        font_sheet(n as int) == "* { font-size: "@ + text::decimal_digits(n) + "px; }"@,
        n > 0 ==> font_sheet(-(n as int)) == "* { font-size: "@ + (seq!['-']
            + text::decimal_digits(n)) + "px; }"@,
{
}

/// What is shown of a file held over the window: its name and where it would
/// move from and to, with stand-ins for what is not known; or that dropping it
/// has no effect.
pub proof fn law_caption_of_a_file(
    name: Option<Seq<char>>,
    from: Option<Seq<char>>,
    dest: Seq<char>,
)
    ensures
        ({
            let moved = caption_of(name, from, dest, false);
            let kept = caption_of(name, from, dest, true);
            &&& name is Some ==> moved.title == "Move '"@ + name->0 + "'"@
            &&& name is None ==> moved.title == "Move '"@ + "Unknown File"@ + "'"@
            &&& from is Some ==> moved.detail == "From: "@ + from->0 + "\nTo: "@ + dest
            &&& from is None ==> moved.detail == "From: "@ + "External Source"@ + "\nTo: "@ + dest
            &&& !moved.no_effect
            &&& kept.title == "No Effect"@
            &&& kept.detail == "Source and destination are the same."@
            &&& kept.no_effect
        }),
{
}

/// A step of the font is one pixel, and a step back undoes it.
pub proof fn law_font_steps(size: i32, larger: i32, back: i32)
    requires
        size < i32::MAX,
        call_ensures(step_font, (size, true), larger),
        call_ensures(step_font, (larger, false), back),
    ensures
        larger == size + 1,
        back == size,
{
}

/// Nothing changes where the pointer stays on an image, or off all of them. A
/// preview is waited for where it comes to an image from anything else, and
/// dropped where it leaves one for something else.
pub proof fn law_pointer_moves(a: Seq<char>, b: Seq<char>)
    ensures
        hover_step(Some(a), Some(a)) == HoverStep::Same,
        hover_step(None, None) == HoverStep::Same,
        a != b ==> hover_step(Some(a), Some(b)) == HoverStep::Restart,
        hover_step(None, Some(a)) == HoverStep::Restart,
        hover_step(Some(a), None) == HoverStep::Clear,
{
}

/// The style sheet, the caption and the effect of a key, as they are given.
pub proof fn law_what_is_shown_and_done(
    size: i32,
    sheet: String,
    name: &str,
    from: &str,
    dest: &str,
    caption: DropCaption,
    press: &KeyPress,
    foreground: Option<i32>,
    selected: bool,
    session: &State,
    action: KeyAction,
)
    requires
        call_ensures(font_css, (size,), sheet),
        call_ensures(drop_caption, (Some(name), Some(from), dest, false), caption),
        call_ensures(key_action, (press, foreground, selected, session), action),
    ensures
        size >= 0 ==> sheet@ == "* { font-size: "@ + text::decimal_digits(size as nat) + "px; }"@,
        caption.title@ == "Move '"@ + name@ + "'"@,
        caption.detail@ == "From: "@ + from@ + "\nTo: "@ + dest@,
        !caption.no_effect,
        action@ == key_effect(*press, foreground, selected, session@),
{
    assert(caption@ == caption_of(Some(name@), Some(from@), dest@, false));
}

} // verus!
