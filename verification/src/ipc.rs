//! The per-session IPC protocol, and moving files into a directory. A session
//! answers two messages: `GET_DIR` and `MOVE_FILE:<src>:<dst>`.

use crate::handlers;
use crate::paths;
use crate::state::State;
use crate::text;
use vstd::prelude::*;
use vstd::utf8::*;

verus! {

/// What a client asks for.
pub enum Request {
    /// The current directory. Any message that is not known asks for it too.
    GetDir,
    /// Move a file into a directory.
    Move { source: String, target_dir: String },
    /// A move that does not name both.
    Malformed,
}

/// A [`Request`] in a contract.
pub enum RequestView {
    GetDir,
    Move { source: Seq<char>, target_dir: Seq<char> },
    Malformed,
}

impl View for Request {
    type V = RequestView;

    open spec fn view(&self) -> RequestView {
        match self {
            Request::GetDir => RequestView::GetDir,
            Request::Move { source, target_dir } => RequestView::Move {
                source: source@,
                target_dir: target_dir@,
            },
            Request::Malformed => RequestView::Malformed,
        }
    }
}

/// The request that a message stands for. The first colon behind `MOVE_FILE:`
/// parts the file from the directory.
pub open spec fn request_of(message: Seq<char>) -> RequestView {
    if text::has_prefix(message, "MOVE_FILE:"@) {
        let rest = message.skip("MOVE_FILE:"@.len() as int);
        let colon = text::first_at(rest, ':');
        if colon < rest.len() {
            RequestView::Move { source: rest.take(colon), target_dir: rest.skip(colon + 1) }
        } else {
            RequestView::Malformed
        }
    } else {
        RequestView::GetDir
    }
}

/// The request in the bytes of a message; what is not UTF-8 in them is read
/// with replacement characters.
pub fn read_request(message: &[u8]) -> (r: Request)
    ensures
        r@ == request_of(text::lossy_text(message@)),
{
    let message = text::from_utf8_lossy(message);
    match text::strip_prefix(message.as_str(), "MOVE_FILE:") {
        Some(rest) => {
            let chars = text::chars_of(rest.as_str());
            let colon: usize = text::find_char(&chars, ':');
            if colon < chars.len() {
                proof {
                    assert(chars@.subrange(0, colon as int) =~= chars@.take(colon as int));
                    assert(chars@.subrange(colon + 1, chars@.len() as int) =~= chars@.skip(
                        colon + 1,
                    ));
                }
                Request::Move {
                    source: text::string_of(&chars, 0, colon),
                    target_dir: text::string_of(&chars, colon + 1, chars.len()),
                }
            } else {
                Request::Malformed
            }
        },
        None => Request::GetDir,
    }
}

/// What the server does about a message.
pub enum Step {
    /// Send these bytes.
    Reply { bytes: Vec<u8> },
    /// Decide about a move with [`decide_move`], and answer with what comes of
    /// it.
    Move { source: String, target_dir: String },
}

/// A [`Step`] in a contract.
pub enum StepView {
    Reply { bytes: Seq<u8> },
    Move { source: Seq<char>, target_dir: Seq<char> },
}

impl View for Step {
    type V = StepView;

    open spec fn view(&self) -> StepView {
        match self {
            Step::Reply { bytes } => StepView::Reply { bytes: bytes@ },
            Step::Move { source, target_dir } => StepView::Move {
                source: source@,
                target_dir: target_dir@,
            },
        }
    }
}

pub open spec fn step_of(request: RequestView, cd: Seq<char>) -> StepView {
    match request {
        RequestView::GetDir => StepView::Reply { bytes: encode_utf8(cd) },
        RequestView::Move { source, target_dir } => StepView::Move { source, target_dir },
        RequestView::Malformed => StepView::Reply {
            bytes: encode_utf8("ERROR:Invalid message format"@),
        },
    }
}

/// Answer one message of a client.
pub fn serve(message: &[u8], state: &State) -> (r: Step)
    ensures
        r@ == step_of(request_of(text::lossy_text(message@)), state@.cd),
{
    match read_request(message) {
        Request::GetDir => Step::Reply { bytes: state.current_directory.as_str().as_bytes_vec() },
        Request::Move { source, target_dir } => Step::Move { source, target_dir },
        Request::Malformed => Step::Reply { bytes: "ERROR:Invalid message format".as_bytes_vec() },
    }
}

/// Whether a file is to be moved, and where to.
pub enum MoveDecision {
    /// It lies in the directory already.
    SameDirectory,
    /// Its path has no file name.
    InvalidName,
    /// Rename it to this path.
    Rename { to: String },
}

/// A [`MoveDecision`] in a contract.
pub enum MoveView {
    SameDirectory,
    InvalidName,
    Rename { to: Seq<char> },
}

impl View for MoveDecision {
    type V = MoveView;

    open spec fn view(&self) -> MoveView {
        match self {
            MoveDecision::SameDirectory => MoveView::SameDirectory,
            MoveDecision::InvalidName => MoveView::InvalidName,
            MoveDecision::Rename { to } => MoveView::Rename { to: to@ },
        }
    }
}

/// A file keeps its name, and does not move where it lies already.
pub open spec fn move_of(source: Seq<char>, target_dir: Seq<char>, same: bool) -> MoveView {
    if same {
        MoveView::SameDirectory
    } else {
        match paths::file_name(source) {
            Some(name) => MoveView::Rename { to: paths::joined(target_dir, name) },
            None => MoveView::InvalidName,
        }
    }
}

/// Decide about moving `source` into `target_dir`, given the canonical forms
/// of its parent and of the directory where the file system knows them.
pub fn decide_move(
    source: &str,
    target_dir: &str,
    canonical_parent: Option<&str>,
    canonical_target: Option<&str>,
) -> (r: MoveDecision)
    ensures
        r@ == move_of(
            source@,
            target_dir@,
            handlers::in_dir(
                source@,
                target_dir@,
                paths::opt_str_view(canonical_parent),
                paths::opt_str_view(canonical_target),
            ),
        ),
{
    if handlers::same_dir(source, target_dir, canonical_parent, canonical_target) {
        return MoveDecision::SameDirectory;
    }
    match paths::path_file_name(source) {
        Some(name) => MoveDecision::Rename { to: paths::path_join(target_dir, name.as_str()) },
        None => MoveDecision::InvalidName,
    }
}

/// The answer to a move that is not to be made.
pub open spec fn refusal_of(decision: MoveView) -> Option<Seq<u8>> {
    match decision {
        MoveView::SameDirectory => Some(encode_utf8("ERROR:Same directory"@)),
        MoveView::InvalidName => Some(encode_utf8("ERROR:Invalid filename"@)),
        MoveView::Rename { to } => None,
    }
}

pub open spec fn bytes_view(bytes: Option<Vec<u8>>) -> Option<Seq<u8>> {
    match bytes {
        Some(b) => Some(b@),
        None => None,
    }
}

/// The answer to a move that is not to be made; none where it is to be made.
pub fn move_refusal(decision: &MoveDecision) -> (r: Option<Vec<u8>>)
    ensures
        bytes_view(r) == refusal_of(decision@),
{
    match decision {
        MoveDecision::SameDirectory => Some("ERROR:Same directory".as_bytes_vec()),
        MoveDecision::InvalidName => Some("ERROR:Invalid filename".as_bytes_vec()),
        MoveDecision::Rename { .. } => None,
    }
}

/// The answer to a move that was tried: `error` is what the file system said.
pub fn move_reply(error: Option<&str>) -> (r: Vec<u8>)
    ensures
        r@ == encode_utf8(
            match error {
                Some(e) => "ERROR:"@ + e@,
                None => "OK:File moved"@,
            },
        ),
{
    match error {
        Some(e) => {
            let mut out = "ERROR:".to_owned();
            out.push_str(e);
            out.as_str().as_bytes_vec()
        },
        None => "OK:File moved".as_bytes_vec(),
    }
}

/// The message that asks a session for its directory.
pub fn get_dir_request() -> (r: Vec<u8>)
    ensures
        r@ == encode_utf8("GET_DIR"@),
{
    "GET_DIR".as_bytes_vec()
}

/// The directory that a session's answer names, if it names one.
pub open spec fn inherited(answer: Seq<char>) -> Option<Seq<char>> {
    if answer.len() == 0 {
        None
    } else {
        Some(text::trimmed(answer))
    }
}

/// The directory to start in after a session has been asked for its own;
/// `answer` is what it sent.
pub fn inherited_directory(answer: &str) -> (r: Option<String>)
    ensures
        paths::opt_view(r) == inherited(answer@),
{
    if answer.is_empty() {
        None
    } else {
        Some(answer.trim().to_owned())
    }
}

/// The path of the socket of the session with this process id.
pub fn socket_path(pid: u32) -> (r: String)
    ensures
        r@ == "/tmp/moet-"@ + text::decimal_digits(pid as nat) + ".sock"@,
{
    let mut out = "/tmp/moet-".to_owned();
    out.push_str(text::decimal(pid).as_str());
    out.push_str(".sock");
    out
}

proof fn lemma_first_at_is(s: Seq<char>, c: char, i: int)
    requires
        0 <= i < s.len(),
        s[i] == c,
        forall|j: int| 0 <= j < i ==> s[j] != c,
    ensures
        text::first_at(s, c) == i,
{
    text::lemma_first_at(s, c);
}

/// The message `MOVE_FILE:<src>:<dst>` is read as the move of `src` to `dst`,
/// where `src` holds no colon; `dst` may.
pub proof fn law_move_request_is_read_back(src: Seq<char>, dst: Seq<char>)
    requires
        forall|i: int| 0 <= i < src.len() ==> src[i] != ':',
    ensures
        request_of(text::lossy_text(encode_utf8("MOVE_FILE:"@ + src + seq![':'] + dst)))
            == (RequestView::Move { source: src, target_dir: dst }),
{
    let message = "MOVE_FILE:"@ + src + seq![':'] + dst;
    encode_utf8_valid_utf8(message);
    encode_utf8_decode_utf8(message);
    assert(text::lossy_text(encode_utf8(message)) == message);
    let n = "MOVE_FILE:"@.len() as int;
    let rest = message.skip(n);
    assert(message.take(n) =~= "MOVE_FILE:"@);
    assert(rest =~= src + seq![':'] + dst);
    lemma_first_at_is(rest, ':', src.len() as int);
    assert(rest.take(src.len() as int) =~= src);
    assert(rest.skip(src.len() as int + 1) =~= dst);
}

/// The request of [`get_dir_request`] is answered with the current directory,
/// and a session that joins by the answer starts there, if neither end of the
/// directory's name is white space.
pub proof fn law_joining_session_inherits_the_directory(cd: Seq<char>)
    requires
        cd.len() > 0,
        text::trimmed(cd) == cd,
    ensures
        step_of(request_of(text::lossy_text(encode_utf8("GET_DIR"@))), cd) == (StepView::Reply {
            bytes: encode_utf8(cd),
        }),
        inherited(text::lossy_text(encode_utf8(cd))) == Some(cd),
{
    reveal_strlit("GET_DIR");
    reveal_strlit("MOVE_FILE:");
    encode_utf8_valid_utf8("GET_DIR"@);
    encode_utf8_decode_utf8("GET_DIR"@);
    encode_utf8_valid_utf8(cd);
    encode_utf8_decode_utf8(cd);
}

/// A file that is moved keeps its name, and ends up directly in the directory.
pub proof fn law_moved_file_keeps_its_name(source: Seq<char>, dir: Seq<char>)
    requires
        move_of(source, dir, false) is Rename,
    ensures
        paths::file_name(source) is Some,
        move_of(source, dir, false)->to == paths::joined(dir, paths::file_name(source)->0),
        paths::path_names(move_of(source, dir, false)->to) == paths::path_names(dir).push(
            paths::file_name(source)->0,
        ),
{
    let name = paths::file_name(source)->0;
    paths::lemma_names_are_plain(source);
    paths::lemma_joined_name(dir, name);
}

/// A message that does not begin with `MOVE_FILE:` asks for the directory, and
/// one that does and has no colon behind that is malformed.
pub proof fn law_other_messages(message: Seq<char>, rest: Seq<char>)
    ensures
        message.len() < 10 || message.take(10) != seq![
            'M',
            'O',
            'V',
            'E',
            '_',
            'F',
            'I',
            'L',
            'E',
            ':',
        ] ==> request_of(message) is GetDir,
        (forall|i: int| 0 <= i < rest.len() ==> #[trigger] rest[i] != ':') ==> request_of(
            "MOVE_FILE:"@ + rest,
        ) is Malformed,
        request_of("MOVE_FILE:"@ + rest) !is GetDir,
{
    reveal_strlit("MOVE_FILE:");
    let head = "MOVE_FILE:"@;
    assert(head =~= seq!['M', 'O', 'V', 'E', '_', 'F', 'I', 'L', 'E', ':']);
    let m = head + rest;
    assert(m.take(10) =~= head);
    assert(m.skip(10) =~= rest);
    text::lemma_first_at(rest, ':');
}

/// The answer to a message: the directory, as bytes, to whoever asks for it, an
/// error to a malformed one, and what comes of the move to one that asks for it.
pub proof fn law_answers(cd: Seq<char>, source: Seq<char>, target_dir: Seq<char>)
    ensures
        step_of(RequestView::GetDir, cd) == (StepView::Reply { bytes: encode_utf8(cd) }),
        step_of(RequestView::Malformed, cd) == (StepView::Reply {
            bytes: encode_utf8("ERROR:Invalid message format"@),
        }),
        step_of(RequestView::Move { source, target_dir }, cd) == (StepView::Move {
            source,
            target_dir,
        }),
{
}

/// A file is moved into a directory under its own name, unless it lies there
/// already or has no name: that is refused, and answered with the reason.
pub proof fn law_moves_and_refusals(dir: Seq<char>, name: Seq<char>, target: Seq<char>)
    requires
        dir.len() > 0,
        target.len() > 0,
        target[target.len() - 1] != '/',
        name.len() > 0 && name != seq!['.'] && name != seq!['.', '.'] && paths::no_slash(name),
    ensures
        move_of(paths::under(dir, name), target, false) == (MoveView::Rename {
            to: paths::under(target, name),
        }),
        move_of(paths::under(dir, seq!['.', '.']), target, false) is InvalidName,
        move_of(seq!['/'], target, false) is InvalidName,
        move_of(paths::under(dir, name), target, true) is SameDirectory,
        refusal_of(MoveView::SameDirectory) == Some(encode_utf8("ERROR:Same directory"@)),
        refusal_of(MoveView::InvalidName) == Some(encode_utf8("ERROR:Invalid filename"@)),
        refusal_of(MoveView::Rename { to: target }) is None,
{
    paths::law_file_name_is_the_last_component(dir, name);
    let up = seq!['.', '.'];
    assert(up != seq!['.']) by {
        assert(up.len() == 2);
    }
    assert(paths::no_slash(up));
    paths::law_file_name_is_the_last_component(dir, up);
    paths::law_file_name_is_the_last_component(Seq::<char>::empty(), name);
    assert(paths::under(Seq::<char>::empty(), Seq::<char>::empty()) =~= seq!['/']);
    paths::law_joined_by_one_slash(target, name);
    assert(name[0] != '/');
}

/// Whether a file is moved is decided by where it lies: one that lies in the
/// directory stays, one that lies above or below it moves there.
pub proof fn law_only_files_from_elsewhere_move(
    file: Seq<char>,
    target: Seq<char>,
    parent: Seq<char>,
    sub: Seq<char>,
)
    requires
        paths::parent(file) is Some,
        paths::file_name(file) is Some,
        sub.len() > 0 && sub != seq!['.'] && paths::no_slash(sub),
    ensures
        move_of(file, target, handlers::in_dir(file, target, Some(parent), Some(parent)))
            is SameDirectory,
        move_of(
            file,
            target,
            handlers::in_dir(file, target, Some(paths::under(parent, sub)), Some(parent)),
        ) == (MoveView::Rename { to: paths::joined(target, paths::file_name(file)->0) }),
        move_of(
            file,
            target,
            handlers::in_dir(file, target, Some(parent), Some(paths::under(parent, sub))),
        ) == (MoveView::Rename { to: paths::joined(target, paths::file_name(file)->0) }),
{
    handlers::law_known_directories_are_compared(file, target, parent, parent, sub);
}

/// An answer names the directory to start in, white space around it or not; no
/// answer names none.
pub proof fn law_directory_in_an_answer(lead: Seq<char>, dir: Seq<char>, tail: Seq<char>)
    requires
        text::all_white(lead),
        text::all_white(tail),
        dir.len() > 0 && !text::white_space(dir[0]) && !text::white_space(dir.last()),
    ensures
        inherited(lead + dir + tail) == Some(dir),
        inherited(Seq::<char>::empty()) is None,
{
    text::law_trimmed_is_what_stands_between(lead, dir, tail);
}

/// Each process has a socket of its own, directly under `/tmp`.
pub proof fn law_sockets_are_distinct(p: u32, q: u32, a: String, b: String)
    requires
        call_ensures(socket_path, (p,), a),
        call_ensures(socket_path, (q,), b),
    ensures
        a@ == b@ <==> p == q,
        a@ == "/tmp/moet-"@ + text::decimal_digits(p as nat) + ".sock"@,
{
    let (x, y) = (text::decimal_digits(p as nat), text::decimal_digits(q as nat));
    if a@ == b@ {
        let h = "/tmp/moet-"@.len() as int;
        assert(a@.subrange(h, h + x.len()) =~= x);
        assert(a@.len() == h + x.len() + ".sock"@.len());
        assert(b@.len() == h + y.len() + ".sock"@.len());
        assert(b@.subrange(h, h + y.len()) =~= y);
        text::lemma_digits_are_distinct(p as nat, q as nat);
    }
}

/// The answer to a move that was tried says that the file moved, or why not.
pub proof fn law_answer_to_a_tried_move(error: &str, moved: Vec<u8>, failed: Vec<u8>)
    requires
        call_ensures(move_reply, (None::<&str>,), moved),
        call_ensures(move_reply, (Some(error),), failed),
    ensures
        moved@ == encode_utf8("OK:File moved"@),
        failed@ == encode_utf8("ERROR:"@ + error@),
{
}

/// What a session answers to the request of another for its directory is its
/// directory.
pub proof fn law_request_is_answered_with_the_directory(
    request: Vec<u8>,
    message: &[u8],
    state: &State,
    r: Step,
)
    requires
        call_ensures(get_dir_request, (), request),
        message@ == request@,
        call_ensures(serve, (message, state), r),
    ensures
        r@ == (StepView::Reply { bytes: encode_utf8(state@.cd) }),
{
    reveal_strlit("GET_DIR");
    encode_utf8_valid_utf8("GET_DIR"@);
    encode_utf8_decode_utf8("GET_DIR"@);
    law_other_messages("GET_DIR"@, seq![]);
    law_answers(state@.cd, seq![], seq![]);
}

/// A move that is asked for is decided about with the file and the directory
/// that the message names.
pub proof fn law_move_is_served(
    src: Seq<char>,
    dst: Seq<char>,
    message: &[u8],
    state: &State,
    r: Step,
)
    requires
        forall|i: int| 0 <= i < src.len() ==> src[i] != ':',
        message@ == encode_utf8("MOVE_FILE:"@ + src + seq![':'] + dst),
        call_ensures(serve, (message, state), r),
    ensures
        r@ == (StepView::Move { source: src, target_dir: dst }),
{
    law_move_request_is_read_back(src, dst);
    law_answers(state@.cd, src, dst);
}

/// An answer of nothing but white space names the empty path.
pub proof fn law_blank_answer(blank: Seq<char>)
    requires
        blank.len() > 0,
        text::all_white(blank),
    ensures
        inherited(blank) == Some(Seq::<char>::empty()),
{
    let none = Seq::<char>::empty();
    text::law_trimmed_is_what_stands_between(blank, none, none);
    assert(blank + none + none =~= blank);
}

/// A file is moved under its own name unless it lies in the directory already or
/// has no name.
pub proof fn law_decided_move(
    source: &str,
    target: &str,
    parent: Option<&str>,
    canonical: Option<&str>,
    same: bool,
    r: MoveDecision,
)
    requires
        call_ensures(decide_move, (source, target, parent, canonical), r),
        call_ensures(handlers::same_dir, (source, target, parent, canonical), same),
    ensures
        r is SameDirectory <==> same,
        r is InvalidName <==> !same && paths::file_name(source@) is None,
        r is Rename ==> r->to@ == paths::joined(target@, paths::file_name(source@)->0),
{
}

/// A move that is refused is answered with the reason, and one that is not is
/// not refused; the directory in an answer is what stands in it, without the
/// white space around it.
pub proof fn law_refusals_and_answers(
    decision: &MoveDecision,
    refusal: Option<Vec<u8>>,
    answer: &str,
    dir: Option<String>,
)
    requires
        call_ensures(move_refusal, (decision,), refusal),
        call_ensures(inherited_directory, (answer,), dir),
    ensures
        decision is Rename <==> refusal is None,
        decision is SameDirectory ==> refusal->0@ == encode_utf8("ERROR:Same directory"@),
        decision is InvalidName ==> refusal->0@ == encode_utf8("ERROR:Invalid filename"@),
        dir is None <==> answer@.len() == 0,
        dir is Some ==> dir->0@ == text::trimmed(answer@),
{
    assert(bytes_view(refusal) == refusal_of(decision@));
    assert(paths::opt_view(dir) == inherited(answer@));
}

/// What is read off a message is read off the text of its bytes.
pub proof fn law_request_in_a_message(message: &[u8], r: Request, state: &State, step: Step)
    requires
        call_ensures(read_request, (message,), r),
        call_ensures(serve, (message, state), step),
    ensures
        r@ == request_of(text::lossy_text(message@)),
        r is Move ==> step@ == (StepView::Move {
            source: r->source@,
            target_dir: r->target_dir@,
        }),
        r is GetDir ==> step@ == (StepView::Reply { bytes: encode_utf8(state@.cd) }),
        r is Malformed ==> step@ == (StepView::Reply {
            bytes: encode_utf8("ERROR:Invalid message format"@),
        }),
{
}

} // verus!
