//! The command line: what it asks for, and the help text.

use crate::text;
use vstd::prelude::*;

verus! {

/// Printed for `--help`.
pub const HELP_TEXT: &'static str = "Moet - A file manager
Usage: moet [OPTIONS]

Options:
  -h, --help               Print help
  --ls [PATH]              Print labeled listing to stdout, then exit
  --join-session PATH      Join session at socket path
  --print-default-config   Print the default moet.conf to stdout
";

/// Where a run starts.
pub enum StartPoint {
    /// In the directory of the session behind this socket, if one is named.
    JoinSession(Option<String>),
    /// At this path.
    Path(String),
    /// In the working directory.
    Here,
}

/// What the command line asks for.
pub enum Invocation {
    Help,
    PrintDefaultConfig,
    Run { start: StartPoint, ls: bool },
}

/// A [`StartPoint`] in a contract.
pub enum StartView {
    JoinSession(Option<Seq<char>>),
    Path(Seq<char>),
    Here,
}

/// An [`Invocation`] in a contract.
pub enum InvocationView {
    Help,
    PrintDefaultConfig,
    Run { start: StartView, ls: bool },
}

impl View for StartPoint {
    type V = StartView;

    open spec fn view(&self) -> StartView {
        match self {
            StartPoint::JoinSession(socket) => StartView::JoinSession(
                match socket {
                    Some(s) => Some(s@),
                    None => None,
                },
            ),
            StartPoint::Path(path) => StartView::Path(path@),
            StartPoint::Here => StartView::Here,
        }
    }
}

impl View for Invocation {
    type V = InvocationView;

    open spec fn view(&self) -> InvocationView {
        match self {
            Invocation::Help => InvocationView::Help,
            Invocation::PrintDefaultConfig => InvocationView::PrintDefaultConfig,
            Invocation::Run { start, ls } => InvocationView::Run { start: start@, ls: *ls },
        }
    }
}

/// The position of the first `arg` in `args`, or the number of them.
pub open spec fn position(args: Seq<Seq<char>>, arg: Seq<char>) -> int
    decreases args.len(),
{
    if args.len() == 0 || args[0] == arg {
        0
    } else {
        1 + position(args.drop_first(), arg)
    }
}

/// `arg` does not look like an option.
pub open spec fn positional(arg: Seq<char>) -> bool {
    arg.len() == 0 || arg[0] != '-'
}

/// The first of `args` that is no option.
pub open spec fn first_positional(args: Seq<Seq<char>>) -> Option<Seq<char>>
    decreases args.len(),
{
    if args.len() == 0 {
        None
    } else if positional(args[0]) {
        Some(args[0])
    } else {
        first_positional(args.drop_first())
    }
}

/// Where the run starts. Joining a session takes precedence over a path; the
/// name of the program is no path.
pub open spec fn start_of(args: Seq<Seq<char>>) -> StartView {
    let join = position(args, "--join-session"@);
    if join < args.len() {
        StartView::JoinSession(
            if join + 1 < args.len() {
                Some(args[join + 1])
            } else {
                None
            },
        )
    } else if args.len() == 0 {
        StartView::Here
    } else {
        match first_positional(args.drop_first()) {
            Some(path) => StartView::Path(path),
            None => StartView::Here,
        }
    }
}

/// What `args` ask for: help before all else, then the default configuration.
pub open spec fn invocation_of(args: Seq<Seq<char>>) -> InvocationView {
    if args.contains("-h"@) || args.contains("--help"@) {
        InvocationView::Help
    } else if args.contains("--print-default-config"@) {
        InvocationView::PrintDefaultConfig
    } else {
        InvocationView::Run { start: start_of(args), ls: args.contains("--ls"@) }
    }
}

proof fn lemma_position(args: Seq<Seq<char>>, arg: Seq<char>)
    ensures
        0 <= position(args, arg) <= args.len(),
        position(args, arg) < args.len() <==> args.contains(arg),
    decreases args.len(),
{
    if args.len() > 0 && args[0] != arg {
        let rest = args.drop_first();
        lemma_position(rest, arg);
        if rest.contains(arg) {
            let i = choose|i: int| 0 <= i < rest.len() && rest[i] == arg;
            assert(args[i + 1] == arg);
        }
        if args.contains(arg) {
            let i = choose|i: int| 0 <= i < args.len() && args[i] == arg;
            assert(rest[i - 1] == arg);
        }
    }
}

fn find_arg(args: &Vec<String>, arg: &str) -> (r: usize)
    ensures
        r == position(text::views(args@), arg@),
        r < args@.len() <==> text::views(args@).contains(arg@),
        r <= args@.len(),
{
    let ghost all = text::views(args@);
    proof {
        lemma_position(all, arg@);
        assert(all.skip(0) =~= all);
    }
    let mut i: usize = 0;
    while i < args.len() && !text::same(args[i].as_str(), arg)
        invariant
            i <= args@.len(),
            all == text::views(args@),
            position(all, arg@) == i + position(all.skip(i as int), arg@),
        decreases args@.len() - i,
    {
        assert(all.skip(i as int)[0] == args@[i as int]@);
        assert(all.skip(i as int).drop_first() =~= all.skip(i + 1));
        i += 1;
    }
    proof {
        if i < args@.len() {
            assert(all.skip(i as int)[0] == args@[i as int]@);
        }
    }
    i
}

fn has_arg(args: &Vec<String>, arg: &str) -> (r: bool)
    ensures
        r == text::views(args@).contains(arg@),
{
    find_arg(args, arg) < args.len()
}

fn find_start(args: &Vec<String>) -> (r: StartPoint)
    ensures
        r@ == start_of(text::views(args@)),
{
    let ghost all = text::views(args@);
    let join: usize = find_arg(args, "--join-session");
    if join < args.len() {
        if args.len() - join > 1 {
            assert(all[join + 1] == args@[join + 1]@);
            return StartPoint::JoinSession(Some(args[join + 1].clone()));
        }
        return StartPoint::JoinSession(None);
    }
    if args.len() == 0 {
        return StartPoint::Here;
    }
    let ghost rest = all.drop_first();
    let mut i: usize = 1;
    assert(all.skip(1) =~= rest);
    while i < args.len()
        invariant
            1 <= i <= args@.len(),
            all == text::views(args@),
            rest == all.drop_first(),
            position(all, "--join-session"@) == all.len(),
            first_positional(rest) == first_positional(all.skip(i as int)),
        decreases args@.len() - i,
    {
        assert(all.skip(i as int)[0] == args@[i as int]@);
        if !text::starts_with_char(args[i].as_str(), '-') {
            return StartPoint::Path(args[i].clone());
        }
        assert(all.skip(i as int).drop_first() =~= all.skip(i + 1));
        i += 1;
    }
    assert(first_positional(all.skip(i as int)) is None);
    StartPoint::Here
}

/// Read the command line, whose first argument is the name of the program.
pub fn parse_args(args: &Vec<String>) -> (r: Invocation)
    ensures
        r@ == invocation_of(text::views(args@)),
{
    if has_arg(args, "-h") || has_arg(args, "--help") {
        return Invocation::Help;
    }
    if has_arg(args, "--print-default-config") {
        return Invocation::PrintDefaultConfig;
    }
    Invocation::Run { start: find_start(args), ls: has_arg(args, "--ls") }
}

/// Help is printed where it is asked for anywhere, whatever else is asked for;
/// else the default configuration, where that is.
pub proof fn law_help_comes_first(args: Seq<Seq<char>>, i: int)
    ensures
        0 <= i < args.len() && (args[i] == "-h"@ || args[i] == "--help"@) ==> invocation_of(args)
            is Help,
        invocation_of(args) is Help ==> exists|k: int|
            0 <= k < args.len() && (#[trigger] args[k] == "-h"@ || args[k] == "--help"@),
        0 <= i < args.len() && args[i] == "--print-default-config"@ ==> invocation_of(args) is Help || invocation_of(args)
            is PrintDefaultConfig,
        invocation_of(args) is PrintDefaultConfig ==> exists|k: int|
            0 <= k < args.len() && #[trigger] args[k] == "--print-default-config"@,
{
}

/// A run that is to list prints the listing: that is asked for with `--ls`,
/// wherever it stands.
pub proof fn law_when_a_run_lists(args: Seq<Seq<char>>)
    requires
        invocation_of(args) is Run,
    ensures
        invocation_of(args)->ls <==> exists|k: int| 0 <= k < args.len() && #[trigger] args[k] == "--ls"@,
        forall|k: int|
            0 <= k < args.len() ==> #[trigger] args[k] != "-h"@ && args[k] != "--help"@ && args[k]
                != "--print-default-config"@,
        args.len() == 0 ==> invocation_of(args)->start is Here,
{
    if exists|k: int| 0 <= k < args.len() && #[trigger] args[k] == "--ls"@ {
        let k = choose|k: int| 0 <= k < args.len() && #[trigger] args[k] == "--ls"@;
        assert(args.contains(args[k]));
    }
    assert forall|k: int| 0 <= k < args.len() implies #[trigger] args[k] != "-h"@ && args[k]
        != "--help"@ && args[k] != "--print-default-config"@ by {
        assert(args.contains(args[k]));
    }
}

proof fn lemma_position_is(args: Seq<Seq<char>>, arg: Seq<char>, i: int)
    requires
        0 <= i < args.len(),
        args[i] == arg,
        forall|k: int| 0 <= k < i ==> #[trigger] args[k] != arg,
    ensures
        position(args, arg) == i,
    decreases args.len(),
{
    if i > 0 {
        let rest = args.drop_first();
        assert(args[0] != arg);
        assert forall|k: int| 0 <= k < i - 1 implies #[trigger] rest[k] != arg by {
            assert(rest[k] == args[k + 1]);
        }
        lemma_position_is(rest, arg, i - 1);
    }
}

/// Where a session is to be joined, the argument behind the first
/// `--join-session` names its socket, whatever it looks like; a path does not
/// count then. Behind the last argument there is none.
pub proof fn law_joining_comes_before_a_path(args: Seq<Seq<char>>, i: int)
    requires
        invocation_of(args) is Run,
        0 <= i < args.len(),
        args[i] == "--join-session"@,
        forall|k: int| 0 <= k < i ==> #[trigger] args[k] != "--join-session"@,
    ensures
        i + 1 < args.len() ==> invocation_of(args)->start == StartView::JoinSession(
            Some(args[i + 1]),
        ),
        i + 1 == args.len() ==> invocation_of(args)->start == StartView::JoinSession(None),
{
    lemma_position_is(args, "--join-session"@, i);
}

proof fn lemma_first_positional_is(args: Seq<Seq<char>>, i: int)
    requires
        0 <= i <= args.len(),
        i < args.len() ==> args[i].len() == 0 || args[i][0] != '-',
        forall|k: int| 0 <= k < i ==> (#[trigger] args[k]).len() > 0 && args[k][0] == '-',
    ensures
        first_positional(args) == if i < args.len() {
            Some(args[i])
        } else {
            None
        },
    decreases args.len(),
{
    if i > 0 {
        let rest = args.drop_first();
        assert(args[0].len() > 0 && args[0][0] == '-');
        assert forall|k: int| 0 <= k < i - 1 implies (#[trigger] rest[k]).len() > 0 && rest[k][0]
            == '-' by {
            assert(rest[k] == args[k + 1]);
        }
        lemma_first_positional_is(rest, i - 1);
    }
}

/// Else the first argument behind the name of the program that does not begin
/// with `-` is the path to start at; without one the run starts in the working
/// directory.
pub proof fn law_first_plain_argument_is_the_path(args: Seq<Seq<char>>, i: int)
    requires
        invocation_of(args) is Run,
        forall|k: int| 0 <= k < args.len() ==> #[trigger] args[k] != "--join-session"@,
        1 <= i <= args.len(),
        i < args.len() ==> args[i].len() == 0 || args[i][0] != '-',
        forall|k: int| 1 <= k < i ==> (#[trigger] args[k]).len() > 0 && args[k][0] == '-',
    ensures
        i < args.len() ==> invocation_of(args)->start == StartView::Path(args[i]),
        i == args.len() ==> invocation_of(args)->start is Here,
{
    lemma_position(args, "--join-session"@);
    assert(!args.contains("--join-session"@));
    let rest = args.drop_first();
    assert forall|k: int| 0 <= k < i - 1 implies (#[trigger] rest[k]).len() > 0 && rest[k][0]
        == '-' by {
        assert(rest[k] == args[k + 1]);
    }
    lemma_first_positional_is(rest, i - 1);
}

/// What is read off the command line: help is asked for by either of two
/// arguments, and the listing by another.
pub proof fn law_command_line_that_is_read(args: &Vec<String>, r: Invocation)
    requires
        call_ensures(parse_args, (args,), r),
    ensures
        r@ == invocation_of(text::views(args@)),
        r is Help <==> text::views(args@).contains("-h"@) || text::views(args@).contains(
            "--help"@,
        ),
        r is PrintDefaultConfig <==> r !is Help && text::views(args@).contains(
            "--print-default-config"@,
        ),
        r is Run ==> r->ls == text::views(args@).contains("--ls"@),
{
}

} // verus!
