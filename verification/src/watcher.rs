//! Filesystem watching: which events matter, and how often the directory of
//! the shell is read again.

use crate::text;
use vstd::prelude::*;

verus! {

/// What a watcher thread is told.
#[derive(Clone, Copy, PartialEq, Eq, Structural, Debug)]
pub enum WatcherCommand {
    Stop,
}

/// The kind of a filesystem event.
#[derive(Clone, Copy, PartialEq, Eq, Structural, Debug)]
pub enum EventKind {
    Any,
    Access,
    Create,
    Modify,
    Remove,
    Other,
}

/// Whether an event may have changed the listing.
pub fn is_relevant(kind: EventKind) -> (r: bool)
    ensures
        r <==> kind == EventKind::Modify || kind == EventKind::Create || kind == EventKind::Remove,
{
    match kind {
        EventKind::Modify => true,
        EventKind::Create => true,
        EventKind::Remove => true,
        _ => false,
    }
}

/// Whether an event on the file that holds the shell's directory says that the
/// directory has changed.
pub fn is_pwd_change(kind: EventKind) -> (r: bool)
    ensures
        r <==> kind == EventKind::Modify,
{
    match kind {
        EventKind::Modify => true,
        _ => false,
    }
}

/// The directory that the shell has written down, given the content of the
/// file.
pub fn shell_directory(content: &str) -> (r: String)
    ensures
        r@ == text::trimmed(content@),
{
    content.trim().to_owned()
}

/// The least time between two readings of the shell's directory, in
/// nanoseconds.
pub const DEBOUNCE_NS: i64 = 50_000_000;

/// When the shell's directory was last read.
pub struct Debounce {
    pub last_ns: i64,
}

impl Debounce {
    pub fn new(now_ns: i64) -> (r: Debounce)
        ensures
            r.last_ns == now_ns,
    {
        Debounce { last_ns: now_ns }
    }

    /// Enough time has passed.
    pub open spec fn due(self, now_ns: int) -> bool {
        now_ns - self.last_ns >= DEBOUNCE_NS
    }

    /// Whether an event at `now_ns` is followed, and what is remembered then.
    pub open spec fn accepted(self, now_ns: i64) -> (bool, Debounce) {
        if self.due(now_ns as int) {
            (true, Debounce { last_ns: now_ns })
        } else {
            (false, self)
        }
    }

    /// Whether an event at `now_ns` is to be followed; one that comes too soon
    /// is dropped and does not count.
    pub fn accept(&mut self, now_ns: i64) -> (r: bool)
        ensures
            (r, *final(self)) == old(self).accepted(now_ns),
            r <==> now_ns - old(self).last_ns >= 50_000_000,
            r ==> final(self).last_ns == now_ns,
            !r ==> final(self).last_ns == old(self).last_ns,
    {
        if now_ns as i128 - self.last_ns as i128 >= DEBOUNCE_NS as i128 {
            self.last_ns = now_ns;
            true
        } else {
            false
        }
    }
}

/// The times of the events that are followed, where [`Debounce::accept`] is
/// asked at each of `times` in turn.
pub open spec fn followed(debounce: Debounce, times: Seq<i64>) -> Seq<i64>
    decreases times.len(),
{
    if times.len() == 0 {
        seq![]
    } else {
        let (follow, next) = debounce.accepted(times[0]);
        let rest = followed(next, times.drop_first());
        if follow {
            seq![times[0]] + rest
        } else {
            rest
        }
    }
}

/// Between any two events that are followed in turn, and after the one before
/// them, the least time passes.
pub proof fn law_followed_events_are_apart(debounce: Debounce, times: Seq<i64>)
    ensures
        ({
            let f = followed(debounce, times);
            &&& f.len() > 0 ==> f[0] - debounce.last_ns >= DEBOUNCE_NS
            &&& forall|i: int| 0 < i < f.len() ==> #[trigger] f[i] - f[i - 1] >= DEBOUNCE_NS
        }),
    decreases times.len(),
{
    if times.len() > 0 {
        let (follow, next) = debounce.accepted(times[0]);
        let rest = followed(next, times.drop_first());
        law_followed_events_are_apart(next, times.drop_first());
        if follow {
            let f = followed(debounce, times);
            assert forall|i: int| 0 < i < f.len() implies #[trigger] f[i] - f[i - 1]
                >= DEBOUNCE_NS by {
                assert(f[i] == rest[i - 1]);
                if i > 1 {
                    assert(f[i - 1] == rest[i - 2]);
                    assert(rest[i - 1] - rest[i - 1 - 1] >= DEBOUNCE_NS);
                }
            }
        }
    }
}

/// An event is followed where at least 50 milliseconds have passed since the
/// last one that was, and is remembered then; an earlier one leaves no trace.
pub proof fn law_events_within_fifty_milliseconds_are_dropped(debounce: Debounce, now_ns: i64)
    ensures
        debounce.accepted(now_ns).0 <==> now_ns - debounce.last_ns >= 50_000_000,
        debounce.accepted(now_ns).0 ==> debounce.accepted(now_ns).1.last_ns == now_ns,
        !debounce.accepted(now_ns).0 ==> debounce.accepted(now_ns).1 == debounce,
{
}

/// One event more is followed if enough time has passed since the last one that
/// was.
pub proof fn law_every_event_that_is_late_enough_is_followed(
    debounce: Debounce,
    times: Seq<i64>,
    now_ns: i64,
)
    ensures
        ({
            let before = followed(debounce, times);
            let last = if before.len() == 0 {
                debounce.last_ns
            } else {
                before[before.len() - 1]
            };
            followed(debounce, times.push(now_ns)) == if now_ns - last >= 50_000_000 {
                before.push(now_ns)
            } else {
                before
            }
        }),
    decreases times.len(),
{
    let all = times.push(now_ns);
    if times.len() == 0 {
        assert(all.drop_first() =~= Seq::<i64>::empty());
        assert(followed(debounce.accepted(now_ns).1, all.drop_first()) =~= Seq::<i64>::empty());
        assert(followed(debounce, times) =~= Seq::<i64>::empty());
        assert(seq![now_ns] + Seq::<i64>::empty() =~= Seq::<i64>::empty().push(now_ns));
    } else {
        let (follow, next) = debounce.accepted(times[0]);
        assert(all.drop_first() =~= times.drop_first().push(now_ns));
        assert(all[0] == times[0]);
        law_every_event_that_is_late_enough_is_followed(next, times.drop_first(), now_ns);
        let rest = followed(next, times.drop_first());
        if follow {
            assert((seq![times[0]] + rest).push(now_ns) =~= seq![times[0]] + rest.push(now_ns));
        }
    }
}

/// What makes an event count: the listing is read again where something in it
/// was created, changed or removed, and the shell's directory where the file
/// that holds it was changed.
pub proof fn law_which_events_count(kind: EventKind, relevant: bool, moved: bool)
    requires
        call_ensures(is_relevant, (kind,), relevant),
        call_ensures(is_pwd_change, (kind,), moved),
    ensures
        kind is Modify || kind is Create || kind is Remove ==> relevant,
        kind is Any || kind is Access || kind is Other ==> !relevant,
        kind is Modify ==> moved,
        kind !is Modify ==> !moved,
{
}

/// The directory that the shell wrote down is what stands in the file, without
/// the white space around it.
pub proof fn law_directory_of_the_shell(
    content: &str,
    lead: Seq<char>,
    dir: Seq<char>,
    tail: Seq<char>,
    r: String,
)
    requires
        call_ensures(shell_directory, (content,), r),
        content@ == lead + dir + tail,
        text::all_white(lead),
        text::all_white(tail),
        dir.len() > 0 && !text::white_space(dir[0]) && !text::white_space(dir.last()),
    ensures
        r@ == dir,
{
    text::law_trimmed_is_what_stands_between(lead, dir, tail);
}

} // verus!
