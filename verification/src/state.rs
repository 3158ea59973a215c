//! The state of a session: the current working directory, the
//! keyboard-shortcut map, the bash PID, and the loaded config.

use std::collections::HashMap;
use std::sync::Arc;

use crate::config::{Config, ConfigView};
use crate::paths;
use vstd::prelude::*;

verus! {

pub struct State {
    pub current_directory: String,
    /// Key value to the name of the entry that it opens.
    pub shortcuts: HashMap<u32, String>,
    pub shell_pid: Option<i32>,
    pub config: Arc<Config>,
}

/// A [`State`] in a contract.
#[verifier::ext_equal]
pub struct StateView {
    pub cd: Seq<char>,
    pub shortcuts: Map<u32, Seq<char>>,
    pub shell_pid: Option<i32>,
    pub config: ConfigView,
}

impl View for State {
    type V = StateView;

    open spec fn view(&self) -> StateView {
        StateView {
            cd: self.current_directory@,
            shortcuts: self.shortcuts@.map_values(|s: String| s@),
            shell_pid: self.shell_pid,
            config: self.config@,
        }
    }
}

/// The map of `pairs`; of two pairs for one key the later one counts.
pub open spec fn shortcut_map(pairs: Seq<(u32, Seq<char>)>) -> Map<u32, Seq<char>>
    decreases pairs.len(),
{
    if pairs.len() == 0 {
        Map::empty()
    } else {
        shortcut_map(pairs.drop_last()).insert(pairs.last().0, pairs.last().1)
    }
}

pub open spec fn keyed_views(pairs: Seq<(u32, String)>) -> Seq<(u32, Seq<char>)> {
    pairs.map_values(|p: (u32, String)| (p.0, p.1@))
}

/// Something other than the shell runs in the foreground of the terminal.
pub open spec fn busy(shell_pid: Option<i32>, foreground: Option<i32>) -> bool {
    shell_pid is Some && foreground is Some && shell_pid != foreground
}

/// The path that a shortcut stands for.
pub open spec fn shortcut_target(state: StateView, key: u32) -> Option<Seq<char>> {
    if state.shortcuts.contains_key(key) {
        Some(paths::joined(state.cd, state.shortcuts[key]))
    } else {
        None
    }
}

impl State {
    /// A session in the given directory, or in the one that the program was
    /// started in.
    pub fn new(initial_pwd_opt: Option<String>, config: Arc<Config>) -> (r: State)
        ensures
            r@ == (StateView {
                cd: match initial_pwd_opt {
                    Some(pwd) => pwd@,
                    None => "."@,
                },
                shortcuts: Map::empty(),
                shell_pid: None,
                config: config@,
            }),
    {
        let pwd = match initial_pwd_opt {
            Some(pwd) => pwd,
            None => ".".to_owned(),
        };
        let r = State { current_directory: pwd, shortcuts: HashMap::new(), shell_pid: None, config };
        assert(r@.shortcuts =~= Map::<u32, Seq<char>>::empty());
        r
    }

    pub fn get_cd(&self) -> (r: String)
        ensures
            r@ == self@.cd,
    {
        self.current_directory.clone()
    }

    pub fn set_cd(&mut self, new_cd: String)
        ensures
            final(self)@ == (StateView { cd: new_cd@, ..old(self)@ }),
    {
        self.current_directory = new_cd;
    }

    pub fn set_shell_pid(&mut self, pid: i32)
        ensures
            final(self)@ == (StateView { shell_pid: Some(pid), ..old(self)@ }),
    {
        self.shell_pid = Some(pid);
    }

    /// Forget all shortcuts and take those of `pairs`.
    pub fn set_shortcuts(&mut self, pairs: Vec<(u32, String)>)
        ensures
            final(self)@ == (StateView { shortcuts: shortcut_map(keyed_views(pairs@)), ..old(self)@ }),
    {
        broadcast use vstd::std_specs::hash::group_hash_axioms;

        self.shortcuts.clear();
        let mut i: usize = 0;
        let ghost all = keyed_views(pairs@);
        assert(all.take(0) =~= Seq::<(u32, Seq<char>)>::empty());
        assert(self@.shortcuts =~= Map::<u32, Seq<char>>::empty());
        while i < pairs.len()
            invariant
                i <= pairs@.len(),
                all == keyed_views(pairs@),
                self@ == (StateView { shortcuts: shortcut_map(all.take(i as int)), ..old(self)@ }),
            decreases pairs@.len() - i,
        {
            let key: u32 = pairs[i].0;
            let name = pairs[i].1.clone();
            let ghost before = self@.shortcuts;
            self.shortcuts.insert(key, name);
            proof {
                assert(all.take(i + 1).drop_last() =~= all.take(i as int));
                assert(all.take(i + 1).last() == (key, name@));
                assert(self@.shortcuts =~= before.insert(key, name@));
            }
            i += 1;
        }
        assert(all.take(i as int) =~= all);
    }

    /// The path of the entry that a key value opens.
    pub fn shortcut_path(&self, key: u32) -> (r: Option<String>)
        ensures
            paths::opt_view(r) == shortcut_target(self@, key),
    {
        broadcast use vstd::std_specs::hash::group_hash_axioms;

        match self.shortcuts.get(&key) {
            Some(name) => Some(
                paths::path_join(self.current_directory.as_str(), name.as_str()),
            ),
            None => None,
        }
    }

    /// Whether shortcuts and clicks are off because something other than the
    /// shell runs in the foreground.
    pub fn is_busy(&self, foreground: Option<i32>) -> (r: bool)
        ensures
            r == busy(self@.shell_pid, foreground),
    {
        match (self.shell_pid, foreground) {
            (Some(shell), Some(group)) => group != shell,
            _ => false,
        }
    }
}

/// The session after the directories `dirs` have been set in turn, by whoever
/// shares it.
pub open spec fn after_sets(state: StateView, dirs: Seq<Seq<char>>) -> StateView
    decreases dirs.len(),
{
    if dirs.len() == 0 {
        state
    } else {
        StateView { cd: dirs.last(), ..after_sets(state, dirs.drop_last()) }
    }
}

/// The directory of a session is the one that was set last, and setting it
/// changes nothing else.
pub proof fn law_directory_is_the_last_one_set(state: StateView, dirs: Seq<Seq<char>>)
    ensures
        after_sets(state, dirs) == (StateView {
            cd: if dirs.len() == 0 {
                state.cd
            } else {
                dirs.last()
            },
            ..state
        }),
    decreases dirs.len(),
{
    if dirs.len() > 0 {
        law_directory_is_the_last_one_set(state, dirs.drop_last());
    }
}

/// A key opens what was set for it last; a key for which nothing was set opens
/// nothing.
pub proof fn law_later_shortcut_counts(pairs: Seq<(u32, Seq<char>)>, i: int, key: u32)
    ensures
        0 <= i < pairs.len() && pairs[i].0 == key && (forall|j: int|
            i < j < pairs.len() ==> (#[trigger] pairs[j]).0 != key) ==> shortcut_map(
            pairs,
        ).contains_key(key) && shortcut_map(pairs)[key] == pairs[i].1,
        (forall|j: int| 0 <= j < pairs.len() ==> (#[trigger] pairs[j]).0 != key)
            ==> !shortcut_map(pairs).contains_key(key),
    decreases pairs.len(),
{
    if pairs.len() > 0 {
        let front = pairs.drop_last();
        law_later_shortcut_counts(front, i, key);
        if 0 <= i < front.len() && pairs[i].0 == key && (forall|j: int|
            i < j < pairs.len() ==> (#[trigger] pairs[j]).0 != key) {
            assert(pairs[pairs.len() - 1].0 != key);
            assert forall|j: int| i < j < front.len() implies (#[trigger] front[j]).0 != key by {
                assert(front[j] == pairs[j]);
            }
        }
        if forall|j: int| 0 <= j < pairs.len() ==> (#[trigger] pairs[j]).0 != key {
            assert(pairs[pairs.len() - 1].0 != key);
            assert forall|j: int| 0 <= j < front.len() implies (#[trigger] front[j]).0 != key by {
                assert(front[j] == pairs[j]);
            }
        }
    }
}

/// The terminal is busy where both the shell and the group in the foreground are
/// known and differ, and only there.
pub proof fn law_when_the_terminal_is_busy(shell: i32, group: i32)
    ensures
        busy(Some(shell), Some(group)) <==> shell != group,
        !busy(None, Some(group)) && !busy(Some(shell), None) && !busy(None, None),
{
}

/// A shortcut opens the entry of that name in the directory of the session.
pub proof fn law_shortcut_names_an_entry_of_the_directory(
    state: StateView,
    key: u32,
    name: Seq<char>,
)
    ensures
        state.shortcuts.contains_key(key) && state.shortcuts[key] == name ==> shortcut_target(
            state,
            key,
        ) == Some(paths::joined(state.cd, name)),
        state.shortcuts.contains_key(key) && state.shortcuts[key] == name && state.cd.len() > 0
            && state.cd[state.cd.len() - 1] != '/' && (name.len() == 0 || name[0] != '/')
            ==> shortcut_target(state, key) == Some(state.cd + seq!['/'] + name),
        !state.shortcuts.contains_key(key) ==> shortcut_target(state, key) is None,
{
    paths::law_joined_by_one_slash(state.cd, name);
}

/// A session starts in the directory that it is given, or else in the current
/// one, with no shortcuts and no shell.
pub proof fn law_new_session(
    pwd: String,
    config: Arc<Config>,
    given: State,
    here: State,
)
    requires
        call_ensures(State::new, (Some(pwd), config), given),
        call_ensures(State::new, (None::<String>, config), here),
    ensures
        given@.cd == pwd@,
        here@.cd == seq!['.'],
        given@.shortcuts == Map::<u32, Seq<char>>::empty(),
        given@.shell_pid is None,
        given@.config == config@,
{
    reveal_strlit(".");
    assert("."@ =~= seq!['.']);
}

/// The terminal is said to be busy where another group than the shell has the
/// foreground, and a shortcut gives the path of its entry in the directory.
pub proof fn law_answers_of_a_session(
    state: &State,
    group: i32,
    busy_now: bool,
    busy_never: bool,
    key: u32,
    path: Option<String>,
)
    requires
        call_ensures(State::is_busy, (state, Some(group)), busy_now),
        call_ensures(State::is_busy, (state, None::<i32>), busy_never),
        call_ensures(State::shortcut_path, (state, key), path),
    ensures
        busy_now <==> state.shell_pid is Some && state.shell_pid->0 != group,
        !busy_never,
        path is Some <==> state@.shortcuts.contains_key(key),
        path is Some ==> path->0@ == paths::joined(state@.cd, state@.shortcuts[key]),
{
    assert(paths::opt_view(path) == shortcut_target(state@, key));
}

} // verus!
