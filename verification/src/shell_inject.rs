//! What is typed into the embedded shell: quoted paths, whole commands, the
//! keys that put the user's half-typed line aside and bring it back, and the
//! decision when to bring it back.

use crate::paths;
use crate::paths::{EntryPath, PathView};
use crate::text;
use vstd::prelude::*;
use vstd::utf8::*;

verus! {

/// How one character is written between single quotes: a quote closes the
/// string, stands escaped, and opens it again.
pub open spec fn escaped(c: char) -> Seq<char> {
    if c == '\'' {
        seq!['\'', '\\', '\'', '\'']
    } else {
        seq![c]
    }
}

pub open spec fn escaped_all(s: Seq<char>) -> Seq<char>
    decreases s.len(),
{
    if s.len() == 0 {
        seq![]
    } else {
        escaped(s[0]) + escaped_all(s.drop_first())
    }
}

/// `s` as one single-quoted shell word.
pub open spec fn quoted(s: Seq<char>) -> Seq<char> {
    seq!['\''] + escaped_all(s) + seq!['\'']
}

/// POSIX single-quote shell escaping. Wraps the whole string in single
/// quotes, and writes each embedded `'` as `'\''`.
pub fn shell_quote(s: &str) -> (r: String)
    ensures
        r@ == quoted(s@),
{
    let chars = text::chars_of(s);
    let mut out = String::new();
    out.push('\'');
    let mut i: usize = 0;
    assert(chars@.skip(0) =~= chars@);
    assert(out@ =~= seq!['\'']);
    while i < chars.len()
        invariant
            i <= chars@.len(),
            out@ + escaped_all(chars@.skip(i as int)) == seq!['\''] + escaped_all(chars@),
        decreases chars@.len() - i,
    {
        let ghost before = out@;
        let ghost rest = chars@.skip(i as int);
        if chars[i] == '\'' {
            out.push('\'');
            out.push('\\');
            out.push('\'');
            out.push('\'');
        } else {
            out.push(chars[i]);
        }
        proof {
            assert(rest.drop_first() =~= chars@.skip(i + 1));
            assert(out@ =~= before + escaped(rest[0]));
            assert(out@ + escaped_all(rest.drop_first()) =~= before + escaped_all(rest));
        }
        i += 1;
    }
    assert(chars@.skip(i as int) =~= Seq::<char>::empty());
    assert(out@ + escaped_all(Seq::<char>::empty()) =~= out@);
    out.push('\'');
    assert(out@ =~= seq!['\''] + escaped_all(chars@) + seq!['\'']);
    out
}

/// Characters that end a shell word where they stand unquoted.
pub open spec fn ends_word(c: char) -> bool {
    c == ' ' || c == '\t' || c == '\n' || c == ';' || c == '&' || c == '|' || c == '(' || c == ')'
        || c == '<' || c == '>'
}

/// Characters that, unquoted, may make a shell read something other than the
/// character itself: expansions, patterns, double quotes, comments.
pub open spec fn may_expand(c: char) -> bool {
    c == '$' || c == '`' || c == '"' || c == '*' || c == '?' || c == '[' || c == ']' || c == '{'
        || c == '}' || c == '#' || c == '~' || c == '!' || c == '='
}

/// How a POSIX shell reads one word off the front of `s`: the characters that
/// the word stands for, put behind `word`, and what is left of `s`. `None`
/// where an expansion may take place or the input ends too early.
pub open spec fn read_word(s: Seq<char>, in_quotes: bool, word: Seq<char>) -> Option<
    (Seq<char>, Seq<char>),
>
    decreases s.len(),
{
    if in_quotes {
        if s.len() == 0 {
            None
        } else if s[0] == '\'' {
            read_word(s.drop_first(), false, word)
        } else {
            read_word(s.drop_first(), true, word.push(s[0]))
        }
    } else if s.len() == 0 || ends_word(s[0]) {
        Some((word, s))
    } else if s[0] == '\'' {
        read_word(s.drop_first(), true, word)
    } else if s[0] == '\\' {
        if s.len() == 1 || s[1] == '\n' {
            None
        } else {
            read_word(s.skip(2), false, word.push(s[1]))
        }
    } else if may_expand(s[0]) {
        None
    } else {
        read_word(s.drop_first(), false, word.push(s[0]))
    }
}

proof fn lemma_read_quoted(s: Seq<char>, rest: Seq<char>, word: Seq<char>)
    requires
        rest.len() == 0 || ends_word(rest[0]),
    ensures
        read_word(escaped_all(s) + seq!['\''] + rest, true, word) == Some((word + s, rest)),
    decreases s.len(),
{
    let input = escaped_all(s) + seq!['\''] + rest;
    if s.len() == 0 {
        assert(input =~= seq!['\''] + rest);
        assert(input.drop_first() =~= rest);
        assert(word + s =~= word);
        assert(read_word(rest, false, word) == Some((word, rest)));
    } else {
        let tail = escaped_all(s.drop_first()) + seq!['\''] + rest;
        assert(input =~= escaped(s[0]) + tail);
        lemma_read_quoted(s.drop_first(), rest, word.push(s[0]));
        assert(word.push(s[0]) + s.drop_first() =~= word + s);
        if s[0] == '\'' {
            let one = input.drop_first();
            assert(one =~= seq!['\\', '\'', '\''] + tail);
            let two = one.skip(2);
            assert(two =~= seq!['\''] + tail);
            assert(two.drop_first() =~= tail);
            assert(read_word(two, false, word.push('\'')) == read_word(
                tail,
                true,
                word.push('\''),
            ));
            assert(read_word(one, false, word) == read_word(two, false, word.push('\'')));
        } else {
            assert(input.drop_first() =~= tail);
        }
    }
}

/// A shell reads a quoted string as one word, which stands for exactly the
/// string, whatever characters it holds; what follows is left as it was.
pub proof fn law_quoted_word_is_the_string(s: Seq<char>, rest: Seq<char>)
    requires
        rest.len() == 0 || ends_word(rest[0]),
    ensures
        read_word(quoted(s) + rest, false, seq![]) == Some((s, rest)),
{
    let input = quoted(s) + rest;
    assert(input.drop_first() =~= escaped_all(s) + seq!['\''] + rest);
    lemma_read_quoted(s, rest, seq![]);
    assert(Seq::<char>::empty() + s =~= s);
}

/// Distinct strings have distinct quoted forms.
pub proof fn law_quoting_is_injective(a: Seq<char>, b: Seq<char>)
    requires
        quoted(a) == quoted(b),
    ensures
        a == b,
{
    law_quoted_word_is_the_string(a, seq![]);
    law_quoted_word_is_the_string(b, seq![]);
}

/// The extension is `want`, whatever the case of its ASCII letters.
pub open spec fn is_ext(ext: Option<Seq<char>>, want: Seq<char>) -> bool {
    ext is Some && text::ascii_lower_all(ext->0) == text::ascii_lower_all(want)
}

/// What stands before the quoted path of a file to execute.
pub open spec fn exec_prefix(path: PathView) -> Seq<char> {
    if is_ext(path.ext, "py"@) {
        "python "@
    } else if is_ext(path.ext, "js"@) {
        "node "@
    } else if paths::path_parts(path.text).rooted {
        seq![]
    } else {
        "./"@
    }
}

pub open spec fn exec_command(path: PathView, override_cmd: Option<Seq<char>>) -> Seq<char> {
    match override_cmd {
        Some(cmd) => edit_command(path, cmd),
        None => "clear; "@ + exec_prefix(path) + quoted(path.text),
    }
}

pub open spec fn edit_command(path: PathView, editor: Seq<char>) -> Seq<char> {
    "clear; "@ + editor + " "@ + quoted(path.text)
}

pub open spec fn cd_command(path: PathView) -> Seq<char> {
    "clear; cd "@ + quoted(path.text)
}

/// Whether the extension is `want`, whatever the case of its ASCII letters.
pub fn has_ext(path: &EntryPath, want: &str) -> (r: bool)
    ensures
        r == is_ext(path@.ext, want@),
{
    match path.ext() {
        Some(ext) => ext.eq_ignore_ascii_case(want),
        None => false,
    }
}

/// Build the shell command for executing a file. With an explicit
/// `override_cmd` (e.g. from `[handlers]`), runs `<cmd> <path>`. Otherwise
/// `.py` runs through python, `.js` through node, anything else as
/// `./path` (or absolute path).
pub fn build_exec_command(path: &EntryPath, override_cmd: Option<&str>) -> (r: String)
    ensures
        r@ == exec_command(path@, paths::opt_str_view(override_cmd)),
{
    if let Some(cmd) = override_cmd {
        return build_edit_command(path, cmd);
    }
    let mut out = "clear; ".to_owned();
    if has_ext(path, "py") {
        out.push_str("python ");
    } else if has_ext(path, "js") {
        out.push_str("node ");
    } else if !paths::path_is_absolute(path.text()) {
        out.push_str("./");
    }
    out.push_str(shell_quote(path.text()).as_str());
    out
}

/// Build the shell command for opening a file in `editor`. The editor
/// string is fed to bash verbatim, so `${EDITOR:-nano}` and similar
/// expansions work.
pub fn build_edit_command(path: &EntryPath, editor: &str) -> (r: String)
    ensures
        r@ == edit_command(path@, editor@),
{
    let mut out = "clear; ".to_owned();
    out.push_str(editor);
    out.push_str(" ");
    out.push_str(shell_quote(path.text()).as_str());
    out
}

/// Build the shell command for entering a directory.
pub fn build_cd_command(path: &EntryPath) -> (r: String)
    ensures
        r@ == cd_command(path@),
{
    let mut out = "clear; cd ".to_owned();
    out.push_str(shell_quote(path.text()).as_str());
    out
}

/// A file that is run by itself is one shell word behind `clear; `: the path,
/// with `./` before it where it is relative.
pub proof fn law_plain_file_runs_by_its_path(path: PathView)
    requires
        !is_ext(path.ext, "py"@),
        !is_ext(path.ext, "js"@),
    ensures
        ({
            let word = if paths::path_parts(path.text).rooted {
                path.text
            } else {
                seq!['.', '/'] + path.text
            };
            let cmd = exec_command(path, None);
            &&& cmd.take("clear; "@.len() as int) == "clear; "@
            &&& read_word(cmd.skip("clear; "@.len() as int), false, seq![]) == Some(
                (word, Seq::<char>::empty()),
            )
        }),
{
    reveal_strlit("clear; ");
    reveal_strlit("./");
    let q = quoted(path.text);
    let cmd = exec_command(path, None);
    let none = Seq::<char>::empty();
    assert(cmd.take(7) =~= "clear; "@);
    if paths::path_parts(path.text).rooted {
        assert(cmd.skip(7) =~= q + none);
        law_quoted_word_is_the_string(path.text, none);
    } else {
        let input = cmd.skip(7);
        assert(input =~= seq!['.', '/'] + q);
        let one = input.drop_first();
        let two = one.drop_first();
        assert(two =~= q);
        let dot = none.push('.');
        let word = dot.push('/');
        assert(read_word(input, false, none) == read_word(one, false, dot));
        assert(read_word(one, false, dot) == read_word(two, false, word));
        assert(two.drop_first() =~= escaped_all(path.text) + seq!['\''] + none);
        lemma_read_quoted(path.text, none, word);
        assert(word + path.text =~= seq!['.', '/'] + path.text);
    }
}

/// Keys fed before a command: Ctrl-A (home), a space, Ctrl-E (end), Ctrl-U
/// (kill back to the start of the line).
pub open spec fn save_keys() -> Seq<u8> {
    seq![0x01u8, 0x20, 0x05, 0x15]
}

/// Keys fed after a command: Ctrl-Y (yank), Ctrl-A, Ctrl-D (delete the space),
/// Ctrl-E.
pub open spec fn restore_keys() -> Seq<u8> {
    seq![0x19u8, 0x01, 0x04, 0x05]
}

/// The keys that put the user's line aside and submit `cmd`.
pub open spec fn command_keys(cmd: Seq<char>) -> Seq<u8> {
    save_keys() + seq![0x20u8] + encode_utf8(cmd) + seq![0x0au8]
}

/// A shell prompt with its line editor: the line and the cursor in it, what
/// was killed last, and the lines submitted so far.
pub struct Prompt {
    pub line: Seq<u8>,
    pub cursor: int,
    pub killed: Seq<u8>,
    pub submitted: Seq<Seq<u8>>,
}

impl Prompt {
    pub open spec fn wf(self) -> bool {
        0 <= self.cursor <= self.line.len()
    }

    /// `bytes` put in at the cursor, which moves behind them.
    pub open spec fn insert(self, bytes: Seq<u8>) -> Prompt {
        Prompt {
            line: self.line.take(self.cursor) + bytes + self.line.skip(self.cursor),
            cursor: self.cursor + bytes.len(),
            ..self
        }
    }

    /// What one byte of input does under the default key bindings.
    pub open spec fn press(self, key: u8) -> Prompt {
        if key == 0x01 {
            Prompt { cursor: 0, ..self }
        } else if key == 0x05 {
            Prompt { cursor: self.line.len() as int, ..self }
        } else if key == 0x15 {
            if self.cursor == 0 {
                self
            } else {
                Prompt {
                    line: self.line.skip(self.cursor),
                    cursor: 0,
                    killed: self.line.take(self.cursor),
                    ..self
                }
            }
        } else if key == 0x19 {
            self.insert(self.killed)
        } else if key == 0x04 {
            if self.cursor < self.line.len() {
                Prompt {
                    line: self.line.take(self.cursor) + self.line.skip(self.cursor + 1),
                    ..self
                }
            } else {
                self
            }
        } else if key == 0x0a {
            Prompt {
                line: seq![],
                cursor: 0,
                submitted: self.submitted.push(self.line),
                ..self
            }
        } else if prints(key) {
            self.insert(seq![key])
        } else {
            self
        }
    }

    pub open spec fn feed(self, keys: Seq<u8>) -> Prompt
        decreases keys.len(),
    {
        if keys.len() == 0 {
            self
        } else {
            self.feed(keys.drop_last()).press(keys.last())
        }
    }
}

/// A byte that the line editor puts into the line.
pub open spec fn prints(key: u8) -> bool {
    key >= 0x20 && key != 0x7f
}

/// No ASCII control character stands in `s`.
pub open spec fn no_control(s: Seq<char>) -> bool {
    forall|i: int| 0 <= i < s.len() ==> ' ' <= #[trigger] s[i] && s[i] != '\u{7f}'
}

/// No ASCII control character stands in `s` but line breaks.
pub open spec fn no_control_but_breaks(s: Seq<char>) -> bool {
    forall|i: int|
        0 <= i < s.len() ==> (' ' <= #[trigger] s[i] && s[i] != '\u{7f}') || s[i] == '\n'
}

proof fn lemma_scalar_prints(c: u32)
    by (bit_vector)
    requires
        c >= 0x20,
        c != 0x7f,
    ensures
        c <= 0x7f ==> leading_byte_width_1(c) >= 0x20 && leading_byte_width_1(c) != 0x7f,
        leading_byte_width_2(c) >= 0x80,
        leading_byte_width_3(c) >= 0x80,
        leading_byte_width_4(c) >= 0x80,
        last_continuation_byte(c) >= 0x80,
        second_last_continuation_byte(c) >= 0x80,
        third_last_continuation_byte(c) >= 0x80,
{
}

proof fn lemma_char_prints(c: char)
    requires
        ' ' <= c,
        c != '\u{7f}',
    ensures
        forall|i: int|
            0 <= i < encode_scalar(c as u32).len() ==> prints(#[trigger] encode_scalar(c as u32)[i]),
{
    lemma_scalar_prints(c as u32);
}

proof fn lemma_text_prints(s: Seq<char>)
    requires
        no_control(s),
    ensures
        forall|i: int| 0 <= i < encode_utf8(s).len() ==> prints(#[trigger] encode_utf8(s)[i]),
    decreases s.len(),
{
    if s.len() > 0 {
        let rest = s.drop_first();
        assert forall|i: int| 0 <= i < rest.len() implies ' ' <= #[trigger] rest[i] && rest[i]
            != '\u{7f}' by {
            assert(rest[i] == s[i + 1]);
        }
        lemma_text_prints(rest);
        let head = encode_scalar(s[0] as u32);
        assert(' ' <= s[0] && s[0] != '\u{7f}');
        lemma_char_prints(s[0]);
        assert forall|i: int| 0 <= i < encode_utf8(s).len() implies prints(
            #[trigger] encode_utf8(s)[i],
        ) by {
            if i < head.len() {
                assert(encode_utf8(s)[i] == head[i]);
            } else {
                assert(encode_utf8(s)[i] == encode_utf8(rest)[i - head.len()]);
            }
        }
    }
}

proof fn lemma_break_is_a_byte()
    ensures
        encode_scalar('\n' as u32) == seq![0x0au8],
{
    assert(leading_byte_width_1(10) == 10) by (bit_vector);
    assert(encode_scalar(10) =~= seq![0x0au8]);
}

proof fn lemma_text_types(s: Seq<char>)
    requires
        no_control_but_breaks(s),
    ensures
        forall|i: int|
            0 <= i < encode_utf8(s).len() ==> prints(#[trigger] encode_utf8(s)[i]) || encode_utf8(
                s,
            )[i] == 0x0a,
    decreases s.len(),
{
    if s.len() > 0 {
        let rest = s.drop_first();
        assert forall|i: int| 0 <= i < rest.len() implies (' ' <= #[trigger] rest[i] && rest[i]
            != '\u{7f}') || rest[i] == '\n' by {
            assert(rest[i] == s[i + 1]);
        }
        lemma_text_types(rest);
        let head = encode_scalar(s[0] as u32);
        if s[0] == '\n' {
            lemma_break_is_a_byte();
        } else {
            assert(' ' <= s[0] && s[0] != '\u{7f}');
            lemma_char_prints(s[0]);
        }
        assert forall|i: int| 0 <= i < encode_utf8(s).len() implies prints(
            #[trigger] encode_utf8(s)[i],
        ) || encode_utf8(s)[i] == 0x0a by {
            if i < head.len() {
                assert(encode_utf8(s)[i] == head[i]);
            } else {
                assert(encode_utf8(s)[i] == encode_utf8(rest)[i - head.len()]);
            }
        }
    }
}

proof fn lemma_feed_two(p: Prompt, a: Seq<u8>, b: Seq<u8>)
    ensures
        p.feed(a + b) == p.feed(a).feed(b),
    decreases b.len(),
{
    if b.len() == 0 {
        assert(a + b =~= a);
    } else {
        assert((a + b).drop_last() =~= a + b.drop_last());
        lemma_feed_two(p, a, b.drop_last());
    }
}

proof fn lemma_feed_four(p: Prompt, keys: Seq<u8>)
    requires
        keys.len() == 4,
    ensures
        p.feed(keys) == p.press(keys[0]).press(keys[1]).press(keys[2]).press(keys[3]),
{
    let three = keys.drop_last();
    let two = three.drop_last();
    let one = two.drop_last();
    assert(one.drop_last().len() == 0);
    assert(p.feed(one.drop_last()) == p);
    assert(p.feed(one) == p.press(keys[0]));
    assert(p.feed(two) == p.feed(one).press(keys[1]));
    assert(p.feed(three) == p.feed(two).press(keys[2]));
}

proof fn lemma_save(p: Prompt)
    requires
        p.wf(),
    ensures
        p.feed(save_keys()) == (Prompt {
            line: seq![],
            cursor: 0,
            killed: seq![0x20u8] + p.line,
            ..p
        }),
{
    lemma_feed_four(p, save_keys());
    let spaced = p.press(0x01).press(0x20);
    assert(spaced.line =~= seq![0x20u8] + p.line);
    let end = spaced.press(0x05);
    assert(end.line.skip(end.cursor) =~= Seq::<u8>::empty());
    assert(end.line.take(end.cursor) =~= end.line);
}

proof fn lemma_restore(p: Prompt, line: Seq<u8>)
    requires
        p.line.len() == 0,
        p.cursor == 0,
        p.killed == seq![0x20u8] + line,
    ensures
        p.feed(restore_keys()) == (Prompt { line, cursor: line.len() as int, ..p }),
{
    lemma_feed_four(p, restore_keys());
    let yanked = p.press(0x19);
    assert(yanked.line =~= p.killed);
    let home = yanked.press(0x01);
    assert(home.line.take(0) + home.line.skip(1) =~= line);
}

/// The lines that are submitted where `keys` are typed at an empty prompt, each
/// of which prints or ends the line, and what stands at the prompt then.
pub open spec fn typed(keys: Seq<u8>) -> (Seq<Seq<u8>>, Seq<u8>)
    decreases keys.len(),
{
    if keys.len() == 0 {
        (seq![], seq![])
    } else {
        let (lines, line) = typed(keys.drop_last());
        if keys.last() == 0x0a {
            (lines.push(line), seq![])
        } else {
            (lines, line.push(keys.last()))
        }
    }
}

proof fn lemma_type(p: Prompt, keys: Seq<u8>)
    requires
        p.line.len() == 0,
        p.cursor == 0,
        forall|i: int| 0 <= i < keys.len() ==> prints(#[trigger] keys[i]) || keys[i] == 0x0a,
    ensures
        p.feed(keys) == (Prompt {
            line: typed(keys).1,
            cursor: typed(keys).1.len() as int,
            submitted: p.submitted + typed(keys).0,
            ..p
        }),
    decreases keys.len(),
{
    if keys.len() == 0 {
        assert(p.line =~= typed(keys).1);
        assert(p.submitted + typed(keys).0 =~= p.submitted);
    } else {
        let front = keys.drop_last();
        assert forall|i: int| 0 <= i < front.len() implies prints(#[trigger] front[i]) || front[i]
            == 0x0a by {
            assert(front[i] == keys[i]);
        }
        lemma_type(p, front);
        let q = p.feed(front);
        let (lines, line) = typed(front);
        assert(prints(keys[keys.len() - 1]) || keys[keys.len() - 1] == 0x0a);
        if keys.last() == 0x0a {
            assert((p.submitted + lines).push(line) =~= p.submitted + lines.push(line));
        } else {
            assert(q.line.take(q.cursor) + seq![keys.last()] + q.line.skip(q.cursor)
                =~= line.push(keys.last()));
        }
    }
}

proof fn lemma_typed_line(keys: Seq<u8>)
    requires
        forall|i: int| 0 <= i < keys.len() ==> #[trigger] keys[i] != 0x0a,
    ensures
        typed(keys) == (Seq::<Seq<u8>>::empty(), keys),
    decreases keys.len(),
{
    if keys.len() > 0 {
        let front = keys.drop_last();
        assert forall|i: int| 0 <= i < front.len() implies #[trigger] front[i] != 0x0a by {
            assert(front[i] == keys[i]);
        }
        lemma_typed_line(front);
        assert(keys[keys.len() - 1] != 0x0a);
        assert(front.push(keys.last()) =~= keys);
    } else {
        assert(keys =~= Seq::<u8>::empty());
    }
}

/// The keys of a command put the half-typed line aside, whatever it is and
/// wherever the cursor stands, and submit the command with a space before it:
/// as one line, or as several where line breaks stand in it. The keys of
/// [`feed_input_restore`] then bring the line back, with the cursor at its end.
pub proof fn law_prompt_survives_a_command(p: Prompt, cmd: Seq<char>)
    requires
        p.wf(),
        no_control_but_breaks(cmd),
    ensures
        ({
            let sent = p.feed(command_keys(cmd));
            let back = p.feed(command_keys(cmd) + restore_keys());
            let text = seq![0x20u8] + encode_utf8(cmd);
            &&& sent.line.len() == 0
            &&& sent.submitted == p.submitted + typed(text.push(0x0a)).0
            &&& back.line == p.line
            &&& back.cursor == p.line.len()
            &&& back.submitted == sent.submitted
            &&& no_control(cmd) ==> sent.submitted == p.submitted.push(text)
        }),
{
    let text = seq![0x20u8] + encode_utf8(cmd);
    let all = text.push(0x0a);
    lemma_text_types(cmd);
    assert forall|i: int| 0 <= i < all.len() implies prints(#[trigger] all[i]) || all[i]
        == 0x0a by {
        if 0 < i < text.len() {
            assert(all[i] == encode_utf8(cmd)[i - 1]);
        }
    }
    lemma_save(p);
    let saved = p.feed(save_keys());
    lemma_feed_two(p, save_keys(), all);
    lemma_type(saved, all);
    let keys = command_keys(cmd);
    assert(keys =~= save_keys() + all);
    assert(all.drop_last() =~= text);
    let sent = p.feed(keys);
    lemma_feed_two(p, keys, restore_keys());
    lemma_restore(sent, p.line);
    if no_control(cmd) {
        lemma_text_prints(cmd);
        assert forall|i: int| 0 <= i < text.len() implies #[trigger] text[i] != 0x0a by {
            if i > 0 {
                assert(text[i] == encode_utf8(cmd)[i - 1]);
            }
        }
        lemma_typed_line(text);
        assert(p.submitted + Seq::<Seq<u8>>::empty().push(text) =~= p.submitted.push(text));
    }
}

/// The keys for a quick shell command (one that completes immediately, like
/// `cd`): save the prompt, run, restore, all in one go.
pub fn feed_command(cmd: &str) -> (r: Vec<u8>)
    ensures
        r@ == command_keys(cmd@) + restore_keys(),
{
    let mut keys = feed_command_async(cmd);
    let mut back = feed_input_restore();
    keys.append(&mut back);
    keys
}

/// The keys for a long-running shell command: save the prompt and submit. The
/// prompt is to be restored with [`feed_input_restore`] once the child process
/// exits (see [`monitor_and_restore_input`]).
pub fn feed_command_async(cmd: &str) -> (r: Vec<u8>)
    ensures
        r@ == command_keys(cmd@),
{
    let mut keys: Vec<u8> = vec![0x01u8, 0x20, 0x05, 0x15, 0x20];
    assert(keys@ =~= save_keys() + seq![0x20u8]);
    let mut body = cmd.as_bytes_vec();
    keys.append(&mut body);
    keys.push(0x0a);
    assert(keys@ =~= command_keys(cmd@));
    keys
}

/// The keys that bring the saved prompt input back.
pub fn feed_input_restore() -> (r: Vec<u8>)
    ensures
        r@ == restore_keys(),
{
    let keys: Vec<u8> = vec![0x19u8, 0x01, 0x04, 0x05];
    assert(keys@ =~= restore_keys());
    keys
}

/// How many polls may pass before the launched child appears.
pub const MAX_STARTUP_CHECKS: u32 = 10;

/// A watch over the terminal's foreground process group after a launch.
pub struct Monitor {
    pub has_started: bool,
    pub checks: u32,
}

/// What to do after one poll.
#[derive(Clone, Copy, PartialEq, Eq, Structural, Debug)]
pub enum MonitorStep {
    /// Poll again.
    Continue,
    /// Restore the prompt input and stop polling.
    Restore,
    /// Stop polling: the shell or its terminal is gone.
    Stop,
}

impl Monitor {
    /// The watch has not come to its end.
    pub open spec fn wf(self) -> bool {
        self.checks <= MAX_STARTUP_CHECKS
    }

    /// A watch that has not polled yet.
    pub fn new() -> (r: Monitor)
        ensures
            r == (Monitor { has_started: false, checks: 0 }),
            r.wf(),
    {
        Monitor { has_started: false, checks: 0 }
    }

    /// The step that one poll leads to, and the watch after it.
    pub open spec fn polled(self, shell_pid: Option<i32>, foreground: Option<i32>) -> (
        Monitor,
        MonitorStep,
    ) {
        if shell_pid is None || foreground is None {
            (self, MonitorStep::Stop)
        } else if !self.has_started {
            if foreground != shell_pid {
                (Monitor { has_started: true, ..self }, MonitorStep::Continue)
            } else {
                (
                    Monitor { checks: (self.checks + 1) as u32, ..self },
                    if self.checks < MAX_STARTUP_CHECKS {
                        MonitorStep::Continue
                    } else {
                        MonitorStep::Restore
                    },
                )
            }
        } else if foreground == shell_pid {
            (self, MonitorStep::Restore)
        } else {
            (self, MonitorStep::Continue)
        }
    }

    /// The watch after polls that found the groups `foregrounds` in turn, and
    /// the step that the last of them led to.
    pub open spec fn polled_all(self, shell: i32, foregrounds: Seq<i32>) -> (Monitor, MonitorStep)
        decreases foregrounds.len(),
    {
        if foregrounds.len() == 0 {
            (self, MonitorStep::Continue)
        } else {
            self.polled_all(shell, foregrounds.drop_last()).0.polled(
                Some(shell),
                Some(foregrounds.last()),
            )
        }
    }
}

/// One poll of the terminal's foreground process group; once the launched
/// child (anything other than the shell itself) has exited, the prompt input
/// is to be restored. Up to [`MAX_STARTUP_CHECKS`] polls are spent waiting for
/// the child to appear: commands that finish before the first poll still get
/// the input restored.
pub fn monitor_and_restore_input(
    monitor: &mut Monitor,
    shell_pid: Option<i32>,
    foreground: Option<i32>,
) -> (r: MonitorStep)
    requires
        old(monitor).wf(),
    ensures
        (*final(monitor), r) == old(monitor).polled(shell_pid, foreground),
        r == MonitorStep::Continue ==> final(monitor).wf(),
{
    let shell: i32 = match shell_pid {
        Some(pid) => pid,
        None => return MonitorStep::Stop,
    };
    let group: i32 = match foreground {
        Some(g) => g,
        None => return MonitorStep::Stop,
    };
    if !monitor.has_started {
        if group != shell {
            monitor.has_started = true;
            MonitorStep::Continue
        } else {
            monitor.checks = monitor.checks + 1;
            if monitor.checks > MAX_STARTUP_CHECKS {
                MonitorStep::Restore
            } else {
                MonitorStep::Continue
            }
        }
    } else if group == shell {
        MonitorStep::Restore
    } else {
        MonitorStep::Continue
    }
}

/// A child that never shows: the watch goes on for [`MAX_STARTUP_CHECKS`]
/// polls, and the next one restores the input.
pub proof fn law_unseen_child_is_given_up(shell: i32, foregrounds: Seq<i32>)
    requires
        forall|i: int| 0 <= i < foregrounds.len() ==> #[trigger] foregrounds[i] == shell,
        foregrounds.len() <= MAX_STARTUP_CHECKS + 1,
    ensures
        ({
            let (after, step) = (Monitor { has_started: false, checks: 0 }).polled_all(
                shell,
                foregrounds,
            );
            &&& !after.has_started
            &&& after.checks == foregrounds.len()
            &&& step == if foregrounds.len() <= MAX_STARTUP_CHECKS {
                MonitorStep::Continue
            } else {
                MonitorStep::Restore
            }
        }),
    decreases foregrounds.len(),
{
    if foregrounds.len() > 0 {
        let front = foregrounds.drop_last();
        assert forall|i: int| 0 <= i < front.len() implies #[trigger] front[i] == shell by {
            assert(front[i] == foregrounds[i]);
        }
        law_unseen_child_is_given_up(shell, front);
        assert(foregrounds[foregrounds.len() - 1] == shell);
    }
}

/// A child that is seen, at once or after polls that did not find it yet: the
/// watch goes on as long as the shell is not back in the foreground, and the
/// first poll that finds it there restores the input.
pub proof fn law_seen_child_is_waited_for(
    shell: i32,
    unseen: Seq<i32>,
    first: i32,
    running: Seq<i32>,
)
    requires
        forall|i: int| 0 <= i < unseen.len() ==> #[trigger] unseen[i] == shell,
        unseen.len() <= MAX_STARTUP_CHECKS,
        first != shell,
        forall|i: int| 0 <= i < running.len() ==> #[trigger] running[i] != shell,
    ensures
        ({
            let fresh = Monitor { has_started: false, checks: 0 };
            let (during, step) = fresh.polled_all(shell, unseen + seq![first] + running);
            &&& during.has_started
            &&& step == MonitorStep::Continue
            &&& during.polled(Some(shell), Some(shell)).1 == MonitorStep::Restore
        }),
    decreases running.len(),
{
    let all = unseen + seq![first] + running;
    if running.len() == 0 {
        law_unseen_child_is_given_up(shell, unseen);
        assert(all.drop_last() =~= unseen);
        assert(all.last() == first);
    } else {
        let front = running.drop_last();
        assert forall|i: int| 0 <= i < front.len() implies #[trigger] front[i] != shell by {
            assert(front[i] == running[i]);
        }
        law_seen_child_is_waited_for(shell, unseen, first, front);
        assert(all.drop_last() =~= unseen + seq![first] + front);
        assert(running[running.len() - 1] != shell);
    }
}

/// The commands of this module name the path last, as one quoted word: what a
/// shell reads there is the path.
pub proof fn law_commands_name_the_path(path: PathView, editor: Seq<char>)
    ensures
        ({
            let edit_lead = "clear; "@ + editor + " "@;
            let edit = edit_command(path, editor);
            let cd = cd_command(path);
            let lead = "clear; "@ + exec_prefix(path);
            let exec = exec_command(path, None);
            let word = Some((path.text, Seq::<char>::empty()));
            &&& edit.take(edit_lead.len() as int) == edit_lead
            &&& read_word(edit.skip(edit_lead.len() as int), false, seq![]) == word
            &&& cd.take("clear; cd "@.len() as int) == "clear; cd "@
            &&& read_word(cd.skip("clear; cd "@.len() as int), false, seq![]) == word
            &&& exec.take(lead.len() as int) == lead
            &&& read_word(exec.skip(lead.len() as int), false, seq![]) == word
        }),
{
    let none = Seq::<char>::empty();
    law_quoted_word_is_the_string(path.text, none);
    assert(quoted(path.text) + none =~= quoted(path.text));
    let edit_lead = "clear; "@ + editor + " "@;
    let edit = edit_command(path, editor);
    assert(edit.take(edit_lead.len() as int) =~= edit_lead);
    assert(edit.skip(edit_lead.len() as int) =~= quoted(path.text));
    let cd = cd_command(path);
    assert(cd.take("clear; cd "@.len() as int) =~= "clear; cd "@);
    assert(cd.skip("clear; cd "@.len() as int) =~= quoted(path.text));
    let lead = "clear; "@ + exec_prefix(path);
    let exec = exec_command(path, None);
    assert(exec.take(lead.len() as int) =~= lead);
    assert(exec.skip(lead.len() as int) =~= quoted(path.text));
}

proof fn lemma_escaped_parts(a: Seq<char>, b: Seq<char>)
    ensures
        escaped_all(a + b) == escaped_all(a) + escaped_all(b),
    decreases a.len(),
{
    if a.len() == 0 {
        assert(a + b =~= b);
        assert(escaped_all(a) + escaped_all(b) =~= escaped_all(b));
    } else {
        lemma_escaped_parts(a.drop_first(), b);
        assert((a + b).drop_first() =~= a.drop_first() + b);
        assert(escaped_all(a + b) =~= escaped_all(a) + escaped_all(b));
    }
}

proof fn lemma_nothing_to_escape(a: Seq<char>)
    requires
        forall|i: int| 0 <= i < a.len() ==> #[trigger] a[i] != '\'',
    ensures
        escaped_all(a) == a,
    decreases a.len(),
{
    if a.len() > 0 {
        let rest = a.drop_first();
        assert forall|i: int| 0 <= i < rest.len() implies #[trigger] rest[i] != '\'' by {
            assert(rest[i] == a[i + 1]);
        }
        lemma_nothing_to_escape(rest);
        assert(a[0] != '\'');
        assert(seq![a[0]] + rest =~= a);
    } else {
        assert(escaped_all(a) =~= a);
    }
}

/// How a text is quoted: one without a quote stands between two of them as it
/// is, and each quote in a text parts two quoted texts, with a backslash and
/// itself between them.
pub proof fn law_how_a_text_is_quoted(a: Seq<char>, b: Seq<char>)
    ensures
        (forall|i: int| 0 <= i < a.len() ==> #[trigger] a[i] != '\'') ==> quoted(a) == seq!['\'']
            + a + seq!['\''],
        quoted(a + seq!['\''] + b) == quoted(a) + seq!['\\', '\''] + quoted(b),
{
    if forall|i: int| 0 <= i < a.len() ==> #[trigger] a[i] != '\'' {
        lemma_nothing_to_escape(a);
    }
    let q = seq!['\''];
    lemma_escaped_parts(a + q, b);
    lemma_escaped_parts(a, q);
    assert(q.drop_first() =~= Seq::<char>::empty());
    assert(escaped_all(q) =~= seq!['\'', '\\', '\'', '\'']) by {
        reveal_with_fuel(escaped_all, 2);
    }
    assert(quoted(a + q + b) =~= quoted(a) + seq!['\\', '\''] + quoted(b));
}

/// What is typed to open a file: `clear; `, the command and a space where the
/// user has set one, and the quoted path. Without one a Python script runs in
/// `python` and a JavaScript one in `node`, whatever the case of their
/// extensions; any other file is run by its path, behind `./` where that is not
/// absolute. A directory is entered with `cd`.
pub proof fn law_what_is_typed(path: PathView, cmd: Seq<char>)
    ensures
        edit_command(path, cmd) == "clear; "@ + cmd + " "@ + quoted(path.text),
        exec_command(path, Some(cmd)) == "clear; "@ + cmd + " "@ + quoted(path.text),
        cd_command(path) == "clear; cd "@ + quoted(path.text),
        ({
            let bare = exec_command(path, None);
            let e = path.ext->0;
            let py = path.ext is Some && e.len() == 2 && (e[0] == 'p' || e[0] == 'P') && (e[1]
                == 'y' || e[1] == 'Y');
            let js = path.ext is Some && e.len() == 2 && (e[0] == 'j' || e[0] == 'J') && (e[1]
                == 's' || e[1] == 'S');
            let absolute = path.text.len() > 0 && path.text[0] == '/';
            &&& py ==> bare == "clear; python "@ + quoted(path.text)
            &&& js ==> bare == "clear; node "@ + quoted(path.text)
            &&& !py && !js && absolute ==> bare == "clear; "@ + quoted(path.text)
            &&& !py && !js && !absolute ==> bare == "clear; ./"@ + quoted(path.text)
        }),
{
    reveal_strlit("py");
    reveal_strlit("js");
    reveal_strlit("clear; ");
    reveal_strlit("python ");
    reveal_strlit("node ");
    reveal_strlit("./");
    reveal_strlit("clear; python ");
    reveal_strlit("clear; node ");
    reveal_strlit("clear; ./");
    assert("clear; "@ + "python "@ =~= "clear; python "@);
    assert("clear; "@ + "node "@ =~= "clear; node "@);
    assert("clear; "@ + "./"@ =~= "clear; ./"@);
    assert("clear; "@ + Seq::<char>::empty() =~= "clear; "@);
    assert(text::ascii_lower_all("py"@) =~= seq!['p', 'y']);
    assert(text::ascii_lower_all("js"@) =~= seq!['j', 's']);
    if path.ext is Some {
        let e = path.ext->0;
        let lower = text::ascii_lower_all(e);
        if e.len() == 2 {
            assert(lower[0] == text::ascii_lower(e[0]) && lower[1] == text::ascii_lower(e[1]));
            lemma_lower_is(e[0]);
            lemma_lower_is(e[1]);
            assert(lower =~= seq![lower[0], lower[1]]);
        }
        if lower == seq!['p', 'y'] {
            assert(lower[0] == 'p' && lower[1] == 'y');
        }
        if lower == seq!['j', 's'] {
            assert(lower[0] == 'j' && lower[1] == 's');
        }
    }
}

proof fn lemma_lower_is(c: char)
    ensures
        text::ascii_lower(c) == 'p' <==> c == 'p' || c == 'P',
        text::ascii_lower(c) == 'y' <==> c == 'y' || c == 'Y',
        text::ascii_lower(c) == 'j' <==> c == 'j' || c == 'J',
        text::ascii_lower(c) == 's' <==> c == 's' || c == 'S',
{
}

/// The keys around a command, byte for byte: Ctrl-A, a space, Ctrl-E and Ctrl-U,
/// then the command with a space before it and a line feed behind; and Ctrl-Y,
/// Ctrl-A, Ctrl-D and Ctrl-E to bring the line back.
pub proof fn law_keys_around_a_command(cmd: Seq<char>)
    ensures
        command_keys(cmd) == seq![1u8, 32, 5, 21, 32] + encode_utf8(cmd) + seq![10u8],
        restore_keys() == seq![25u8, 1, 4, 5],
{
    assert(command_keys(cmd) =~= seq![1u8, 32, 5, 21, 32] + encode_utf8(cmd) + seq![10u8]);
}

/// One poll. Without a shell or a terminal the watch stops. The input is
/// restored only where the shell has the foreground: once the child was seen,
/// or at the eleventh poll that has not seen it. The child counts as seen from
/// the first poll on that finds another group in the foreground.
pub proof fn law_one_poll(m: Monitor, shell: i32, group: i32)
    requires
        m.checks <= 10,
    ensures
        m.polled(None, Some(group)) == (m, MonitorStep::Stop),
        m.polled(Some(shell), None) == (m, MonitorStep::Stop),
        m.polled(None, None) == (m, MonitorStep::Stop),
        ({
            let (after, step) = m.polled(Some(shell), Some(group));
            &&& step != MonitorStep::Stop
            &&& step == MonitorStep::Restore <==> group == shell && (m.has_started || m.checks
                == 10)
            &&& after.has_started == (m.has_started || group != shell)
            &&& after.checks == if !m.has_started && group == shell {
                m.checks + 1
            } else {
                m.checks as int
            }
        }),
{
}

/// Ten polls without a child are waited for, and no more.
pub proof fn law_ten_polls_without_a_child(shell: i32, n: int)
    requires
        0 <= n <= 11,
    ensures
        (Monitor { has_started: false, checks: 0 }).polled_all(shell, Seq::new(n as nat, |i: int| shell))
            == (
            Monitor { has_started: false, checks: n as u32 },
            if n == 11 {
                MonitorStep::Restore
            } else {
                MonitorStep::Continue
            },
        ),
{
    law_unseen_child_is_given_up(shell, Seq::new(n as nat, |i: int| shell));
}

/// A quick command is fed as a long-running one is, with the keys that bring the
/// line back right behind.
pub proof fn law_quick_command_is_a_long_one_and_a_restore(
    cmd: &str,
    quick: Vec<u8>,
    long: Vec<u8>,
    restore: Vec<u8>,
)
    requires
        call_ensures(feed_command, (cmd,), quick),
        call_ensures(feed_command_async, (cmd,), long),
        call_ensures(feed_input_restore, (), restore),
    ensures
        quick@ == long@ + restore@,
        long@ == seq![1u8, 32, 5, 21, 32] + encode_utf8(cmd@) + seq![10u8],
        restore@ == seq![25u8, 1, 4, 5],
{
    law_keys_around_a_command(cmd@);
}

/// Quoting two texts with a quote between them is quoting each, with a backslash
/// and the quote between; and a text without a quote is put between two.
pub proof fn law_quoting_of_joined_texts(
    a: &str,
    b: &str,
    whole: &str,
    qa: String,
    qb: String,
    r: String,
)
    requires
        call_ensures(shell_quote, (a,), qa),
        call_ensures(shell_quote, (b,), qb),
        call_ensures(shell_quote, (whole,), r),
        whole@ == a@ + seq!['\''] + b@,
    ensures
        r@ == qa@ + seq!['\\', '\''] + qb@,
        (forall|i: int| 0 <= i < a@.len() ==> #[trigger] a@[i] != '\'') ==> qa@ == seq!['\''] + a@
            + seq!['\''],
{
    law_how_a_text_is_quoted(a@, b@);
}

/// The commands that are built for a path: each ends in the path as it is
/// quoted, and a command that the user has set stands before it in either case.
pub proof fn law_commands_that_are_built(
    path: &EntryPath,
    cmd: &str,
    exec: String,
    bare: String,
    edit: String,
    cd: String,
)
    requires
        call_ensures(build_exec_command, (path, Some(cmd)), exec),
        call_ensures(build_exec_command, (path, None::<&str>), bare),
        call_ensures(build_edit_command, (path, cmd), edit),
        call_ensures(build_cd_command, (path,), cd),
    ensures
        edit@ == "clear; "@ + cmd@ + " "@ + quoted(path@.text),
        exec@ == edit@,
        cd@ == "clear; cd "@ + quoted(path@.text),
        bare@ == exec_command(path@, None),
{
    law_what_is_typed(path@, cmd@);
}

} // verus!
