//! File classification used by the listing and by `--ls`, and the keyboard
//! labels of the entries.
//!
//! The "style" string returned by [`classify`] drives both the colour tag
//! applied to the entry and whether it gets a keyboard shortcut.

use crate::paths;
use crate::text;
use vstd::prelude::*;

verus! {

/// `ext` is that of an image, whatever the case of its letters.
pub open spec fn image_ext(ext: Seq<char>) -> bool {
    let e = text::ascii_lower_all(ext);
    ||| e == "png"@
    ||| e == "jpg"@
    ||| e == "jpeg"@
    ||| e == "gif"@
    ||| e == "bmp"@
    ||| e == "webp"@
    ||| e == "svg"@
    ||| e == "tif"@
    ||| e == "tiff"@
}

/// `ext` is that of a text file, whatever the case of its letters.
pub open spec fn text_ext(ext: Seq<char>) -> bool {
    let e = text::ascii_lower_all(ext);
    ||| e == "txt"@
    ||| e == "md"@
    ||| e == "rs"@
    ||| e == "toml"@
    ||| e == "json"@
    ||| e == "css"@
    ||| e == "sh"@
    ||| e == "conf"@
    ||| e == "cfg"@
    ||| e == "ini"@
    ||| e == "js"@
    ||| e == "py"@
    ||| e == "c"@
    ||| e == "h"@
    ||| e == "cpp"@
    ||| e == "html"@
}

/// `lower`, the lower case of `ext`, is ASCII and holds no `k` only where it is
/// the lower case of each character of `ext` by itself.
pub proof fn lemma_lowercase_is(ext: Seq<char>, lower: Seq<char>)
    requires
        text::all_ascii(ext) ==> lower == text::ascii_lower_all(ext),
        !text::all_ascii(ext) ==> !text::all_ascii(lower) || lower.contains('k'),
    ensures
        forall|e: Seq<char>|
            #[trigger] text::plain_lower(e) ==> (lower == e <==> text::ascii_lower_all(ext) == e),
{
    assert forall|e: Seq<char>| #[trigger] text::plain_lower(e) implies (lower == e
        <==> text::ascii_lower_all(ext) == e) by {
        if !text::all_ascii(ext) {
            let i = choose|i: int| 0 <= i < ext.len() && !((#[trigger] ext[i]) as u32 <= 127);
            assert(text::ascii_lower_all(ext)[i] == ext[i]);
            if text::ascii_lower_all(ext) == e {
                assert(e[i] == ext[i]);
            }
        }
    }
}

/// No extension of an image or a text file holds a `k`.
proof fn lemma_exts_are_plain()
    ensures
        text::plain_lower("png"@),
        text::plain_lower("jpg"@),
        text::plain_lower("jpeg"@),
        text::plain_lower("gif"@),
        text::plain_lower("bmp"@),
        text::plain_lower("webp"@),
        text::plain_lower("svg"@),
        text::plain_lower("tif"@),
        text::plain_lower("tiff"@),
        text::plain_lower("txt"@),
        text::plain_lower("md"@),
        text::plain_lower("rs"@),
        text::plain_lower("toml"@),
        text::plain_lower("json"@),
        text::plain_lower("css"@),
        text::plain_lower("sh"@),
        text::plain_lower("conf"@),
        text::plain_lower("cfg"@),
        text::plain_lower("ini"@),
        text::plain_lower("js"@),
        text::plain_lower("py"@),
        text::plain_lower("c"@),
        text::plain_lower("h"@),
        text::plain_lower("cpp"@),
        text::plain_lower("html"@),
{
    reveal_strlit("png");
    reveal_strlit("jpg");
    reveal_strlit("jpeg");
    reveal_strlit("gif");
    reveal_strlit("bmp");
    reveal_strlit("webp");
    reveal_strlit("svg");
    reveal_strlit("tif");
    reveal_strlit("tiff");
    reveal_strlit("txt");
    reveal_strlit("md");
    reveal_strlit("rs");
    reveal_strlit("toml");
    reveal_strlit("json");
    reveal_strlit("css");
    reveal_strlit("sh");
    reveal_strlit("conf");
    reveal_strlit("cfg");
    reveal_strlit("ini");
    reveal_strlit("js");
    reveal_strlit("py");
    reveal_strlit("c");
    reveal_strlit("h");
    reveal_strlit("cpp");
    reveal_strlit("html");
}

/// Whether files of this extension are shown as images.
pub fn is_image_ext(ext: &str) -> (r: bool)
    ensures
        r == image_ext(ext@),
{
    let lower = ext.to_lowercase();
    let e = lower.as_str();
    proof {
        lemma_lowercase_is(ext@, e@);
        lemma_exts_are_plain();
    }
    text::same(e, "png") || text::same(e, "jpg") || text::same(e, "jpeg")
        || text::same(e, "gif") || text::same(e, "bmp") || text::same(e, "webp")
        || text::same(e, "svg") || text::same(e, "tif") || text::same(e, "tiff")
}

/// Whether files of this extension are opened in the editor.
pub fn is_text_ext(ext: &str) -> (r: bool)
    ensures
        r == text_ext(ext@),
{
    let lower = ext.to_lowercase();
    let e = lower.as_str();
    proof {
        lemma_lowercase_is(ext@, e@);
        lemma_exts_are_plain();
    }
    text::same(e, "txt") || text::same(e, "md") || text::same(e, "rs")
        || text::same(e, "toml") || text::same(e, "json") || text::same(e, "css")
        || text::same(e, "sh") || text::same(e, "conf") || text::same(e, "cfg")
        || text::same(e, "ini") || text::same(e, "js") || text::same(e, "py")
        || text::same(e, "c") || text::same(e, "h") || text::same(e, "cpp")
        || text::same(e, "html")
}

/// Whether an extension is that of an image or of a text file does not depend
/// on the case of its letters, and none is that of both.
pub proof fn law_extensions_ignore_case(ext: Seq<char>)
    ensures
        image_ext(text::ascii_upper_all(ext)) == image_ext(ext),
        text_ext(text::ascii_upper_all(ext)) == text_ext(ext),
        !(image_ext(ext) && text_ext(ext)),
{
    let upper = text::ascii_upper_all(ext);
    assert(text::ascii_lower_all(upper) =~= text::ascii_lower_all(ext)) by {
        assert forall|i: int| 0 <= i < ext.len() implies text::ascii_lower_all(upper)[i]
            == text::ascii_lower_all(ext)[i] by {
            lemma_lower_of_upper(ext[i]);
        }
    }
    reveal_strlit("png");
    reveal_strlit("jpg");
    reveal_strlit("jpeg");
    reveal_strlit("gif");
    reveal_strlit("bmp");
    reveal_strlit("webp");
    reveal_strlit("svg");
    reveal_strlit("tif");
    reveal_strlit("tiff");
    reveal_strlit("txt");
    reveal_strlit("md");
    reveal_strlit("rs");
    reveal_strlit("toml");
    reveal_strlit("json");
    reveal_strlit("css");
    reveal_strlit("sh");
    reveal_strlit("conf");
    reveal_strlit("cfg");
    reveal_strlit("ini");
    reveal_strlit("js");
    reveal_strlit("py");
    reveal_strlit("c");
    reveal_strlit("h");
    reveal_strlit("cpp");
    reveal_strlit("html");
    let e = text::ascii_lower_all(ext);
    if image_ext(ext) {
        assert(e.len() == 3 || e.len() == 4);
        assert(e[e.len() - 1] == 'g' || e[e.len() - 1] == 'f' || e[e.len() - 1] == 'p');
        assert(e[e.len() - 1] == 'f' ==> e[0] == 'g' || e[0] == 't');
        assert(e[e.len() - 1] == 'p' ==> e[0] == 'b' || e[0] == 'w');
        assert(e[e.len() - 1] == 'g' ==> e[0] == 'p' || e[0] == 'j' || e[0] == 's');
    }
}

proof fn lemma_lower_of_upper(c: char)
    ensures
        text::ascii_lower(text::ascii_upper(c)) == text::ascii_lower(c),
{
}

/// Lowercase letters and digits, but for the letters that bash line-editing
/// reserves (`a`/`c`/`d`/`e`/`l`) and `v` (paste).
pub open spec fn label_char(c: char) -> bool {
    &&& 'a' <= c <= 'z' || '0' <= c <= '9'
    &&& c != 'a' && c != 'c' && c != 'd' && c != 'e' && c != 'l' && c != 'v'
}

/// All the characters that are [`label_char`]s, in ascending order.
pub open spec fn label_chars() -> Seq<char> {
    "0123456789bfghijkmnopqrstuwxyz"@
}

/// [`label_chars`] holds the label characters, each once, in ascending order.
pub proof fn law_label_chars()
    ensures
        forall|c: char| #[trigger] label_chars().contains(c) <==> label_char(c),
        forall|i: int, j: int|
            0 <= i < j < label_chars().len() ==> #[trigger] label_chars()[i]
                < #[trigger] label_chars()[j],
        label_chars().no_duplicates(),
        label_chars().len() == 30,
{
    reveal_strlit("0123456789bfghijkmnopqrstuwxyz");
    let s = label_chars();
    assert forall|c: char| #[trigger] s.contains(c) <==> label_char(c) by {
        if label_char(c) {
            let n = c as int;
            let i = if n <= '9' as int {
                n - '0' as int
            } else if n == 'b' as int {
                10
            } else if n <= 'k' as int {
                n - 'f' as int + 11
            } else if n <= 'u' as int {
                n - 'm' as int + 17
            } else {
                n - 'w' as int + 26
            };
            assert(s[i] == c);
        }
    }
}

/// The set of single-character labels available for menu shortcuts. Both
/// `--ls` and the listing use this same pool.
pub fn label_pool() -> (r: Vec<char>)
    ensures
        r@ == label_chars(),
        forall|c: char| #[trigger] r@.contains(c) <==> label_char(c),
{
    proof {
        law_label_chars();
    }
    text::chars_of("0123456789bfghijkmnopqrstuwxyz")
}

/// The style that the extension of `name` stands for.
pub open spec fn ext_style(name: Seq<char>) -> Seq<char> {
    match paths::extension(name) {
        Some(ext) => if image_ext(ext) {
            "image"@
        } else if text_ext(ext) {
            "text"@
        } else {
            "unmatched"@
        },
        None => "unmatched"@,
    }
}

/// Some execute bit is set.
pub open spec fn executable(mode: u32) -> bool {
    mode & 0o111 != 0
}

pub open spec fn style_of(name: Seq<char>, is_dir: bool, is_symlink: bool, mode: u32) -> Seq<char> {
    if is_dir {
        "dir"@
    } else if is_symlink {
        "symlink"@
    } else if text::has_part(text::ascii_upper_all(name), "README"@) {
        "readme"@
    } else if ext_style(name) != "image"@ && executable(mode) {
        "exe"@
    } else {
        ext_style(name)
    }
}

/// Classify a directory entry into one of the styling buckets.
/// Mirrors `ls --color`: dirs/symlinks first, then README, then
/// extension-based (image/text), with the executable bit overriding text or
/// unmatched (but not image, since +x images are weird).
pub fn classify(name: &str, is_dir: bool, is_symlink: bool, mode: u32) -> (r: &'static str)
    ensures
        r@ == style_of(name@, is_dir, is_symlink, mode),
{
    if is_dir {
        return "dir";
    }
    if is_symlink {
        return "symlink";
    }
    if text::contains(name.to_uppercase().as_str(), "README") {
        return "readme";
    }
    let style = match paths::path_extension(name) {
        Some(ext) => if is_image_ext(ext.as_str()) {
            "image"
        } else if is_text_ext(ext.as_str()) {
            "text"
        } else {
            "unmatched"
        },
        None => "unmatched",
    };
    if !text::same(style, "image") && (mode & 0o111) != 0 {
        return "exe";
    }
    style
}

pub open spec fn labelable(style: Seq<char>, name: Seq<char>) -> bool {
    ||| style == "dir"@
    ||| style == "symlink"@
    ||| style == "exe"@
    ||| style == "unmatched"@
    ||| paths::extension(name) is Some && (image_ext(paths::extension(name)->0) || text_ext(
        paths::extension(name)->0,
    ))
}

/// Whether an entry of the given style should receive a keyboard label.
/// Directories, symlinks, executables, and unmatched entries are always
/// labelable. For other styles (image / text / readme) a recognised extension
/// is required as well: a plain `README` has no label, `README.md` has one.
pub fn should_have_label(style: &str, name: &str) -> (r: bool)
    ensures
        r == labelable(style@, name@),
{
    if text::same(style, "dir") || text::same(style, "symlink") || text::same(style, "exe")
        || text::same(style, "unmatched") {
        return true;
    }
    match paths::path_extension(name) {
        Some(ext) => is_image_ext(ext.as_str()) || is_text_ext(ext.as_str()),
        None => false,
    }
}

/// An entry that can carry a label.
pub trait LabelSlot: Sized {
    closed spec fn wants(&self) -> bool {
        arbitrary()
    }

    closed spec fn shown(&self) -> Option<char> {
        arbitrary()
    }

    /// Apart from the label, `self` is `other`.
    closed spec fn same_entry(&self, other: &Self) -> bool {
        arbitrary()
    }

    fn wants_label(&self) -> (r: bool)
        ensures
            r == self.wants(),
    ;

    fn label(&self) -> (r: Option<char>)
        ensures
            r == self.shown(),
    ;

    fn set_label(&mut self, c: char)
        ensures
            final(self).shown() == Some(c),
            final(self).wants() == old(self).wants(),
            final(self).same_entry(old(self)),
    ;
}

/// What decides about the label of one entry.
pub struct Slot {
    pub wants: bool,
    pub label: Option<char>,
    pub name: Seq<char>,
}

impl Slot {
    /// A label is wanted and not there yet.
    pub open spec fn open(self) -> bool {
        self.wants && self.label is None
    }

    /// The first letter of the name, if the entry is still to be labelled.
    pub open spec fn letter(self) -> Option<char> {
        if self.open() && self.name.len() > 0 {
            Some(text::ascii_lower(self.name[0]))
        } else {
            None
        }
    }
}

/// The labels after each entry has tried its first letter, in turn, and the
/// labels that are left.
pub open spec fn first_pass(slots: Seq<Slot>) -> (Seq<Option<char>>, Seq<char>)
    decreases slots.len(),
{
    if slots.len() == 0 {
        (seq![], label_chars())
    } else {
        let (labels, pool) = first_pass(slots.drop_last());
        let slot = slots.last();
        if slot.letter() is Some && pool.contains(slot.letter()->0) {
            (labels.push(slot.letter()), pool.remove(text::first_at(pool, slot.letter()->0)))
        } else {
            (labels.push(slot.label), pool)
        }
    }
}

/// The labels after the entries that still lack one have taken the lowest
/// label left, in turn, and the labels that are left.
pub open spec fn second_pass(
    slots: Seq<Slot>,
    labels: Seq<Option<char>>,
    pool: Seq<char>,
) -> (Seq<Option<char>>, Seq<char>)
    decreases slots.len(),
{
    if slots.len() == 0 {
        (seq![], pool)
    } else {
        let (given, left) = second_pass(slots.drop_last(), labels.drop_last(), pool);
        if slots.last().wants && labels.last() is None && left.len() > 0 {
            (given.push(Some(left[0])), left.drop_first())
        } else {
            (given.push(labels.last()), left)
        }
    }
}

/// The labels of the entries: first letters first, then whatever is left.
pub open spec fn assigned(slots: Seq<Slot>) -> Seq<Option<char>> {
    let (labels, pool) = first_pass(slots);
    second_pass(slots, labels, pool).0
}

pub open spec fn slot_of<I: LabelSlot>(item: I, name: Seq<char>) -> Slot {
    Slot { wants: item.wants(), label: item.shown(), name }
}

pub open spec fn slots_of<I: LabelSlot>(items: Seq<I>, names: Seq<Seq<char>>) -> Seq<Slot> {
    Seq::new(items.len(), |i: int| slot_of(items[i], names[i]))
}

pub open spec fn labels_of<I: LabelSlot>(items: Seq<I>) -> Seq<Option<char>> {
    Seq::new(items.len(), |i: int| items[i].shown())
}

/// `name` is what `name_of` may return for `item`.
pub open spec fn name_from<I: LabelSlot, F: FnMut(&I) -> &str>(
    name_of: F,
    item: I,
    name: Seq<char>,
) -> bool {
    exists|s: &str| #[trigger] call_ensures(name_of, (&item,), s) && s@ == name
}

/// `names` are what `name_of` may return for the entries still to be labelled.
pub open spec fn names_from<I: LabelSlot, F: FnMut(&I) -> &str>(
    name_of: F,
    items: Seq<I>,
    names: Seq<Seq<char>>,
) -> bool {
    &&& names.len() == items.len()
    &&& forall|i: int|
        0 <= i < items.len() && (#[trigger] items[i]).wants() && items[i].shown() is None
            ==> name_from(name_of, items[i], names[i])
}

/// An entry as it was, or with nothing but its label changed.
pub open spec fn kept_entry<I: LabelSlot>(before: I, after: I) -> bool {
    after == before || (before.wants() && before.shown() is None && after.wants()
        && after.same_entry(&before))
}

/// Two-pass label assignment: first try each item's first letter, then fill
/// remaining items with whatever's left in the pool. Items whose `label()`
/// is already set (e.g. the synthetic `..` entry) are left alone.
pub fn assign_labels<I: LabelSlot, F: FnMut(&I) -> &str>(items: &mut [I], mut name_of: F)
    requires
        forall|x: &I| call_requires(name_of, (x,)),
    ensures
        final(items)@.len() == old(items)@.len(),
        forall|i: int|
            0 <= i < old(items)@.len() ==> kept_entry(
                old(items)@[i],
                #[trigger] final(items)@[i],
            ),
        exists|names: Seq<Seq<char>>| #[trigger]
            names_from(name_of, old(items)@, names) && labels_of(final(items)@) == assigned(
                slots_of(old(items)@, names),
            ),
{
    let ghost asked = name_of;
    let ghost before = items@;
    let mut pool = label_pool();
    let ghost mut names: Seq<Seq<char>> = seq![];
    let mut i: usize = 0;
    proof {
        assert(slots_of(before.take(0), names) =~= Seq::<Slot>::empty());
        assert(labels_of(items@.take(0)) =~= Seq::<Option<char>>::empty());
    }
    while i < items.len()
        invariant
            name_of == asked,
            forall|x: &I| call_requires(name_of, (x,)),
            i <= items@.len() == before.len(),
            names.len() == i,
            forall|j: int| i <= j < before.len() ==> #[trigger] items@[j] == before[j],
            forall|j: int| 0 <= j < i ==> kept_entry(before[j], #[trigger] items@[j]),
            forall|j: int| 0 <= j < i ==> items@[j].shown() is None ==> #[trigger] items@[j]
                == before[j],
            forall|j: int|
                0 <= j < i && (#[trigger] before[j]).wants() && before[j].shown() is None
                    ==> name_from(name_of, before[j], names[j]),
            first_pass(slots_of(before.take(i as int), names)) == (
                labels_of(items@.take(i as int)),
                pool@,
            ),
        decreases before.len() - i,
    {
        let ghost earlier = items@;
        let ghost slots = slots_of(before.take(i as int), names);
        let ghost mut name: Seq<char> = seq![];
        if items[i].wants_label() && items[i].label().is_none() {
            let text = name_of(&items[i]);
            proof {
                name = text@;
                assert(name_from(name_of, before[i as int], name));
            }
            if let Some(first) = text::first_char(text) {
                let c: char = first.to_ascii_lowercase();
                let at: usize = text::find_char(&pool, c);
                proof {
                    text::lemma_first_at(pool@, c);
                }
                if at < pool.len() {
                    pool.remove(at);
                    items[i].set_label(c);
                }
            }
        }
        proof {
            let slot = slot_of(before[i as int], name);
            let next = names.push(name);
            assert(slots_of(before.take(i + 1), next) =~= slots.push(slot));
            assert(slots.push(slot).drop_last() =~= slots);
            assert(labels_of(items@.take(i + 1)) =~= labels_of(earlier.take(i as int)).push(
                items@[i as int].shown(),
            ));
            names = next;
        }
        i += 1;
    }
    let ghost slots = slots_of(before, names);
    let ghost middle = items@;
    let ghost labels = labels_of(middle);
    let ghost left = pool@;
    proof {
        assert(before.take(i as int) =~= before);
        assert(middle.take(i as int) =~= middle);
        assert(labels_of(middle.take(0)) =~= Seq::<Option<char>>::empty());
    }
    let mut k: usize = 0;
    while k < items.len()
        invariant
            k <= items@.len() == before.len() == middle.len(),
            slots == slots_of(before, names),
            labels == labels_of(middle),
            forall|j: int| k <= j < before.len() ==> #[trigger] items@[j] == middle[j],
            forall|j: int| 0 <= j < before.len() ==> kept_entry(before[j], #[trigger] items@[j]),
            forall|j: int| 0 <= j < before.len() ==> kept_entry(before[j], #[trigger] middle[j]),
            forall|j: int|
                0 <= j < before.len() ==> middle[j].shown() is None ==> #[trigger] middle[j]
                    == before[j],
            second_pass(slots.take(k as int), labels.take(k as int), left) == (
                labels_of(items@.take(k as int)),
                pool@,
            ),
        decreases before.len() - k,
    {
        let ghost earlier = items@;
        assert(items@[k as int] == middle[k as int]);
        if items[k].wants_label() && items[k].label().is_none() {
            if pool.len() > 0 {
                let c: char = pool.remove(0);
                assert(pool@ =~= second_pass(
                    slots.take(k as int),
                    labels.take(k as int),
                    left,
                ).1.drop_first());
                items[k].set_label(c);
            }
        }
        proof {
            assert(slots.take(k + 1).drop_last() =~= slots.take(k as int));
            assert(labels.take(k + 1).drop_last() =~= labels.take(k as int));
            assert(labels_of(items@.take(k + 1)) =~= labels_of(earlier.take(k as int)).push(
                items@[k as int].shown(),
            ));
        }
        k += 1;
    }
    proof {
        assert(slots.take(k as int) =~= slots);
        assert(labels.take(k as int) =~= labels);
        assert(items@.take(k as int) =~= items@);
        assert(names_from(name_of, before, names));
    }
}

proof fn lemma_removed(pool: Seq<char>, c: char)
    requires
        pool.no_duplicates(),
        pool.contains(c),
    ensures
        ({
            let rest = pool.remove(text::first_at(pool, c));
            &&& rest.no_duplicates()
            &&& forall|d: char| #[trigger] rest.contains(d) <==> pool.contains(d) && d != c
        }),
{
    text::lemma_first_at(pool, c);
    let at = text::first_at(pool, c);
    let k = choose|k: int| 0 <= k < pool.len() && pool[k] == c;
    assert(at < pool.len());
    let rest = pool.remove(at);
    assert forall|d: char| #[trigger] rest.contains(d) <==> pool.contains(d) && d != c by {
        if pool.contains(d) && d != c {
            let j = choose|j: int| 0 <= j < pool.len() && pool[j] == d;
            if j < at {
                assert(rest[j] == d);
            } else {
                assert(rest[j - 1] == d);
            }
        }
        if rest.contains(d) {
            let j = choose|j: int| 0 <= j < rest.len() && rest[j] == d;
            assert(rest[j] == if j < at {
                pool[j]
            } else {
                pool[j + 1]
            });
        }
    }
}

/// Entry `i` has been given the label `c` out of the pool.
pub open spec fn given(slots: Seq<Slot>, labels: Seq<Option<char>>, i: int, c: char) -> bool {
    0 <= i < slots.len() && slots[i].open() && labels[i] == Some(c)
}

/// Labels handed out of a pool and what is left of it: entries that want none
/// or have one keep what they have, no label is handed out twice, and every
/// label is either left or handed out.
pub open spec fn distributed(slots: Seq<Slot>, labels: Seq<Option<char>>, left: Seq<char>) -> bool {
    &&& labels.len() == slots.len()
    &&& left.no_duplicates()
    &&& forall|i: int|
        0 <= i < slots.len() && !slots[i].open() ==> #[trigger] labels[i] == slots[i].label
    &&& forall|c: char| #[trigger] left.contains(c) ==> label_char(c)
    &&& forall|i: int, c: char| #[trigger]
        given(slots, labels, i, c) ==> label_char(c) && !left.contains(c)
    &&& forall|i: int, j: int, c: char| #[trigger]
        given(slots, labels, i, c) && #[trigger] given(slots, labels, j, c) ==> i == j
    &&& forall|c: char|
        label_char(c) ==> #[trigger] left.contains(c) || exists|i: int| given(slots, labels, i, c)
}

proof fn lemma_first_pass(slots: Seq<Slot>)
    ensures
        distributed(slots, first_pass(slots).0, first_pass(slots).1),
    decreases slots.len(),
{
    let (labels, left) = first_pass(slots);
    if slots.len() == 0 {
        law_label_chars();
    } else {
        let front = slots.drop_last();
        let (had, pool) = first_pass(front);
        lemma_first_pass(front);
        let slot = slots.last();
        let n = front.len() as int;
        let hit = slot.letter() is Some && pool.contains(slot.letter()->0);
        if hit {
            lemma_removed(pool, slot.letter()->0);
        }
        assert forall|i: int, c: char| #[trigger] given(slots, labels, i, c) implies if i < n {
            given(front, had, i, c)
        } else {
            i == n && hit && slot.letter() == Some(c)
        } by {}
        assert forall|i: int, j: int, c: char| #[trigger]
            given(slots, labels, i, c) && #[trigger] given(slots, labels, j, c) implies i == j by {
            if i < n {
                assert(given(front, had, i, c));
            }
            if j < n {
                assert(given(front, had, j, c));
            }
        }
        assert forall|i: int, c: char| #[trigger] given(slots, labels, i, c) implies label_char(c)
            && !left.contains(c) by {
            if i < n {
                assert(given(front, had, i, c));
            }
        }
        assert forall|c: char| label_char(c) implies #[trigger] left.contains(c) || exists|i: int|
            given(slots, labels, i, c) by {
            if !left.contains(c) {
                if pool.contains(c) {
                    assert(given(slots, labels, n, c));
                } else {
                    let i = choose|i: int| given(front, had, i, c);
                    assert(given(slots, labels, i, c));
                }
            }
        }
        assert forall|i: int| 0 <= i < slots.len() && !slots[i].open() implies #[trigger] labels[i]
            == slots[i].label by {
            if i < n {
                assert(front[i] == slots[i]);
                assert(had[i] == labels[i]);
            }
        }
    }
}

/// Entry `i` has been given the label `c` in the second pass.
spec fn refilled(
    slots: Seq<Slot>,
    before: Seq<Option<char>>,
    after: Seq<Option<char>>,
    i: int,
    c: char,
) -> bool {
    0 <= i < slots.len() && slots[i].wants && before[i] is None && after[i] == Some(c)
}

proof fn lemma_second_pass(slots: Seq<Slot>, before: Seq<Option<char>>, pool: Seq<char>)
    requires
        before.len() == slots.len(),
        pool.no_duplicates(),
    ensures
        ({
            let (after, left) = second_pass(slots, before, pool);
            &&& after.len() == slots.len()
            &&& left.no_duplicates()
            &&& forall|i: int|
                0 <= i < slots.len() && (before[i] is Some || !slots[i].wants)
                    ==> #[trigger] after[i] == before[i]
            &&& forall|c: char| #[trigger] left.contains(c) ==> pool.contains(c)
            &&& forall|i: int, c: char| #[trigger]
                refilled(slots, before, after, i, c) ==> pool.contains(c) && !left.contains(c)
            &&& forall|i: int, j: int, c: char| #[trigger]
                refilled(slots, before, after, i, c) && #[trigger] refilled(
                    slots,
                    before,
                    after,
                    j,
                    c,
                ) ==> i == j
            &&& forall|c: char|
                pool.contains(c) ==> #[trigger] left.contains(c) || exists|i: int|
                    refilled(slots, before, after, i, c)
            &&& forall|i: int|
                0 <= i < slots.len() && slots[i].wants && #[trigger] after[i] is None
                    ==> left.len() == 0
        }),
    decreases slots.len(),
{
    let (after, left) = second_pass(slots, before, pool);
    if slots.len() > 0 {
        let front = slots.drop_last();
        let had = before.drop_last();
        let n = front.len() as int;
        lemma_second_pass(front, had, pool);
        let (got, rest) = second_pass(front, had, pool);
        let hit = slots.last().wants && before.last() is None && rest.len() > 0;
        if hit {
            assert forall|d: char| #[trigger] left.contains(d) <==> rest.contains(d) && d
                != rest[0] by {
                if rest.contains(d) && d != rest[0] {
                    let j = choose|j: int| 0 <= j < rest.len() && rest[j] == d;
                    assert(left[j - 1] == d);
                }
                if left.contains(d) {
                    let j = choose|j: int| 0 <= j < left.len() && left[j] == d;
                    assert(rest[j + 1] == d);
                }
            }
            assert(rest.contains(rest[0]));
        }
        assert forall|i: int, c: char| #[trigger]
            refilled(slots, before, after, i, c) implies if i < n {
            refilled(front, had, got, i, c)
        } else {
            i == n && hit && c == rest[0]
        } by {}
        assert forall|i: int, j: int, c: char| #[trigger]
            refilled(slots, before, after, i, c) && #[trigger] refilled(
                slots,
                before,
                after,
                j,
                c,
            ) implies i == j by {
            if i < n {
                assert(refilled(front, had, got, i, c));
            }
            if j < n {
                assert(refilled(front, had, got, j, c));
            }
        }
        assert forall|i: int, c: char| #[trigger]
            refilled(slots, before, after, i, c) implies pool.contains(c) && !left.contains(c) by {
            if i < n {
                assert(refilled(front, had, got, i, c));
            }
        }
        assert forall|c: char| pool.contains(c) implies #[trigger] left.contains(c) || exists|
            i: int,
        |
            refilled(slots, before, after, i, c) by {
            if !left.contains(c) {
                if rest.contains(c) {
                    assert(refilled(slots, before, after, n, c));
                } else {
                    let i = choose|i: int| refilled(front, had, got, i, c);
                    assert(refilled(slots, before, after, i, c));
                }
            }
        }
        assert forall|i: int|
            0 <= i < slots.len() && (before[i] is Some || !slots[i].wants) implies #[trigger] after[i]
            == before[i] by {
            if i < n {
                assert(front[i] == slots[i] && had[i] == before[i] && got[i] == after[i]);
            }
        }
        assert forall|i: int|
            0 <= i < slots.len() && slots[i].wants && #[trigger] after[i] is None implies left.len()
            == 0 by {
            if i < n {
                assert(front[i] == slots[i] && got[i] == after[i]);
            }
        }
    }
}

/// Entries that have a label or want none keep what they have. The labels
/// handed out are label characters, and none is handed out twice. An entry
/// that wants a label goes without one only where all of them are taken.
pub proof fn law_labels_are_distinct(slots: Seq<Slot>)
    ensures
        ({
            let labels = assigned(slots);
            &&& labels.len() == slots.len()
            &&& forall|i: int|
                0 <= i < slots.len() && !slots[i].open() ==> #[trigger] labels[i] == slots[i].label
            &&& forall|i: int, c: char| #[trigger] given(slots, labels, i, c) ==> label_char(c)
            &&& forall|i: int, j: int, c: char| #[trigger]
                given(slots, labels, i, c) && #[trigger] given(slots, labels, j, c) ==> i == j
            &&& forall|i: int, c: char|
                0 <= i < slots.len() && slots[i].open() && #[trigger] labels[i] is None
                    && #[trigger] label_char(c) ==> exists|j: int| given(slots, labels, j, c)
        }),
{
    let (mid, pool) = first_pass(slots);
    lemma_first_pass(slots);
    lemma_second_pass(slots, mid, pool);
    let (labels, left) = second_pass(slots, mid, pool);
    assert forall|i: int, c: char| #[trigger] given(slots, labels, i, c) implies given(
        slots,
        mid,
        i,
        c,
    ) || (refilled(slots, mid, labels, i, c) && mid[i] is None) by {
        if mid[i] is Some {
            assert(labels[i] == mid[i]);
        }
    }
    assert forall|i: int, c: char| #[trigger] given(slots, labels, i, c) implies label_char(c) by {
        if !given(slots, mid, i, c) {
            assert(refilled(slots, mid, labels, i, c));
            assert(pool.contains(c));
        }
    }
    assert forall|i: int, j: int, c: char| #[trigger]
        given(slots, labels, i, c) && #[trigger] given(slots, labels, j, c) implies i == j by {
        if given(slots, mid, i, c) {
            assert(!pool.contains(c));
            if !given(slots, mid, j, c) {
                assert(refilled(slots, mid, labels, j, c));
            }
        } else {
            assert(refilled(slots, mid, labels, i, c));
            assert(pool.contains(c));
            if given(slots, mid, j, c) {
                assert(!pool.contains(c));
            } else {
                assert(refilled(slots, mid, labels, j, c));
            }
        }
    }
    assert forall|i: int, c: char|
        0 <= i < slots.len() && slots[i].open() && #[trigger] labels[i] is None
            && #[trigger] label_char(c) implies exists|j: int| given(slots, labels, j, c) by {
        assert(left.len() == 0);
        assert(!left.contains(c));
        if pool.contains(c) {
            let j = choose|j: int| refilled(slots, mid, labels, j, c);
            if !slots[j].open() {
                assert(mid[j] == slots[j].label);
            }
            assert(given(slots, labels, j, c));
        } else {
            let j = choose|j: int| given(slots, mid, j, c);
            assert(labels[j] == mid[j]);
            assert(given(slots, labels, j, c));
        }
    }
    assert forall|i: int| 0 <= i < slots.len() && !slots[i].open() implies #[trigger] labels[i]
        == slots[i].label by {
        assert(mid[i] == slots[i].label);
    }
}

proof fn lemma_letter_free(slots: Seq<Slot>, c: char)
    requires
        label_char(c),
        forall|j: int| 0 <= j < slots.len() ==> (#[trigger] slots[j]).letter() != Some(c),
    ensures
        first_pass(slots).1.contains(c),
    decreases slots.len(),
{
    if slots.len() == 0 {
        law_label_chars();
    } else {
        let front = slots.drop_last();
        assert forall|j: int| 0 <= j < front.len() implies (#[trigger] front[j]).letter()
            != Some(c) by {
            assert(front[j] == slots[j]);
        }
        lemma_letter_free(front, c);
        let slot = slots.last();
        assert(slots[slots.len() - 1].letter() != Some(c));
        if slot.letter() is Some && first_pass(front).1.contains(slot.letter()->0) {
            lemma_first_pass(front);
            lemma_removed(first_pass(front).1, slot.letter()->0);
        }
    }
}

proof fn lemma_first_pass_prefix(slots: Seq<Slot>, n: int)
    requires
        0 <= n <= slots.len(),
    ensures
        first_pass(slots).0.len() == slots.len(),
        first_pass(slots.take(n)).0 == first_pass(slots).0.take(n),
    decreases slots.len(),
{
    lemma_first_pass(slots);
    if n == slots.len() {
        assert(slots.take(n) =~= slots);
        assert(first_pass(slots).0.take(n) =~= first_pass(slots).0);
    } else {
        lemma_first_pass_prefix(slots.drop_last(), n);
        assert(slots.drop_last().take(n) =~= slots.take(n));
        assert(first_pass(slots).0.take(n) =~= first_pass(slots.drop_last()).0.take(n));
    }
}

/// An entry that is to be labelled gets its own first letter, if that is a
/// label character and no entry before it asks for the same letter.
pub proof fn law_first_letter_is_taken(slots: Seq<Slot>, i: int)
    requires
        0 <= i < slots.len(),
        slots[i].letter() is Some,
        label_char(slots[i].letter()->0),
        forall|j: int| 0 <= j < i ==> (#[trigger] slots[j]).letter() != slots[i].letter(),
    ensures
        assigned(slots)[i] == slots[i].letter(),
{
    let c = slots[i].letter()->0;
    let front = slots.take(i);
    assert forall|j: int| 0 <= j < front.len() implies (#[trigger] front[j]).letter() != Some(
        c,
    ) by {
        assert(front[j] == slots[j]);
    }
    lemma_letter_free(front, c);
    let upto = slots.take(i + 1);
    assert(upto.drop_last() =~= front);
    lemma_first_pass(front);
    assert(first_pass(upto).0[i] == Some(c));
    lemma_first_pass_prefix(slots, i + 1);
    let (mid, pool) = first_pass(slots);
    assert(mid.take(i + 1)[i] == mid[i]);
    lemma_first_pass(slots);
    lemma_second_pass(slots, mid, pool);
}

/// How many entries are to be labelled.
pub open spec fn open_count(slots: Seq<Slot>) -> nat
    decreases slots.len(),
{
    if slots.len() == 0 {
        0
    } else {
        open_count(slots.drop_last()) + if slots.last().open() {
            1nat
        } else {
            0
        }
    }
}

/// The entries with other labels.
pub open spec fn relabelled(slots: Seq<Slot>, labels: Seq<Option<char>>) -> Seq<Slot> {
    Seq::new(slots.len(), |i: int| Slot { label: labels[i], ..slots[i] })
}

/// After the first pass there are labels left for those that still lack one,
/// if there were enough for all.
proof fn lemma_first_pass_count(slots: Seq<Slot>)
    ensures
        ({
            let (labels, pool) = first_pass(slots);
            &&& labels.len() == slots.len()
            &&& pool.len() + open_count(slots) == label_chars().len() + open_count(
                relabelled(slots, labels),
            )
        }),
    decreases slots.len(),
{
    let (labels, pool) = first_pass(slots);
    if slots.len() == 0 {
        assert(relabelled(slots, labels) =~= Seq::<Slot>::empty());
    } else {
        let front = slots.drop_last();
        let (had, rest) = first_pass(front);
        lemma_first_pass_count(front);
        assert(relabelled(slots, labels).drop_last() =~= relabelled(front, had));
        let slot = slots.last();
        assert(relabelled(slots, labels).last() == (Slot { label: labels.last(), ..slot }));
        if slot.letter() is Some && rest.contains(slot.letter()->0) {
            text::lemma_first_at(rest, slot.letter()->0);
        }
    }
}

proof fn lemma_second_pass_fills(slots: Seq<Slot>, labels: Seq<Option<char>>, pool: Seq<char>)
    requires
        labels.len() == slots.len(),
        open_count(relabelled(slots, labels)) <= pool.len(),
    ensures
        ({
            let (after, left) = second_pass(slots, labels, pool);
            &&& after.len() == slots.len()
            &&& left.len() + open_count(relabelled(slots, labels)) == pool.len()
            &&& forall|i: int|
                0 <= i < slots.len() && slots[i].wants ==> (#[trigger] after[i]) is Some
        }),
    decreases slots.len(),
{
    if slots.len() == 0 {
        assert(relabelled(slots, labels) =~= Seq::<Slot>::empty());
    } else {
        let front = slots.drop_last();
        let had = labels.drop_last();
        assert(relabelled(slots, labels).drop_last() =~= relabelled(front, had));
        assert(relabelled(slots, labels).last() == (Slot { label: labels.last(), ..slots.last() }));
        lemma_second_pass_fills(front, had, pool);
        let (after, left) = second_pass(slots, labels, pool);
        let (got, rest) = second_pass(front, had, pool);
        assert forall|i: int| 0 <= i < slots.len() && slots[i].wants implies (#[trigger] after[i])
            is Some by {
            if i < front.len() {
                assert(front[i] == slots[i] && got[i] == after[i]);
            }
        }
    }
}

/// Labels are handed out once: where there are enough for all entries that want
/// one, handing them out again changes nothing.
pub proof fn law_labels_stay(slots: Seq<Slot>)
    requires
        open_count(slots) <= label_chars().len(),
    ensures
        assigned(relabelled(slots, assigned(slots))) == assigned(slots),
{
    let (mid, pool) = first_pass(slots);
    let labels = assigned(slots);
    lemma_first_pass_count(slots);
    lemma_second_pass_fills(slots, mid, pool);
    let again = relabelled(slots, labels);
    law_labels_are_distinct(again);
    let second = assigned(again);
    assert forall|i: int| 0 <= i < slots.len() implies second[i] == labels[i] by {
        assert(slots[i].wants ==> labels[i] is Some);
        assert(!again[i].open());
    }
    assert(second =~= labels);
}

/// The characters that label entries: the lower-case letters and the digits but
/// for `a`, `c`, `d`, `e`, `l` and `v`.
pub proof fn law_which_characters_are_labels(c: char)
    ensures
        label_chars().contains(c) <==> ({
            let letter = 97 <= c as u32 <= 122;
            let digit = 48 <= c as u32 <= 57;
            &&& letter || digit
            &&& c != 'a' && c != 'c' && c != 'd' && c != 'e' && c != 'l' && c != 'v'
        }),
        label_char(c) == label_chars().contains(c),
{
    law_label_chars();
}

/// The extensions of images and of text files: these words, whatever the case
/// of their letters, and no others.
pub proof fn law_which_extensions_are_known(ext: Seq<char>)
    ensures
        image_ext(ext) <==> seq![
            "png"@,
            "jpg"@,
            "jpeg"@,
            "gif"@,
            "bmp"@,
            "webp"@,
            "svg"@,
            "tif"@,
            "tiff"@,
        ].contains(text::ascii_lower_all(ext)),
        text_ext(ext) <==> seq![
            "txt"@,
            "md"@,
            "rs"@,
            "toml"@,
            "json"@,
            "css"@,
            "sh"@,
            "conf"@,
            "cfg"@,
            "ini"@,
            "js"@,
            "py"@,
            "c"@,
            "h"@,
            "cpp"@,
            "html"@,
        ].contains(text::ascii_lower_all(ext)),
{
    let images = seq![
        "png"@,
        "jpg"@,
        "jpeg"@,
        "gif"@,
        "bmp"@,
        "webp"@,
        "svg"@,
        "tif"@,
        "tiff"@,
    ];
    let texts = seq![
        "txt"@,
        "md"@,
        "rs"@,
        "toml"@,
        "json"@,
        "css"@,
        "sh"@,
        "conf"@,
        "cfg"@,
        "ini"@,
        "js"@,
        "py"@,
        "c"@,
        "h"@,
        "cpp"@,
        "html"@,
    ];
    assert(images[0] == "png"@ && images[1] == "jpg"@ && images[2] == "jpeg"@ && images[3]
        == "gif"@ && images[4] == "bmp"@ && images[5] == "webp"@ && images[6] == "svg"@ && images[7]
        == "tif"@ && images[8] == "tiff"@);
    assert(texts[0] == "txt"@ && texts[1] == "md"@ && texts[2] == "rs"@ && texts[3] == "toml"@
        && texts[4] == "json"@ && texts[5] == "css"@ && texts[6] == "sh"@ && texts[7] == "conf"@
        && texts[8] == "cfg"@ && texts[9] == "ini"@ && texts[10] == "js"@ && texts[11] == "py"@
        && texts[12] == "c"@ && texts[13] == "h"@ && texts[14] == "cpp"@ && texts[15] == "html"@);
}

/// A mode is that of an executable where its owner, its group or everyone may
/// execute it; no other bit counts.
pub proof fn law_any_execute_bit_counts(mode: u32, other: u32)
    ensures
        executable(mode) <==> mode & 0o100 != 0 || mode & 0o010 != 0 || mode & 0o001 != 0,
        executable(mode | (other & !0o111u32)) == executable(mode),
{
    assert((mode & 0o111 != 0) <==> (mode & 0o100 != 0 || mode & 0o010 != 0 || mode & 0o001 != 0))
        by (bit_vector);
    assert(((mode | (other & !0o111u32)) & 0o111 != 0) == (mode & 0o111 != 0)) by (bit_vector);
}

/// The style of an entry. A directory is one whatever its name and mode, and so
/// is any other symlink. Of the others, a name with `README` in it, in any case,
/// comes first, then the extension of an image, then an execute bit, then the
/// extension of a text file; what is left is unmatched.
pub proof fn law_style_of_a_name(name: Seq<char>, is_symlink: bool, mode: u32)
    ensures
        style_of(name, true, is_symlink, mode) == "dir"@,
        style_of(name, false, true, mode) == "symlink"@,
        ({
            let style = style_of(name, false, false, mode);
            let ext = paths::extension(name);
            let readme = text::has_part(text::ascii_upper_all(name), "README"@);
            let image = ext is Some && image_ext(ext->0);
            let text = ext is Some && text_ext(ext->0);
            let runs = mode & 0o111 != 0;
            &&& readme ==> style == "readme"@
            &&& !readme && image ==> style == "image"@
            &&& !readme && !image && runs ==> style == "exe"@
            &&& !readme && !image && !runs && text ==> style == "text"@
            &&& !readme && !image && !runs && !text ==> style == "unmatched"@
        }),
{
    reveal_strlit("image");
    reveal_strlit("text");
    reveal_strlit("unmatched");
    assert("image"@.len() != "text"@.len());
    assert("image"@.len() != "unmatched"@.len());
}

/// Directories, symlinks, executables and unmatched entries are to be labelled
/// whatever their names; any other entry is if its extension is that of an
/// image or of a text file.
pub proof fn law_what_is_to_be_labelled(style: Seq<char>, name: Seq<char>)
    ensures
        style == "dir"@ || style == "symlink"@ || style == "exe"@ || style == "unmatched"@
            ==> labelable(style, name),
        !(style == "dir"@ || style == "symlink"@ || style == "exe"@ || style == "unmatched"@) ==> (
        labelable(style, name) <==> paths::extension(name) is Some && (image_ext(
            paths::extension(name)->0,
        ) || text_ext(paths::extension(name)->0))),
{
}

/// An entry that wants a label and has none gets the first letter of its name,
/// in lower case, if that is a label and no entry before it that is to be
/// labelled begins with the same letter.
pub proof fn law_entry_gets_its_first_letter(slots: Seq<Slot>, i: int)
    requires
        0 <= i < slots.len(),
        slots[i].wants,
        slots[i].label is None,
        slots[i].name.len() > 0,
        label_chars().contains(text::ascii_lower(slots[i].name[0])),
        forall|j: int|
            0 <= j < i && (#[trigger] slots[j]).wants && slots[j].label is None
                && slots[j].name.len() > 0 ==> text::ascii_lower(slots[j].name[0])
                != text::ascii_lower(slots[i].name[0]),
    ensures
        assigned(slots)[i] == Some(text::ascii_lower(slots[i].name[0])),
{
    law_label_chars();
    law_first_letter_is_taken(slots, i);
}

proof fn lemma_open_count_bound(slots: Seq<Slot>)
    ensures
        open_count(slots) <= slots.len(),
    decreases slots.len(),
{
    if slots.len() > 0 {
        lemma_open_count_bound(slots.drop_last());
    }
}

/// Of at most thirty entries every one that wants a label has one afterwards;
/// one that wants none, or has one, keeps what it has.
pub proof fn law_few_entries_are_all_labelled(slots: Seq<Slot>, i: int)
    requires
        slots.len() <= 30,
        0 <= i < slots.len(),
    ensures
        assigned(slots).len() == slots.len(),
        slots[i].wants ==> assigned(slots)[i] is Some,
        !slots[i].wants || slots[i].label is Some ==> assigned(slots)[i] == slots[i].label,
{
    law_label_chars();
    lemma_open_count_bound(slots);
    let (mid, pool) = first_pass(slots);
    lemma_first_pass_count(slots);
    lemma_second_pass_fills(slots, mid, pool);
    law_labels_are_distinct(slots);
    assert(slots[i].wants ==> assigned(slots)[i] is Some);
    if !slots[i].open() {
        assert(assigned(slots)[i] == slots[i].label);
    }
}

spec fn ascending(pool: Seq<char>) -> bool {
    forall|a: int, b: int| 0 <= a < b < pool.len() ==> #[trigger] pool[a] < #[trigger] pool[b]
}

proof fn lemma_first_pass_letters(slots: Seq<Slot>)
    ensures
        ascending(first_pass(slots).1),
        first_pass(slots).0.len() == slots.len(),
        forall|i: int, c: char| #[trigger]
            given(slots, first_pass(slots).0, i, c) ==> slots[i].letter() == Some(c),
    decreases slots.len(),
{
    if slots.len() == 0 {
        law_label_chars();
    } else {
        let front = slots.drop_last();
        let (had, rest) = first_pass(front);
        let (labels, pool) = first_pass(slots);
        lemma_first_pass_letters(front);
        let slot = slots.last();
        if slot.letter() is Some && rest.contains(slot.letter()->0) {
            text::lemma_first_at(rest, slot.letter()->0);
            let at = text::first_at(rest, slot.letter()->0);
            let k = choose|k: int| 0 <= k < rest.len() && rest[k] == slot.letter()->0;
            assert(at < rest.len());
            assert forall|a: int, b: int| 0 <= a < b < pool.len() implies #[trigger] pool[a]
                < #[trigger] pool[b] by {
                let a2 = if a < at {
                    a
                } else {
                    a + 1
                };
                let b2 = if b < at {
                    b
                } else {
                    b + 1
                };
                assert(pool[a] == rest[a2] && pool[b] == rest[b2]);
            }
        }
        assert forall|i: int, c: char| #[trigger]
            given(slots, labels, i, c) implies slots[i].letter() == Some(c) by {
            if i < front.len() {
                assert(given(front, had, i, c));
            }
        }
    }
}

/// Some entry has been given the label `c` in the second pass.
spec fn handed_out(
    slots: Seq<Slot>,
    before: Seq<Option<char>>,
    after: Seq<Option<char>>,
    c: char,
) -> bool {
    exists|k: int| refilled(slots, before, after, k, c)
}

proof fn lemma_second_pass_in_turn(slots: Seq<Slot>, before: Seq<Option<char>>, pool: Seq<char>)
    requires
        before.len() == slots.len(),
    ensures
        ({
            let (after, left) = second_pass(slots, before, pool);
            let taken = pool.len() - left.len();
            &&& after.len() == slots.len()
            &&& 0 <= taken
            &&& left == pool.skip(taken)
            &&& forall|x: int|
                0 <= x < taken ==> handed_out(slots, before, after, #[trigger] pool[x])
            &&& forall|i: int, c: char| #[trigger]
                refilled(slots, before, after, i, c) ==> exists|m: int|
                    0 <= m < taken && #[trigger] pool[m] == c
        }),
    decreases slots.len(),
{
    let (after, left) = second_pass(slots, before, pool);
    if slots.len() == 0 {
        assert(pool.skip(0) =~= pool);
    } else {
        let front = slots.drop_last();
        let had = before.drop_last();
        lemma_second_pass_in_turn(front, had, pool);
        let (got, rest) = second_pass(front, had, pool);
        let n = front.len() as int;
        let done = pool.len() - rest.len();
        let hit = slots.last().wants && before.last() is None && rest.len() > 0;
        if hit {
            assert(rest[0] == pool[done]);
            assert(left =~= pool.skip(done + 1));
        }
        let taken = pool.len() - left.len();
        assert forall|x: int| 0 <= x < taken implies handed_out(
            slots,
            before,
            after,
            #[trigger] pool[x],
        ) by {
            if x < done {
                assert(handed_out(front, had, got, pool[x]));
                let k = choose|k: int| refilled(front, had, got, k, pool[x]);
                assert(refilled(slots, before, after, k, pool[x]));
            } else {
                assert(refilled(slots, before, after, n, pool[x]));
            }
        }
        assert forall|i: int, c: char| #[trigger] refilled(slots, before, after, i, c) implies exists|
            m: int,
        |
            0 <= m < taken && #[trigger] pool[m] == c by {
            if i < n {
                assert(refilled(front, had, got, i, c));
                let m = choose|m: int| 0 <= m < done && #[trigger] pool[m] == c;
                assert(pool[m] == c && m < taken);
            } else {
                assert(pool[done] == c);
            }
        }
    }
}

/// An entry that gets another label than its first letter gets the lowest one
/// that is left: all lower ones are with other entries.
pub proof fn law_lowest_label_is_taken(slots: Seq<Slot>, i: int, d: char)
    requires
        0 <= i < slots.len(),
        slots[i].wants,
        slots[i].label is None,
        assigned(slots)[i] is Some,
        slots[i].name.len() == 0 || assigned(slots)[i] != Some(text::ascii_lower(slots[i].name[0])),
        label_chars().contains(d),
        d < assigned(slots)[i]->0,
    ensures
        exists|k: int|
            0 <= k < slots.len() && k != i && slots[k].wants && slots[k].label is None
                && #[trigger] assigned(slots)[k] == Some(d),
{
    let (mid, pool) = first_pass(slots);
    let labels = assigned(slots);
    let c = labels[i]->0;
    law_label_chars();
    lemma_first_pass(slots);
    lemma_first_pass_letters(slots);
    lemma_second_pass(slots, mid, pool);
    lemma_second_pass_in_turn(slots, mid, pool);
    let (after, left) = second_pass(slots, mid, pool);
    assert(labels == after);
    let taken = pool.len() - left.len();
    if mid[i] is Some {
        assert(labels[i] == mid[i]);
        assert(given(slots, mid, i, c));
    }
    assert(refilled(slots, mid, after, i, c));
    let m = choose|m: int| 0 <= m < taken && #[trigger] pool[m] == c;
    if pool.contains(d) {
        let y = choose|y: int| 0 <= y < pool.len() && pool[y] == d;
        if y > m {
            assert(pool[m] < pool[y]);
        }
        assert(y < m);
        assert(handed_out(slots, mid, after, pool[y]));
        let k = choose|k: int| refilled(slots, mid, after, k, pool[y]);
        assert(labels[k] == Some(d));
        if !slots[k].open() {
            assert(mid[k] == slots[k].label);
        }
    } else {
        assert(label_char(d));
        assert(pool.contains(d) || exists|k: int| given(slots, mid, k, d));
        let k = choose|k: int| given(slots, mid, k, d);
        assert(after[k] == mid[k]);
        assert(labels[k] == Some(d));
    }
}

/// The labels of a pool go to the entries that still lack one in their order:
/// of two that get another label than their first letter, the earlier one gets
/// the lower label.
pub proof fn law_later_entries_get_higher_labels(slots: Seq<Slot>, i: int, j: int)
    requires
        0 <= i < j < slots.len(),
        slots[i].wants && slots[i].label is None,
        slots[j].wants && slots[j].label is None,
        slots[i].name.len() == 0 || assigned(slots)[i] != Some(text::ascii_lower(slots[i].name[0])),
        slots[j].name.len() == 0 || assigned(slots)[j] != Some(text::ascii_lower(slots[j].name[0])),
        assigned(slots)[j] is Some,
    ensures
        assigned(slots)[i] is Some,
        assigned(slots)[i]->0 < assigned(slots)[j]->0,
{
    let (mid, pool) = first_pass(slots);
    lemma_first_pass(slots);
    lemma_first_pass_letters(slots);
    lemma_second_pass(slots, mid, pool);
    if mid[i] is Some {
        assert(given(slots, mid, i, mid[i]->0));
        assert(assigned(slots)[i] == mid[i]);
    }
    if mid[j] is Some {
        assert(given(slots, mid, j, mid[j]->0));
        assert(assigned(slots)[j] == mid[j]);
    }
    lemma_second_pass_rises(slots, mid, pool, i, j);
}

proof fn lemma_second_pass_rises(
    slots: Seq<Slot>,
    before: Seq<Option<char>>,
    pool: Seq<char>,
    i: int,
    j: int,
)
    requires
        before.len() == slots.len(),
        ascending(pool),
        0 <= i < j < slots.len(),
        slots[i].wants && before[i] is None,
        slots[j].wants && before[j] is None,
        second_pass(slots, before, pool).0[j] is Some,
    ensures
        second_pass(slots, before, pool).0[i] is Some,
        second_pass(slots, before, pool).0[i]->0 < second_pass(slots, before, pool).0[j]->0,
    decreases slots.len(),
{
    let front = slots.drop_last();
    let had = before.drop_last();
    lemma_second_pass_in_turn(front, had, pool);
    let (got, rest) = second_pass(front, had, pool);
    let (after, left) = second_pass(slots, before, pool);
    assert(front[i] == slots[i] && had[i] == before[i] && got[i] == after[i]);
    if j < front.len() {
        assert(front[j] == slots[j] && had[j] == before[j] && got[j] == after[j]);
        lemma_second_pass_rises(front, had, pool, i, j);
    } else {
        let done = pool.len() - rest.len();
        assert(after[j] == Some(rest[0]));
        assert(rest[0] == pool[done]);
        if got[i] is None {
            lemma_second_pass_none(front, had, pool, i);
        }
        let c = got[i]->0;
        assert(refilled(front, had, got, i, c));
        let m = choose|m: int| 0 <= m < done && #[trigger] pool[m] == c;
        assert(pool[m] < pool[done]);
    }
}

/// An entry goes without a label only where none is left.
proof fn lemma_second_pass_none(
    slots: Seq<Slot>,
    before: Seq<Option<char>>,
    pool: Seq<char>,
    i: int,
)
    requires
        before.len() == slots.len(),
        0 <= i < slots.len(),
        slots[i].wants,
        second_pass(slots, before, pool).0[i] is None,
    ensures
        second_pass(slots, before, pool).1.len() == 0,
    decreases slots.len(),
{
    let front = slots.drop_last();
    let had = before.drop_last();
    lemma_second_pass_in_turn(front, had, pool);
    let (got, rest) = second_pass(front, had, pool);
    if i < front.len() {
        assert(front[i] == slots[i] && got[i] == second_pass(slots, before, pool).0[i]);
        lemma_second_pass_none(front, had, pool, i);
    }
}

/// Where at most thirty entries are to be labelled, each of them gets a label.
pub proof fn law_enough_labels_for_thirty(slots: Seq<Slot>, i: int)
    requires
        open_count(slots) <= 30,
        0 <= i < slots.len(),
        slots[i].wants,
    ensures
        assigned(slots)[i] is Some,
{
    law_label_chars();
    let (mid, pool) = first_pass(slots);
    lemma_first_pass_count(slots);
    lemma_second_pass_fills(slots, mid, pool);
}

/// An entry in front that is not to be labelled does not count; the others
/// count one each at most.
pub proof fn lemma_open_count_behind(first: Slot, rest: Seq<Slot>)
    requires
        !first.open(),
    ensures
        open_count(seq![first] + rest) <= rest.len(),
    decreases rest.len(),
{
    let all = seq![first] + rest;
    if rest.len() == 0 {
        assert(all.drop_last() =~= Seq::<Slot>::empty());
        assert(open_count(all.drop_last()) == 0);
        assert(all.last() == first);
    } else {
        assert(all.drop_last() =~= seq![first] + rest.drop_last());
        lemma_open_count_behind(first, rest.drop_last());
    }
}

/// Asked of an entry whose style is that of a directory, a symlink, an
/// executable or of nothing known, whatever its name, the answer is that it is
/// to be labelled; an extension decides about any other.
pub proof fn law_should_have_label_of_every_name(style: &str, name: &str, r: bool)
    requires
        call_ensures(should_have_label, (style, name), r),
    ensures
        style@ == "dir"@ || style@ == "symlink"@ || style@ == "exe"@ || style@ == "unmatched"@ ==> r,
        paths::extension(name@) is None && !(style@ == "dir"@ || style@ == "symlink"@ || style@
            == "exe"@ || style@ == "unmatched"@) ==> !r,
        paths::extension(name@) is Some && (image_ext(paths::extension(name@)->0) || text_ext(
            paths::extension(name@)->0,
        )) ==> r,
{
    law_what_is_to_be_labelled(style@, name@);
}

/// The style that is given to an entry, by what it is: a directory, a symlink,
/// or a file with this name and mode.
pub proof fn law_style_that_is_given(
    name: &str,
    is_dir: bool,
    is_symlink: bool,
    mode: u32,
    r: &'static str,
)
    requires
        call_ensures(classify, (name, is_dir, is_symlink, mode), r),
    ensures
        is_dir ==> r@ == "dir"@,
        !is_dir && is_symlink ==> r@ == "symlink"@,
        !is_dir && !is_symlink ==> ({
            let ext = paths::extension(name@);
            let readme = text::has_part(text::ascii_upper_all(name@), "README"@);
            let image = ext is Some && image_ext(ext->0);
            let text = ext is Some && text_ext(ext->0);
            let runs = mode & 0o111 != 0;
            &&& readme ==> r@ == "readme"@
            &&& !readme && image ==> r@ == "image"@
            &&& !readme && !image && runs ==> r@ == "exe"@
            &&& !readme && !image && !runs && text ==> r@ == "text"@
            &&& !readme && !image && !runs && !text ==> r@ == "unmatched"@
        }),
{
    law_style_of_a_name(name@, is_symlink, mode);
}

/// The two kinds of extension, as they are told apart, and the pool of labels,
/// as it is given.
pub proof fn law_extensions_and_labels_that_are_given(
    ext: &str,
    image: bool,
    text: bool,
    pool: Vec<char>,
    i: int,
    j: int,
)
    requires
        call_ensures(is_image_ext, (ext,), image),
        call_ensures(is_text_ext, (ext,), text),
        call_ensures(label_pool, (), pool),
        0 <= i < j < pool@.len(),
    ensures
        image == image_ext(ext@),
        text == text_ext(ext@),
        !(image && text),
        pool@.len() == 30,
        pool@[i] < pool@[j],
        label_char(pool@[i]) && label_char(pool@[j]),
{
    law_label_chars();
    law_extensions_ignore_case(ext@);
    assert(label_chars().contains(pool@[i]));
    assert(label_chars().contains(pool@[j]));
}

} // verus!
