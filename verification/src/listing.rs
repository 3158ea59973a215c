//! The directory listing: which entries are shown, with which styles, in what
//! order.

use crate::classify;
use crate::config;
use crate::config::IgnoreRegex;
use crate::text;
use vstd::prelude::*;

verus! {

/// A directory entry as it was found. There is no type or no mode where the
/// file system does not tell it.
pub struct Found {
    pub name: String,
    pub file_type: Option<FileType>,
    pub mode: Option<u32>,
}

/// What kind of file an entry is, symlinks not followed.
#[derive(Clone, Copy)]
pub struct FileType {
    pub is_dir: bool,
    pub is_symlink: bool,
}

/// A [`Found`] entry in a contract.
pub struct FoundView {
    pub name: Seq<char>,
    pub file_type: Option<FileType>,
    pub mode: Option<u32>,
}

impl View for Found {
    type V = FoundView;

    open spec fn view(&self) -> FoundView {
        FoundView { name: self.name@, file_type: self.file_type, mode: self.mode }
    }
}

/// An entry of the listing.
pub struct Listed {
    pub name: String,
    pub style: &'static str,
}

/// A [`Listed`] entry in a contract.
pub struct ListedView {
    pub name: Seq<char>,
    pub style: Seq<char>,
}

impl View for Listed {
    type V = ListedView;

    open spec fn view(&self) -> ListedView {
        ListedView { name: self.name@, style: self.style@ }
    }
}

pub open spec fn found_views(found: Seq<Found>) -> Seq<FoundView> {
    found.map_values(|e: Found| e@)
}

pub open spec fn listed_views(listed: Seq<Listed>) -> Seq<ListedView> {
    listed.map_values(|e: Listed| e@)
}

/// Names that begin with a dot and names that the pattern matches are hidden.
pub open spec fn hidden(name: Seq<char>, ignore: Option<Seq<char>>) -> bool {
    ||| name.len() > 0 && name[0] == '.'
    ||| ignore is Some && config::regex_match(ignore->0, name)
}

/// An entry with its style: `unmatched` where its type is not known, and
/// without execute bits where its mode is not.
pub open spec fn styled(e: FoundView) -> ListedView {
    ListedView {
        name: e.name,
        style: match e.file_type {
            Some(ft) => classify::style_of(
                e.name,
                ft.is_dir,
                ft.is_symlink,
                match e.mode {
                    Some(mode) => mode,
                    None => 0,
                },
            ),
            None => "unmatched"@,
        },
    }
}

/// The entries that are not hidden, in the order in which they were found.
pub open spec fn visible(found: Seq<FoundView>, ignore: Option<Seq<char>>) -> Seq<ListedView>
    decreases found.len(),
{
    if found.len() == 0 {
        seq![]
    } else {
        let front = visible(found.drop_last(), ignore);
        if hidden(found.last().name, ignore) {
            front
        } else {
            front.push(styled(found.last()))
        }
    }
}

/// Directories and symlinks come first.
pub open spec fn comes_first(style: Seq<char>) -> bool {
    style == "dir"@ || style == "symlink"@
}

/// `a` stands before `b`: directories and symlinks first, then by name.
pub open spec fn before(a: ListedView, b: ListedView) -> bool {
    if comes_first(a.style) == comes_first(b.style) {
        text::lex_before(a.name, b.name)
    } else {
        comes_first(a.style)
    }
}

/// `x` put into `s` behind everything that it does not stand before.
pub open spec fn place(s: Seq<ListedView>, x: ListedView) -> Seq<ListedView>
    decreases s.len(),
{
    if s.len() > 0 && before(x, s.last()) {
        place(s.drop_last(), x).push(s.last())
    } else {
        s.push(x)
    }
}

/// The entries in their order; among equals, in the order of `s`.
pub open spec fn arranged(s: Seq<ListedView>) -> Seq<ListedView>
    decreases s.len(),
{
    if s.len() == 0 {
        seq![]
    } else {
        place(arranged(s.drop_last()), s.last())
    }
}

/// Nothing stands behind something that it should stand before.
pub open spec fn in_order(s: Seq<ListedView>) -> bool {
    forall|i: int, j: int| 0 <= i < j < s.len() ==> !before(#[trigger] s[j], #[trigger] s[i])
}

proof fn lemma_lex_total(a: Seq<char>, b: Seq<char>)
    ensures
        a == b || text::lex_before(a, b) || text::lex_before(b, a),
        !(text::lex_before(a, b) && text::lex_before(b, a)),
        !text::lex_before(a, a),
    decreases a.len(),
{
    if a.len() == 0 {
        if b.len() == 0 {
            assert(a =~= b);
        }
    } else if b.len() > 0 {
        lemma_lex_total(a.drop_first(), b.drop_first());
        if a[0] == b[0] && a.drop_first() == b.drop_first() {
            assert(a =~= seq![a[0]] + a.drop_first());
            assert(b =~= seq![b[0]] + b.drop_first());
        }
        lemma_char_order(a[0], b[0]);
    }
    if a.len() > 0 && b.len() == 0 {
        lemma_lex_total(a.drop_first(), b);
    }
}

proof fn lemma_char_order(a: char, b: char)
    ensures
        a == b || (a as u32) < (b as u32) || (b as u32) < (a as u32),
{
}

proof fn lemma_lex_trans(a: Seq<char>, b: Seq<char>, c: Seq<char>)
    requires
        text::lex_before(a, b),
        text::lex_before(b, c),
    ensures
        text::lex_before(a, c),
    decreases a.len(),
{
    if a.len() > 0 && b.len() > 0 && c.len() > 0 {
        if a[0] == b[0] && b[0] == c[0] {
            lemma_lex_trans(a.drop_first(), b.drop_first(), c.drop_first());
        }
    }
}

/// What stands before `y` stands before anything that `y` is not behind.
proof fn lemma_before_carries(x: ListedView, y: ListedView, z: ListedView)
    requires
        before(x, y),
        !before(z, y),
    ensures
        before(x, z),
{
    lemma_lex_total(y.name, z.name);
    if y.name != z.name && text::lex_before(y.name, z.name) && text::lex_before(x.name, y.name) {
        lemma_lex_trans(x.name, y.name, z.name);
    }
}

proof fn lemma_before_asymmetric(x: ListedView, y: ListedView)
    ensures
        !(before(x, y) && before(y, x)),
{
    lemma_lex_total(x.name, y.name);
}

/// Everything before `i` lets `x` pass, and nothing from `i` on does.
spec fn splits(s: Seq<ListedView>, x: ListedView, i: int) -> bool {
    &&& 0 <= i <= s.len()
    &&& forall|j: int| 0 <= j < i ==> !before(x, #[trigger] s[j])
    &&& forall|j: int| i <= j < s.len() ==> before(x, #[trigger] s[j])
}

proof fn lemma_place_at(s: Seq<ListedView>, x: ListedView, i: int)
    requires
        splits(s, x, i),
    ensures
        place(s, x) == s.insert(i, x),
    decreases s.len(),
{
    if i == s.len() {
        assert(s.insert(i, x) =~= s.push(x));
    } else {
        let front = s.drop_last();
        assert(before(x, s[s.len() - 1]));
        assert forall|j: int| 0 <= j < i implies !before(x, #[trigger] front[j]) by {
            assert(front[j] == s[j]);
        }
        assert forall|j: int| i <= j < front.len() implies before(x, #[trigger] front[j]) by {
            assert(front[j] == s[j]);
        }
        lemma_place_at(front, x, i);
        assert(front.insert(i, x).push(s.last()) =~= s.insert(i, x));
    }
}

proof fn lemma_split_exists(s: Seq<ListedView>, x: ListedView) -> (i: int)
    requires
        in_order(s),
    ensures
        splits(s, x, i),
    decreases s.len(),
{
    if s.len() == 0 || !before(x, s.last()) {
        let n = s.len() as int;
        assert forall|j: int| 0 <= j < n implies !before(x, #[trigger] s[j]) by {
            if before(x, s[j]) && j < n - 1 {
                assert(!before(s[n - 1], s[j]));
                lemma_before_carries(x, s[j], s[n - 1]);
            }
        }
        n
    } else {
        let front = s.drop_last();
        assert forall|i: int, j: int| 0 <= i < j < front.len() implies !before(
            #[trigger] front[j],
            #[trigger] front[i],
        ) by {
            assert(front[j] == s[j] && front[i] == s[i]);
        }
        let i = lemma_split_exists(front, x);
        assert forall|j: int| i <= j < s.len() implies before(x, #[trigger] s[j]) by {
            if j < front.len() {
                assert(front[j] == s[j]);
            }
        }
        assert forall|j: int| 0 <= j < i implies !before(x, #[trigger] s[j]) by {
            assert(front[j] == s[j]);
        }
        i
    }
}

proof fn lemma_insert_keeps_order(s: Seq<ListedView>, x: ListedView, i: int)
    requires
        in_order(s),
        splits(s, x, i),
    ensures
        in_order(s.insert(i, x)),
{
    let t = s.insert(i, x);
    assert forall|a: int, b: int| 0 <= a < b < t.len() implies !before(
        #[trigger] t[b],
        #[trigger] t[a],
    ) by {
        if a == i {
            assert(t[b] == s[b - 1]);
            assert(before(x, s[b - 1]));
            lemma_before_asymmetric(x, s[b - 1]);
        } else if b == i {
            assert(t[a] == s[a]);
        } else {
            let a2 = if a < i {
                a
            } else {
                a - 1
            };
            let b2 = if b < i {
                b
            } else {
                b - 1
            };
            assert(t[a] == s[a2] && t[b] == s[b2]);
        }
    }
}

proof fn lemma_place_multiset(s: Seq<ListedView>, x: ListedView)
    ensures
        place(s, x).to_multiset() == s.to_multiset().insert(x),
    decreases s.len(),
{
    broadcast use vstd::seq_lib::group_to_multiset_ensures;

    if s.len() > 0 && before(x, s.last()) {
        lemma_place_multiset(s.drop_last(), x);
        assert(s.drop_last().push(s.last()) =~= s);
        assert(s.to_multiset().insert(x) =~= s.drop_last().to_multiset().insert(x).insert(
            s.last(),
        ));
    }
}

/// The order of the listing: nothing is lost or added, and directories and
/// symlinks come first, the entries of either group by name.
pub proof fn law_listing_is_in_order(s: Seq<ListedView>)
    ensures
        in_order(arranged(s)),
        arranged(s).to_multiset() == s.to_multiset(),
    decreases s.len(),
{
    broadcast use vstd::seq_lib::group_to_multiset_ensures;

    if s.len() > 0 {
        let front = s.drop_last();
        law_listing_is_in_order(front);
        let x = s.last();
        let i = lemma_split_exists(arranged(front), x);
        lemma_place_at(arranged(front), x, i);
        lemma_insert_keeps_order(arranged(front), x, i);
        lemma_place_multiset(arranged(front), x);
        assert(front.push(x) =~= s);
    } else {
        assert(arranged(s) =~= s);
    }
}

/// An entry is visible if and only if it was found and is not hidden.
pub proof fn law_hidden_entries_are_not_listed(
    found: Seq<FoundView>,
    ignore: Option<Seq<char>>,
    e: ListedView,
)
    ensures
        visible(found, ignore).contains(e) <==> exists|i: int|
            0 <= i < found.len() && !hidden((#[trigger] found[i]).name, ignore) && styled(found[i])
                == e,
    decreases found.len(),
{
    if found.len() > 0 {
        let front = found.drop_last();
        let last = found.last();
        law_hidden_entries_are_not_listed(front, ignore, e);
        let rest = visible(front, ignore);
        if visible(found, ignore).contains(e) {
            let k = choose|k: int|
                0 <= k < visible(found, ignore).len() && visible(found, ignore)[k] == e;
            if k < rest.len() {
                assert(rest[k] == e);
                let i = choose|i: int|
                    0 <= i < front.len() && !hidden((#[trigger] front[i]).name, ignore) && styled(
                        front[i],
                    ) == e;
                assert(found[i] == front[i]);
            } else {
                assert(found[found.len() - 1] == last);
            }
        }
        if exists|i: int|
            0 <= i < found.len() && !hidden((#[trigger] found[i]).name, ignore) && styled(found[i])
                == e {
            let i = choose|i: int|
                0 <= i < found.len() && !hidden((#[trigger] found[i]).name, ignore) && styled(
                    found[i],
                ) == e;
            if i < front.len() {
                assert(front[i] == found[i]);
                let k = choose|k: int| 0 <= k < rest.len() && rest[k] == e;
                assert(visible(found, ignore)[k] == e);
            } else {
                assert(visible(found, ignore).last() == e);
            }
        }
    }
}

fn is_hidden(name: &str, ignore: Option<&IgnoreRegex>) -> (r: bool)
    ensures
        r == hidden(
            name@,
            match ignore {
                Some(re) => Some(re@),
                None => None,
            },
        ),
{
    if text::starts_with_char(name, '.') {
        return true;
    }
    match ignore {
        Some(re) => re.is_match(name),
        None => false,
    }
}

fn style_found(e: &Found) -> (r: Listed)
    ensures
        r@ == styled(e@),
{
    let style = match e.file_type {
        Some(ft) => {
            let mode: u32 = match e.mode {
                Some(mode) => mode,
                None => 0,
            };
            classify::classify(e.name.as_str(), ft.is_dir, ft.is_symlink, mode)
        },
        None => "unmatched",
    };
    Listed { name: e.name.clone(), style }
}

fn leads(style: &str) -> (r: bool)
    ensures
        r == comes_first(style@),
{
    text::same(style, "dir") || text::same(style, "symlink")
}

fn stands_before(a: &Listed, b: &Listed) -> (r: bool)
    ensures
        r == before(a@, b@),
{
    let first = leads(a.style);
    if first == leads(b.style) {
        text::is_before(a.name.as_str(), b.name.as_str())
    } else {
        first
    }
}

/// Where `x` goes in a listing that is in order.
fn find_place(listed: &Vec<Listed>, x: &Listed) -> (r: usize)
    requires
        in_order(listed_views(listed@)),
    ensures
        splits(listed_views(listed@), x@, r as int),
{
    let ghost s = listed_views(listed@);
    let mut low: usize = 0;
    let mut high: usize = listed.len();
    while low < high
        invariant
            s == listed_views(listed@),
            in_order(s),
            low <= high <= listed@.len(),
            forall|j: int| 0 <= j < low ==> !before(x@, #[trigger] s[j]),
            forall|j: int| high <= j < s.len() ==> before(x@, #[trigger] s[j]),
        decreases high - low,
    {
        let middle: usize = low + (high - low) / 2;
        assert(s[middle as int] == listed@[middle as int]@);
        if stands_before(x, &listed[middle]) {
            assert forall|j: int| middle <= j < s.len() implies before(x@, #[trigger] s[j]) by {
                if j > middle {
                    assert(!before(s[j], s[middle as int]));
                    lemma_before_carries(x@, s[middle as int], s[j]);
                }
            }
            high = middle;
        } else {
            assert forall|j: int| 0 <= j < middle + 1 implies !before(x@, #[trigger] s[j]) by {
                if j < middle && before(x@, s[j]) {
                    assert(!before(s[middle as int], s[j]));
                    lemma_before_carries(x@, s[j], s[middle as int]);
                }
            }
            low = middle + 1;
        }
    }
    low
}

/// The entries of a directory that are shown, with their styles, in order.
pub fn list_entries(found: &Vec<Found>, ignore: Option<&IgnoreRegex>) -> (r: Vec<Listed>)
    ensures
        listed_views(r@) == arranged(
            visible(
                found_views(found@),
                match ignore {
                    Some(re) => Some(re@),
                    None => None,
                },
            ),
        ),
{
    let ghost pattern = match ignore {
        Some(re) => Some(re@),
        None => None,
    };
    let ghost all = found_views(found@);
    let mut listed: Vec<Listed> = Vec::new();
    let mut i: usize = 0;
    proof {
        assert(all.take(0) =~= Seq::<FoundView>::empty());
        assert(listed_views(listed@) =~= Seq::<ListedView>::empty());
    }
    while i < found.len()
        invariant
            i <= found@.len(),
            all == found_views(found@),
            pattern == (match ignore {
                Some(re) => Some(re@),
                None => None,
            }),
            listed_views(listed@) == arranged(visible(all.take(i as int), pattern)),
        decreases found@.len() - i,
    {
        let e = &found[i];
        let ghost shown = visible(all.take(i as int), pattern);
        proof {
            assert(all.take(i + 1).drop_last() =~= all.take(i as int));
            assert(all.take(i + 1).last() == e@);
            law_listing_is_in_order(shown);
        }
        if !is_hidden(e.name.as_str(), ignore) {
            let item = style_found(e);
            let at: usize = find_place(&listed, &item);
            let ghost had = listed_views(listed@);
            let ghost added = item@;
            listed.insert(at, item);
            proof {
                lemma_place_at(had, added, at as int);
                assert(listed_views(listed@) =~= had.insert(at as int, added));
                assert(shown.push(added).drop_last() =~= shown);
            }
        }
        i += 1;
    }
    assert(all.take(i as int) =~= all);
    listed
}

/// An entry that is listed before another: where the later one is a directory
/// or a symlink, so is the earlier one; and where both are, or neither is, the
/// names are in the order of the alphabet: at the first place where they
/// differ the earlier name has the smaller character, or it ends there.
pub proof fn law_listing_is_alphabetical(s: Seq<ListedView>, i: int, j: int, k: int)
    requires
        0 <= i < j < arranged(s).len(),
    ensures
        ({
            let (a, b) = (arranged(s)[i], arranged(s)[j]);
            let a_first = a.style == "dir"@ || a.style == "symlink"@;
            let b_first = b.style == "dir"@ || b.style == "symlink"@;
            &&& b_first ==> a_first
            &&& a_first == b_first && 0 <= k < a.name.len() && k <= b.name.len() && a.name.take(k)
                == b.name.take(k) ==> k < b.name.len() && a.name[k] as u32 <= b.name[k] as u32
        }),
{
    law_listing_is_in_order(s);
    let (a, b) = (arranged(s)[i], arranged(s)[j]);
    assert(!before(b, a));
    if 0 <= k < a.name.len() && k <= b.name.len() && a.name.take(k) == b.name.take(k) {
        text::law_order_is_that_of_the_first_difference(b.name, a.name, k);
        if k < b.name.len() {
            lemma_char_order(a.name[k], b.name[k]);
        }
    }
}

/// What is in order already is listed as it is; equal names keep their order.
pub proof fn law_ordered_entries_stay(s: Seq<ListedView>)
    requires
        forall|i: int, j: int|
            0 <= i < j < s.len() ==> !before(#[trigger] s[j], #[trigger] s[i]),
    ensures
        arranged(s) == s,
    decreases s.len(),
{
    if s.len() > 0 {
        let front = s.drop_last();
        assert forall|i: int, j: int| 0 <= i < j < front.len() implies !before(
            #[trigger] front[j],
            #[trigger] front[i],
        ) by {
            assert(front[j] == s[j] && front[i] == s[i]);
        }
        law_ordered_entries_stay(front);
        if front.len() > 0 {
            assert(!before(s[s.len() - 1], s[s.len() - 2]));
            assert(front.last() == s[s.len() - 2]);
        }
        assert(front.push(s.last()) =~= s);
    } else {
        assert(arranged(s) =~= s);
    }
}

/// Two entries of which neither or both are directories or symlinks stand in
/// the order of their names, and a directory or symlink before anything else.
pub proof fn law_what_stands_before(a: ListedView, b: ListedView)
    ensures
        ({
            let a_first = a.style == "dir"@ || a.style == "symlink"@;
            let b_first = b.style == "dir"@ || b.style == "symlink"@;
            &&& a_first && !b_first ==> before(a, b) && !before(b, a)
            &&& a_first == b_first ==> before(a, b) == text::lex_before(a.name, b.name)
            &&& a.name == b.name && a_first == b_first ==> !before(a, b)
        }),
{
    lemma_lex_total(a.name, a.name);
}

/// An entry is shown if and only if it was found, its name does not begin with
/// a dot, and the pattern, if there is one, does not match it; it is shown with
/// its own name.
pub proof fn law_shown_names(found: Seq<FoundView>, ignore: Option<Seq<char>>, name: Seq<char>)
    ensures
        (exists|k: int|
            0 <= k < visible(found, ignore).len() && #[trigger] visible(found, ignore)[k].name
                == name) <==> (exists|i: int|
            0 <= i < found.len() && #[trigger] found[i].name == name) && !(name.len() > 0 && name[0]
            == '.') && !(ignore is Some && config::regex_match(ignore->0, name)),
{
    let shown = visible(found, ignore);
    if exists|k: int| 0 <= k < shown.len() && #[trigger] shown[k].name == name {
        let k = choose|k: int| 0 <= k < shown.len() && #[trigger] shown[k].name == name;
        law_hidden_entries_are_not_listed(found, ignore, shown[k]);
        assert(shown.contains(shown[k]));
    }
    if (exists|i: int| 0 <= i < found.len() && #[trigger] found[i].name == name) && !hidden(
        name,
        ignore,
    ) {
        let i = choose|i: int| 0 <= i < found.len() && #[trigger] found[i].name == name;
        law_hidden_entries_are_not_listed(found, ignore, styled(found[i]));
        let k = choose|k: int| 0 <= k < shown.len() && shown[k] == styled(found[i]);
        assert(shown[k].name == name);
    }
}

/// Where nothing is hidden, every entry is shown, once, with its style.
pub proof fn law_all_is_shown_where_nothing_is_hidden(found: Seq<FoundView>, i: int)
    requires
        forall|j: int|
            0 <= j < found.len() ==> !((#[trigger] found[j]).name.len() > 0 && found[j].name[0]
                == '.'),
        0 <= i < found.len(),
    ensures
        visible(found, None).len() == found.len(),
        arranged(visible(found, None)).len() == found.len(),
        visible(found, None)[i] == styled(found[i]),
    decreases found.len(),
{
    let front = found.drop_last();
    assert(!(found[found.len() - 1].name.len() > 0 && found[found.len() - 1].name[0] == '.'));
    if front.len() > 0 {
        assert forall|j: int| 0 <= j < front.len() implies !((#[trigger] front[j]).name.len() > 0
            && front[j].name[0] == '.') by {
            assert(front[j] == found[j]);
        }
        law_all_is_shown_where_nothing_is_hidden(
            front,
            if i < front.len() {
                i
            } else {
                0
            },
        );
    } else {
        assert(visible(front, None) =~= Seq::<ListedView>::empty());
    }
    broadcast use vstd::seq_lib::group_to_multiset_ensures;

    law_listing_is_in_order(visible(found, None));
    let shown = visible(found, None);
    assert(arranged(shown).to_multiset().len() == shown.to_multiset().len());
}

/// The style of an entry whose type is known is that of its name, type and
/// execute bits, of which it has none where its mode is not known. An entry
/// whose type is not known has none.
pub proof fn law_style_of_an_entry(e: FoundView)
    ensures
        styled(e).name == e.name,
        e.file_type is None ==> styled(e).style == "unmatched"@,
        e.file_type is Some && e.mode is Some ==> styled(e).style == classify::style_of(
            e.name,
            e.file_type->0.is_dir,
            e.file_type->0.is_symlink,
            e.mode->0,
        ),
        e.file_type is Some && e.mode is None ==> styled(e).style == classify::style_of(
            e.name,
            e.file_type->0.is_dir,
            e.file_type->0.is_symlink,
            0,
        ),
{
}

/// The listing of a directory, as it is given: of two entries in turn the later
/// one is a directory or a symlink only if the earlier one is, and within
/// either group the names ascend: at the first place where they differ the
/// earlier name has the smaller character, or it ends there. No name begins
/// with a dot.
pub proof fn law_list_entries_ascends(
    found: &Vec<Found>,
    ignore: Option<&IgnoreRegex>,
    r: Vec<Listed>,
    i: int,
    j: int,
    k: int,
)
    requires
        call_ensures(list_entries, (found, ignore), r),
        0 <= i < j < r@.len(),
        0 <= k <= r@[i].name@.len(),
        k <= r@[j].name@.len(),
        r@[i].name@.take(k) == r@[j].name@.take(k),
    ensures
        ({
            let (a, b) = (r@[i].name@, r@[j].name@);
            let a_first = r@[i].style@ == "dir"@ || r@[i].style@ == "symlink"@;
            let b_first = r@[j].style@ == "dir"@ || r@[j].style@ == "symlink"@;
            &&& b_first ==> a_first
            &&& a_first == b_first && k < a.len() ==> k < b.len() && a[k] as u32 <= b[k] as u32
            &&& a.len() > 0 ==> a[0] != '.'
        }),
{
    broadcast use vstd::seq_lib::group_to_multiset_ensures;

    let pattern = match ignore {
        Some(re) => Some(re@),
        None => None,
    };
    let plain = visible(found_views(found@), pattern);
    let all = listed_views(r@);
    assert(all == arranged(plain));
    assert(all[i] == r@[i]@ && all[j] == r@[j]@);
    law_listing_is_alphabetical(plain, i, j, k);
    law_listing_is_in_order(plain);
    assert(all.to_multiset().count(all[i]) > 0) by {
        assert(all.contains(all[i]));
    }
    assert(plain.contains(all[i]));
    let m = choose|m: int| 0 <= m < plain.len() && plain[m] == all[i];
    assert(plain[m].name == all[i].name);
    law_shown_names(found_views(found@), pattern, all[i].name);
}

} // verus!
