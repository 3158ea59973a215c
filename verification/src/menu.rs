//! The menu made of a listing: labelled items, shortcuts, lines for `--ls`, and
//! the grid in which the items are shown.

use crate::classify;
use crate::classify::{LabelSlot, Slot};
use crate::config::IgnoreRegex;
use crate::listing;
use crate::listing::{Found, FoundView, Listed, ListedView};
use crate::paths;
use crate::state;
use crate::state::StateView;
use crate::text;
use vstd::prelude::*;

verus! {

/// One item of the menu.
pub struct MenuItem {
    pub name: String,
    pub style: &'static str,
    pub label_char: Option<char>,
    pub wants_label: bool,
}

/// A [`MenuItem`] in a contract.
#[verifier::ext_equal]
pub struct ItemView {
    pub name: Seq<char>,
    pub style: Seq<char>,
    pub label: Option<char>,
    pub wants: bool,
}

impl View for MenuItem {
    type V = ItemView;

    open spec fn view(&self) -> ItemView {
        ItemView {
            name: self.name@,
            style: self.style@,
            label: self.label_char,
            wants: self.wants_label,
        }
    }
}

impl LabelSlot for MenuItem {
    open spec fn wants(&self) -> bool {
        self.wants_label
    }

    open spec fn shown(&self) -> Option<char> {
        self.label_char
    }

    open spec fn same_entry(&self, other: &Self) -> bool {
        self.name == other.name && self.style == other.style && self.wants_label
            == other.wants_label
    }

    fn wants_label(&self) -> (r: bool) {
        self.wants_label
    }

    fn label(&self) -> (r: Option<char>) {
        self.label_char
    }

    fn set_label(&mut self, c: char) {
        self.label_char = Some(c);
    }
}

pub open spec fn item_views(items: Seq<MenuItem>) -> Seq<ItemView> {
    items.map_values(|i: MenuItem| i@)
}

/// The item for the parent directory, whose label is always the dot.
pub open spec fn parent_slot() -> Slot {
    Slot { wants: true, label: Some('.'), name: ".."@ }
}

/// An entry of the listing, to be labelled if its style asks for it.
pub open spec fn entry_slot(e: ListedView) -> Slot {
    Slot { wants: classify::labelable(e.style, e.name), label: None, name: e.name }
}

/// What decides about the labels of a menu.
pub open spec fn menu_slots(listed: Seq<ListedView>) -> Seq<Slot> {
    seq![parent_slot()] + listed.map_values(|e: ListedView| entry_slot(e))
}

/// The menu of a listing: the parent directory, then the entries, labelled.
pub open spec fn menu_of(listed: Seq<ListedView>) -> Seq<ItemView> {
    let labels = classify::assigned(menu_slots(listed));
    Seq::new(
        listed.len() + 1,
        |i: int|
            if i == 0 {
                ItemView { name: ".."@, style: "dir"@, label: labels[0], wants: true }
            } else {
                ItemView {
                    name: listed[i - 1].name,
                    style: listed[i - 1].style,
                    label: labels[i],
                    wants: classify::labelable(listed[i - 1].style, listed[i - 1].name),
                }
            },
    )
}

/// Slots that differ in nothing but the names of entries that need no label.
spec fn alike(a: Seq<Slot>, b: Seq<Slot>) -> bool {
    &&& a.len() == b.len()
    &&& forall|i: int|
        0 <= i < a.len() ==> (#[trigger] a[i]).wants == b[i].wants && a[i].label == b[i].label && (
        a[i].open() ==> a[i].name == b[i].name)
}

proof fn lemma_first_pass_alike(a: Seq<Slot>, b: Seq<Slot>)
    requires
        alike(a, b),
    ensures
        classify::first_pass(a) == classify::first_pass(b),
    decreases a.len(),
{
    if a.len() > 0 {
        let (fa, fb) = (a.drop_last(), b.drop_last());
        assert forall|i: int| 0 <= i < fa.len() implies (#[trigger] fa[i]).wants == fb[i].wants
            && fa[i].label == fb[i].label && (fa[i].open() ==> fa[i].name == fb[i].name) by {
            assert(fa[i] == a[i] && fb[i] == b[i]);
        }
        lemma_first_pass_alike(fa, fb);
        let n = a.len() - 1;
        assert(a[n].wants == b[n].wants);
    }
}

proof fn lemma_second_pass_alike(
    a: Seq<Slot>,
    b: Seq<Slot>,
    labels: Seq<Option<char>>,
    pool: Seq<char>,
)
    requires
        alike(a, b),
    ensures
        classify::second_pass(a, labels, pool) == classify::second_pass(b, labels, pool),
    decreases a.len(),
{
    if a.len() > 0 {
        let (fa, fb) = (a.drop_last(), b.drop_last());
        assert forall|i: int| 0 <= i < fa.len() implies (#[trigger] fa[i]).wants == fb[i].wants
            && fa[i].label == fb[i].label && (fa[i].open() ==> fa[i].name == fb[i].name) by {
            assert(fa[i] == a[i] && fb[i] == b[i]);
        }
        lemma_second_pass_alike(fa, fb, labels.drop_last(), pool);
        let n = a.len() - 1;
        assert(a[n].wants == b[n].wants);
    }
}

fn item_name(item: &MenuItem) -> (r: &str)
    ensures
        r@ == item.name@,
{
    item.name.as_str()
}

/// Build the menu of a listing: `..`, which has the fixed label `.`, then the
/// entries, labelled as [`classify::assign_labels`] does.
pub fn build_menu(listed: &Vec<Listed>) -> (r: Vec<MenuItem>)
    ensures
        item_views(r@) == menu_of(listing::listed_views(listed@)),
{
    let ghost entries = listing::listed_views(listed@);
    let mut items: Vec<MenuItem> = Vec::new();
    items.push(
        MenuItem {
            name: "..".to_owned(),
            style: "dir",
            label_char: Some('.'),
            wants_label: true,
        },
    );
    let mut i: usize = 0;
    while i < listed.len()
        invariant
            i <= listed@.len(),
            entries == listing::listed_views(listed@),
            items@.len() == i + 1,
            items@[0].name@ == ".."@,
            items@[0].style@ == "dir"@,
            items@[0].label_char == Some('.'),
            items@[0].wants_label,
            forall|j: int|
                0 < j <= i ==> (#[trigger] items@[j]).name@ == entries[j - 1].name && items@[j].style@
                    == entries[j - 1].style && items@[j].label_char is None && items@[j].wants_label
                    == entry_slot(entries[j - 1]).wants,
        decreases listed@.len() - i,
    {
        let e = &listed[i];
        assert(entries[i as int] == e@);
        let wants = classify::should_have_label(e.style, e.name.as_str());
        items.push(
            MenuItem { name: e.name.clone(), style: e.style, label_char: None, wants_label: wants },
        );
        i += 1;
    }
    let ghost bare = items@;
    classify::assign_labels(items.as_mut_slice(), item_name);
    proof {
        let names = choose|names: Seq<Seq<char>>| #[trigger]
            classify::names_from(item_name, bare, names) && classify::labels_of(items@)
                == classify::assigned(classify::slots_of(bare, names));
        let given = classify::slots_of(bare, names);
        let slots = menu_slots(entries);
        assert(slots.len() == given.len());
        assert forall|j: int| 0 <= j < given.len() implies (#[trigger] given[j]).wants
            == slots[j].wants && given[j].label == slots[j].label && (given[j].open()
            ==> given[j].name == slots[j].name) by {
            assert(given[j] == classify::slot_of(bare[j], names[j]));
            if j > 0 {
                assert(slots[j] == entry_slot(entries[j - 1]));
                assert(bare[j].name@ == entries[j - 1].name);
                if given[j].open() {
                    assert(classify::name_from(item_name, bare[j], names[j]));
                }
            } else {
                assert(slots[0] == parent_slot());
            }
        }
        lemma_first_pass_alike(given, slots);
        lemma_second_pass_alike(
            given,
            slots,
            classify::first_pass(slots).0,
            classify::first_pass(slots).1,
        );
        let labels = classify::assigned(slots);
        assert forall|j: int| 0 <= j < items@.len() implies #[trigger] items@[j]@ == menu_of(
            entries,
        )[j] by {
            assert(classify::kept_entry(bare[j], items@[j]));
            assert(classify::labels_of(items@)[j] == items@[j].label_char);
            if j > 0 {
                assert(bare[j].name@ == entries[j - 1].name);
            }
        }
        assert(item_views(items@) =~= menu_of(entries));
    }
    items
}

/// In the menu of a listing `..` comes first, with the label `.`; every other
/// label is a label character, and no label stands twice.
pub proof fn law_menu_labels(listed: Seq<ListedView>)
    ensures
        ({
            let menu = menu_of(listed);
            &&& menu[0] == (ItemView { name: ".."@, style: "dir"@, label: Some('.'), wants: true })
            &&& forall|i: int|
                0 < i < menu.len() && (#[trigger] menu[i]).label is Some ==> classify::label_char(
                    menu[i].label->0,
                ) && classify::labelable(menu[i].style, menu[i].name)
            &&& forall|i: int, j: int|
                0 <= i < j < menu.len() && (#[trigger] menu[i]).label is Some ==> menu[i].label != (
                #[trigger] menu[j]).label
        }),
{
    let slots = menu_slots(listed);
    let labels = classify::assigned(slots);
    let menu = menu_of(listed);
    classify::law_labels_are_distinct(slots);
    assert(slots[0] == parent_slot());
    assert(!slots[0].open());
    assert(labels[0] == slots[0].label);
    assert forall|i: int| 0 < i < menu.len() && (#[trigger] menu[i]).label is Some implies
        classify::label_char(menu[i].label->0) && classify::labelable(
        menu[i].style,
        menu[i].name,
    ) by {
        assert(slots[i] == entry_slot(listed[i - 1]));
        if !slots[i].open() {
            assert(labels[i] == slots[i].label);
        }
        assert(classify::given(slots, labels, i, labels[i]->0));
    }
    assert forall|i: int, j: int|
        0 <= i < j < menu.len() && (#[trigger] menu[i]).label is Some implies menu[i].label != (
    #[trigger] menu[j]).label by {
        if menu[j].label is Some {
            let c = menu[j].label->0;
            assert(classify::label_char(c));
            assert(slots[j] == entry_slot(listed[j - 1]));
            if !slots[j].open() {
                assert(labels[j] == slots[j].label);
            }
            assert(classify::given(slots, labels, j, c));
            if i > 0 && menu[i].label == Some(c) {
                assert(slots[i] == entry_slot(listed[i - 1]));
                if !slots[i].open() {
                    assert(labels[i] == slots[i].label);
                }
                assert(classify::given(slots, labels, i, c));
            }
        }
    }
}

/// The shortcuts of a menu: the label and the name of each item with a label.
pub open spec fn shortcut_views(items: Seq<ItemView>) -> Seq<(char, Seq<char>)>
    decreases items.len(),
{
    if items.len() == 0 {
        seq![]
    } else {
        let front = shortcut_views(items.drop_last());
        match items.last().label {
            Some(c) => front.push((c, items.last().name)),
            None => front,
        }
    }
}

pub open spec fn pair_views(pairs: Seq<(char, String)>) -> Seq<(char, Seq<char>)> {
    pairs.map_values(|p: (char, String)| (p.0, p.1@))
}

pub fn shortcut_pairs(items: &Vec<MenuItem>) -> (r: Vec<(char, String)>)
    ensures
        pair_views(r@) == shortcut_views(item_views(items@)),
{
    let ghost all = item_views(items@);
    let mut pairs: Vec<(char, String)> = Vec::new();
    let mut i: usize = 0;
    proof {
        assert(all.take(0) =~= Seq::<ItemView>::empty());
        assert(pair_views(pairs@) =~= Seq::<(char, Seq<char>)>::empty());
    }
    while i < items.len()
        invariant
            i <= items@.len(),
            all == item_views(items@),
            pair_views(pairs@) == shortcut_views(all.take(i as int)),
        decreases items@.len() - i,
    {
        let item = &items[i];
        let ghost had = pair_views(pairs@);
        proof {
            assert(all.take(i + 1).drop_last() =~= all.take(i as int));
            assert(all.take(i + 1).last() == item@);
        }
        if let Some(c) = item.label_char {
            pairs.push((c, item.name.clone()));
            assert(pair_views(pairs@) =~= had.push((c, item.name@)));
        }
        i += 1;
    }
    assert(all.take(i as int) =~= all);
    pairs
}

/// How a label is shown: in brackets, or as blank space of the same width.
pub open spec fn label_text(label: Option<char>) -> Seq<char> {
    match label {
        Some(c) => seq!['[', c, ']', ' '],
        None => seq![' ', ' ', ' ', ' '],
    }
}

/// An item as one line of text.
pub open spec fn full_text(item: ItemView) -> Seq<char> {
    label_text(item.label) + item.name
}

pub fn show_label(label: Option<char>) -> (r: String)
    ensures
        r@ == label_text(label),
{
    let mut out = String::new();
    match label {
        Some(c) => {
            out.push('[');
            out.push(c);
            out.push(']');
            out.push(' ');
        },
        None => {
            out.push(' ');
            out.push(' ');
            out.push(' ');
            out.push(' ');
        },
    }
    assert(out@ =~= label_text(label));
    out
}

/// The lines of `--ls`: the items of the menu but for `..`, each with the
/// label that it has in the menu.
pub open spec fn ls_lines(listed: Seq<ListedView>) -> Seq<Seq<char>> {
    Seq::new(listed.len(), |i: int| full_text(menu_of(listed)[i + 1]))
}

/// The entries of a directory as they are shown: those that are not hidden, in
/// order.
pub open spec fn shown_entries(found: Seq<FoundView>, ignore: Option<Seq<char>>) -> Seq<ListedView> {
    listing::arranged(listing::visible(found, ignore))
}

/// The lines of the labelled directory listing that `--ls` prints to stdout.
/// They show the same shortcuts as the menu of the same directory.
pub fn run_ls(found: &Vec<Found>, ignore: Option<&IgnoreRegex>) -> (r: Vec<String>)
    ensures
        text::views(r@) == ls_lines(
            shown_entries(
                listing::found_views(found@),
                match ignore {
                    Some(re) => Some(re@),
                    None => None,
                },
            ),
        ),
{
    let listed = listing::list_entries(found, ignore);
    let ghost entries = listing::listed_views(listed@);
    let items = build_menu(&listed);
    let mut lines: Vec<String> = Vec::new();
    let mut i: usize = 1;
    assert(item_views(items@).len() == entries.len() + 1);
    while i < items.len()
        invariant
            1 <= i <= items@.len(),
            item_views(items@) == menu_of(entries),
            items@.len() == entries.len() + 1,
            lines@.len() == i - 1,
            forall|j: int|
                0 <= j < i - 1 ==> (#[trigger] lines@[j])@ == full_text(menu_of(entries)[j + 1]),
        decreases items@.len() - i,
    {
        let item = &items[i];
        assert(item_views(items@)[i as int] == item@);
        let mut line = show_label(item.label_char);
        line.push_str(item.name.as_str());
        lines.push(line);
        i += 1;
    }
    assert(text::views(lines@) =~= ls_lines(entries));
    lines
}

/// Build the menu of a directory.
pub fn menu_for(found: &Vec<Found>, ignore: Option<&IgnoreRegex>) -> (r: Vec<MenuItem>)
    ensures
        item_views(r@) == menu_of(
            shown_entries(
                listing::found_views(found@),
                match ignore {
                    Some(re) => Some(re@),
                    None => None,
                },
            ),
        ),
{
    build_menu(&listing::list_entries(found, ignore))
}

/// `--ls` and the menu of the same directory show each entry on the same place
/// with the same label.
pub proof fn law_ls_shows_the_labels_of_the_menu(
    found: Seq<FoundView>,
    ignore: Option<Seq<char>>,
    i: int,
)
    requires
        0 < i < menu_of(shown_entries(found, ignore)).len(),
    ensures
        ls_lines(shown_entries(found, ignore)).len() + 1 == menu_of(
            shown_entries(found, ignore),
        ).len(),
        ({
            let item = menu_of(shown_entries(found, ignore))[i];
            ls_lines(shown_entries(found, ignore))[i - 1] == label_text(item.label) + item.name
        }),
{
}

/// The columns and rows of a menu, and the width of a column in characters.
pub struct Grid {
    pub cols: usize,
    pub rows: usize,
    pub col_width: usize,
}

/// Too narrow to show anything, in pixels.
pub const MIN_WIDTH_PX: i32 = 300;

/// The length of the longest item.
pub open spec fn longest(items: Seq<ItemView>) -> nat
    decreases items.len(),
{
    if items.len() == 0 {
        0
    } else {
        let front = longest(items.drop_last());
        let last = full_text(items.last()).len();
        if last > front {
            last
        } else {
            front
        }
    }
}

pub open spec fn at_least_one(n: int) -> int {
    if n < 1 {
        1
    } else {
        n
    }
}

/// The grid for a number of pixels: columns as wide as the longest item and
/// two characters, as many as fit but at least one, and as few rows as hold
/// all items. Nothing is shown in less than [`MIN_WIDTH_PX`].
pub open spec fn grid_of(items: Seq<ItemView>, char_width_px: i32, avail_width_px: i32) -> Option<
    Grid,
> {
    if avail_width_px < MIN_WIDTH_PX {
        None
    } else {
        let col_width = longest(items) + 2;
        let cols = at_least_one(
            avail_width_px as int / (col_width * at_least_one(char_width_px as int)),
        );
        Some(
            Grid {
                cols: cols as usize,
                rows: ((items.len() + cols - 1) / cols) as usize,
                col_width: col_width as usize,
            },
        )
    }
}

/// No name is so long that the width of a column is out of range.
pub open spec fn names_fit(items: Seq<ItemView>) -> bool {
    forall|i: int| 0 <= i < items.len() ==> (#[trigger] items[i]).name.len() <= usize::MAX - 6
}

proof fn lemma_longest(items: Seq<ItemView>)
    ensures
        forall|i: int| 0 <= i < items.len() ==> full_text(#[trigger] items[i]).len() <= longest(
            items,
        ),
        names_fit(items) ==> longest(items) <= usize::MAX - 2,
    decreases items.len(),
{
    if items.len() > 0 {
        let front = items.drop_last();
        lemma_longest(front);
        assert forall|i: int| 0 <= i < items.len() implies full_text(#[trigger] items[i]).len()
            <= longest(items) by {
            if i < front.len() {
                assert(front[i] == items[i]);
            }
        }
        if names_fit(items) {
            assert forall|i: int| 0 <= i < front.len() implies (#[trigger] front[i]).name.len()
                <= usize::MAX - 6 by {
                assert(front[i] == items[i]);
            }
            assert(items[items.len() - 1].name.len() <= usize::MAX - 6);
        }
    }
}

fn longest_item(items: &Vec<MenuItem>) -> (r: usize)
    requires
        names_fit(item_views(items@)),
    ensures
        r == longest(item_views(items@)),
{
    let ghost all = item_views(items@);
    let mut widest: usize = 0;
    let mut i: usize = 0;
    assert(all.take(0) =~= Seq::<ItemView>::empty());
    while i < items.len()
        invariant
            i <= items@.len(),
            all == item_views(items@),
            names_fit(all),
            widest == longest(all.take(i as int)),
        decreases items@.len() - i,
    {
        proof {
            assert(all.take(i + 1).drop_last() =~= all.take(i as int));
            assert(all[i as int] == items@[i as int]@);
        }
        let len: usize = 4 + items[i].name.as_str().unicode_len();
        if len > widest {
            widest = len;
        }
        i += 1;
    }
    assert(all.take(i as int) =~= all);
    widest
}

/// Lay the menu out for a width in pixels, given the width of a character.
/// Nothing is to be shown before the width is a sensible one.
pub fn layout(items: &Vec<MenuItem>, char_width_px: i32, avail_width_px: i32) -> (r: Option<Grid>)
    requires
        names_fit(item_views(items@)),
    ensures
        r == grid_of(item_views(items@), char_width_px, avail_width_px),
{
    if avail_width_px < MIN_WIDTH_PX {
        return None;
    }
    proof {
        lemma_longest(item_views(items@));
    }
    let col_width: usize = longest_item(items) + 2;
    let char_width: u128 = if char_width_px < 1 {
        1
    } else {
        char_width_px as u128
    };
    proof {
        assert(col_width * char_width <= 0xffff_ffff_ffff_ffff * 0x7fff_ffff) by (nonlinear_arith)
            requires
                col_width <= 0xffff_ffff_ffff_ffff,
                char_width <= 0x7fff_ffff,
        ;
        assert(col_width * char_width >= 1) by (nonlinear_arith)
            requires
                col_width >= 1,
                char_width >= 1,
        ;
    }
    let col_px: u128 = col_width as u128 * char_width;
    let fitting: u128 = avail_width_px as u128 / col_px;
    proof {
        assert(fitting <= avail_width_px) by (nonlinear_arith)
            requires
                fitting == avail_width_px as u128 / col_px,
                col_px >= 1,
                avail_width_px >= 0,
        ;
    }
    let cols: usize = if fitting < 1 {
        1
    } else {
        fitting as usize
    };
    let n: usize = items.len();
    proof {
        lemma_ceiling(n as int, cols as int);
    }
    let rows: usize = if n % cols == 0 {
        n / cols
    } else {
        n / cols + 1
    };
    Some(Grid { cols, rows, col_width })
}

proof fn lemma_ceiling(n: int, d: int)
    requires
        n >= 0,
        d >= 1,
    ensures
        (n + d - 1) / d == if n % d == 0 {
            n / d
        } else {
            n / d + 1
        },
        n / d <= n,
        n % d != 0 ==> n / d + 1 <= n,
        ((n + d - 1) / d) * d >= n,
{
    let q = n / d;
    let r = n % d;
    vstd::arithmetic::div_mod::lemma_fundamental_div_mod(n, d);
    vstd::arithmetic::div_mod::lemma_mod_bound(n, d);
    assert(q >= 0) by (nonlinear_arith)
        requires
            n >= 0,
            d >= 1,
            n == d * q + r,
            0 <= r < d,
    ;
    assert(q <= d * q) by (nonlinear_arith)
        requires
            d >= 1,
            q >= 0,
    ;
    if r == 0 {
        assert(q * d == d * q) by (nonlinear_arith);
        vstd::arithmetic::div_mod::lemma_fundamental_div_mod_converse(n + d - 1, d, q, d - 1);
    } else {
        assert((q + 1) * d == d * q + d) by (nonlinear_arith);
        vstd::arithmetic::div_mod::lemma_fundamental_div_mod_converse(n + d - 1, d, q + 1, r - 1);
    }
}

/// A cell of the grid: what is shown of an item, and the blank space that fills
/// the column but for its last character, which is the gap to the next one.
pub struct Cell {
    pub label: String,
    pub name: String,
    pub style: &'static str,
    pub padding: String,
}

/// A [`Cell`] in a contract.
#[verifier::ext_equal]
pub struct CellView {
    pub label: Seq<char>,
    pub name: Seq<char>,
    pub style: Seq<char>,
    pub padding: Seq<char>,
}

impl View for Cell {
    type V = CellView;

    open spec fn view(&self) -> CellView {
        CellView {
            label: self.label@,
            name: self.name@,
            style: self.style@,
            padding: self.padding@,
        }
    }
}

impl CellView {
    /// What a click on the cell finds: all of it but the gap.
    pub open spec fn text(self) -> Seq<char> {
        self.label + self.name + self.padding
    }
}

pub open spec fn blanks(n: int) -> Seq<char> {
    Seq::new(
        if n > 0 {
            n as nat
        } else {
            0
        },
        |i: int| ' ',
    )
}

pub open spec fn cell_of(item: ItemView, col_width: int) -> CellView {
    CellView {
        label: label_text(item.label),
        name: item.name,
        style: item.style,
        padding: blanks(col_width - 1 - full_text(item).len()),
    }
}

/// The places of the items in the first `cols` columns of a row: the items run
/// down the columns.
pub open spec fn row_places(n: int, rows: int, row: int, cols: int) -> Seq<int>
    decreases cols,
{
    if cols <= 0 {
        seq![]
    } else {
        let left = row_places(n, rows, row, cols - 1);
        let place = (cols - 1) * rows + row;
        if place < n {
            left.push(place)
        } else {
            left
        }
    }
}

/// The cells of one row.
pub open spec fn row_of(items: Seq<ItemView>, grid: Grid, row: int) -> Seq<CellView> {
    row_places(items.len() as int, grid.rows as int, row, grid.cols as int).map_values(
        |i: int| cell_of(items[i], grid.col_width as int),
    )
}

pub open spec fn cell_views(cells: Seq<Cell>) -> Seq<CellView> {
    cells.map_values(|c: Cell| c@)
}

fn make_cell(item: &MenuItem, col_width: usize) -> (r: Cell)
    requires
        item.name@.len() <= usize::MAX - 6,
    ensures
        r@ == cell_of(item@, col_width as int),
{
    let len: usize = 4 + item.name.as_str().unicode_len();
    let inner: usize = if col_width > 0 {
        col_width - 1
    } else {
        0
    };
    let pad: usize = if inner > len {
        inner - len
    } else {
        0
    };
    let padding = text::spaces(pad);
    assert(padding@ =~= blanks(col_width - 1 - full_text(item@).len()));
    Cell { label: show_label(item.label_char), name: item.name.clone(), style: item.style, padding }
}

/// The cells of one row of the grid, from left to right.
pub fn render_row(items: &Vec<MenuItem>, grid: &Grid, row: usize) -> (r: Vec<Cell>)
    requires
        names_fit(item_views(items@)),
        row < grid.rows,
    ensures
        cell_views(r@) == row_of(item_views(items@), *grid, row as int),
{
    let ghost all = item_views(items@);
    let n: usize = items.len();
    let mut cells: Vec<Cell> = Vec::new();
    let mut col: usize = 0;
    // The place in this column, or the number of items once it is beyond them.
    let mut place: usize = if row < n {
        row
    } else {
        n
    };
    proof {
        assert(row_places(n as int, grid.rows as int, row as int, 0) =~= Seq::<int>::empty());
        assert(cell_views(cells@) =~= Seq::<CellView>::empty());
        assert(0 * grid.rows == 0) by (nonlinear_arith);
    }
    while col < grid.cols
        invariant
            all == item_views(items@),
            names_fit(all),
            n == items@.len(),
            row < grid.rows,
            col <= grid.cols,
            place == if col * grid.rows + row < n {
                col * grid.rows + row
            } else {
                n as int
            },
            cell_views(cells@) == row_places(
                n as int,
                grid.rows as int,
                row as int,
                col as int,
            ).map_values(|i: int| cell_of(all[i], grid.col_width as int)),
        decreases grid.cols - col,
    {
        proof {
            assert((col + 1) * grid.rows == col * grid.rows + grid.rows) by (nonlinear_arith);
        }
        let ghost had = row_places(n as int, grid.rows as int, row as int, col as int);
        if place < n {
            proof {
                assert(all[place as int] == items@[place as int]@);
            }
            let ghost shown = cell_views(cells@);
            let cell = make_cell(&items[place], grid.col_width);
            let ghost added = cell@;
            cells.push(cell);
            proof {
                assert(cell_views(cells@) =~= shown.push(added));
                assert(had.push(place as int).map_values(
                    |i: int| cell_of(all[i], grid.col_width as int),
                ) =~= shown.push(added));
            }
            if grid.rows < n - place {
                place = place + grid.rows;
            } else {
                place = n;
            }
        }
        col += 1;
    }
    cells
}

/// Every item of a menu stands in the grid exactly once: item `i` in row
/// `i % rows` of column `i / rows`.
pub proof fn law_grid_holds_every_item(
    items: Seq<ItemView>,
    char_width_px: i32,
    avail_width_px: i32,
    i: int,
)
    requires
        0 <= i < items.len() <= usize::MAX,
        grid_of(items, char_width_px, avail_width_px) is Some,
    ensures
        ({
            let grid = grid_of(items, char_width_px, avail_width_px)->0;
            let (row, col) = (i % (grid.rows as int), i / (grid.rows as int));
            &&& 0 <= row < grid.rows
            &&& 0 <= col < grid.cols
            &&& col * grid.rows + row == i
            &&& row_places(items.len() as int, grid.rows as int, row, grid.cols as int)[col] == i
            &&& forall|r: int, c: int|
                0 <= r < grid.rows && 0 <= c < grid.cols && c < row_places(
                    items.len() as int,
                    grid.rows as int,
                    r,
                    grid.cols as int,
                ).len() && #[trigger] row_places(
                    items.len() as int,
                    grid.rows as int,
                    r,
                    grid.cols as int,
                )[c] == i ==> r == row && c == col
        }),
{
    let grid = grid_of(items, char_width_px, avail_width_px)->0;
    let n = items.len() as int;
    let width = (longest(items) + 2) * at_least_one(char_width_px as int);
    assert(width >= 1) by (nonlinear_arith)
        requires
            width == (longest(items) + 2) * at_least_one(char_width_px as int),
            at_least_one(char_width_px as int) >= 1,
    ;
    let fitting = avail_width_px as int / width;
    assert(0 <= fitting <= avail_width_px) by (nonlinear_arith)
        requires
            fitting == avail_width_px as int / width,
            width >= 1,
            avail_width_px >= 0,
    ;
    let cols = at_least_one(fitting);
    assert(grid.cols == cols);
    lemma_ceiling(n, cols);
    let rows = (n + cols - 1) / cols;
    assert(grid.rows == rows);
    assert(rows >= 1) by (nonlinear_arith)
        requires
            rows * cols >= n,
            n >= 1,
            cols >= 1,
    ;
    let (row, col) = (i % rows, i / rows);
    vstd::arithmetic::div_mod::lemma_fundamental_div_mod(i, rows);
    vstd::arithmetic::div_mod::lemma_mod_bound(i, rows);
    assert(rows * col == col * rows) by (nonlinear_arith);
    assert(0 <= col < cols) by (nonlinear_arith)
        requires
            i == col * rows + row,
            0 <= i < n,
            0 <= row < rows,
            rows * cols >= n,
            rows >= 1,
    ;
    lemma_row_places(n, rows, row, cols, col);
    assert forall|r: int, c: int|
        0 <= r < grid.rows && 0 <= c < grid.cols && c < row_places(n, rows, r, cols).len()
            && #[trigger] row_places(n, rows, r, cols)[c] == i implies r == row && c == col by {
        lemma_row_place(n, rows, r, cols, c);
        vstd::arithmetic::div_mod::lemma_fundamental_div_mod_converse(i, rows, c, r);
    }
}

/// Column `c` of a row holds the place `c * rows + row`.
proof fn lemma_row_place(n: int, rows: int, row: int, cols: int, c: int)
    requires
        rows >= 1,
        0 <= row,
        0 <= c < row_places(n, rows, row, cols).len(),
    ensures
        row_places(n, rows, row, cols)[c] == c * rows + row,
        row_places(n, rows, row, cols).len() <= cols,
        row_places(n, rows, row, cols).len() < cols ==> row_places(n, rows, row, cols).len() * rows
            + row >= n,
    decreases cols,
{
    lemma_row_len(n, rows, row, cols);
    if cols > 0 {
        lemma_row_len(n, rows, row, cols - 1);
        let left = row_places(n, rows, row, cols - 1);
        let place = (cols - 1) * rows + row;
        if place < n {
            if left.len() < cols - 1 {
                let k = left.len() as int;
                assert(k * rows <= (cols - 1) * rows) by (nonlinear_arith)
                    requires
                        k < cols - 1,
                        rows >= 1,
                ;
            }
            if c < left.len() {
                lemma_row_place(n, rows, row, cols - 1, c);
            }
        } else {
            lemma_row_place(n, rows, row, cols - 1, c);
        }
    }
}

proof fn lemma_row_len(n: int, rows: int, row: int, cols: int)
    requires
        rows >= 1,
        0 <= row,
    ensures
        cols >= 0 ==> row_places(n, rows, row, cols).len() <= cols,
        row_places(n, rows, row, cols).len() < cols ==> row_places(n, rows, row, cols).len() * rows
            + row >= n,
    decreases cols,
{
    if cols > 0 {
        lemma_row_len(n, rows, row, cols - 1);
        let left = row_places(n, rows, row, cols - 1);
        let place = (cols - 1) * rows + row;
        if place < n && left.len() < cols - 1 {
            let k = left.len() as int;
            assert(k * rows <= (cols - 1) * rows) by (nonlinear_arith)
                requires
                    k < cols - 1,
                    rows >= 1,
            ;
        }
    }
}

proof fn lemma_row_places(n: int, rows: int, row: int, cols: int, c: int)
    requires
        rows >= 1,
        0 <= row,
        0 <= c < cols,
        c * rows + row < n,
    ensures
        c < row_places(n, rows, row, cols).len(),
        row_places(n, rows, row, cols)[c] == c * rows + row,
{
    lemma_row_len(n, rows, row, cols);
    let k = row_places(n, rows, row, cols).len() as int;
    if k <= c {
        assert(k * rows <= c * rows) by (nonlinear_arith)
            requires
                k <= c,
                rows >= 1,
        ;
    }
    lemma_row_place(n, rows, row, cols, c);
}

/// The cells of a grid are of one width: with the gap, that of a column.
pub proof fn law_cells_are_of_one_width(
    items: Seq<ItemView>,
    char_width_px: i32,
    avail_width_px: i32,
    i: int,
)
    requires
        0 <= i < items.len(),
        names_fit(items),
        grid_of(items, char_width_px, avail_width_px) is Some,
    ensures
        ({
            let grid = grid_of(items, char_width_px, avail_width_px)->0;
            cell_of(items[i], grid.col_width as int).text().len() + 1 == grid.col_width
        }),
{
    lemma_longest(items);
    assert(full_text(items[i]).len() <= longest(items));
}

/// The label in the text of a cell.
pub open spec fn key_of(text: Seq<char>) -> Option<char> {
    if text.len() >= 3 && text[0] == '[' && text[2] == ']' {
        Some(text[1])
    } else {
        None
    }
}

/// The label in the text of the cell that was clicked or is dragged, which is
/// of the form `[x] name   `.
pub fn label_key(text: &str) -> (r: Option<char>)
    requires
        !(text@.len() == 2 && text@[0] == '['),
    ensures
        r == key_of(text@),
{
    let chars = text::chars_of(text);
    if chars.len() >= 2 && chars[0] == '[' && chars[2] == ']' {
        Some(chars[1])
    } else {
        None
    }
}

/// The text of an item's cell gives its label back, and that of an item without
/// a label gives none.
pub proof fn law_cell_gives_its_label_back(item: ItemView, col_width: int)
    ensures
        key_of(cell_of(item, col_width).text()) == item.label,
        cell_of(item, col_width).text().len() >= 4,
{
}

/// Shortcuts under the key values of their labels.
pub open spec fn keyed(
    pairs: Seq<(char, Seq<char>)>,
    keyval: spec_fn(char) -> u32,
) -> Seq<(u32, Seq<char>)> {
    pairs.map_values(|p: (char, Seq<char>)| (keyval(p.0), p.1))
}

proof fn lemma_shortcut_of_item(items: Seq<ItemView>, keyval: spec_fn(char) -> u32, i: int)
    requires
        0 <= i < items.len(),
        items[i].label is Some,
        forall|j: int|
            i < j < items.len() && (#[trigger] items[j]).label is Some ==> keyval(items[j].label->0)
                != keyval(items[i].label->0),
    ensures
        ({
            let shortcuts = state::shortcut_map(keyed(shortcut_views(items), keyval));
            let key = keyval(items[i].label->0);
            shortcuts.contains_key(key) && shortcuts[key] == items[i].name
        }),
    decreases items.len(),
{
    let front = items.drop_last();
    let last = items.last();
    let had = shortcut_views(front);
    let pairs = keyed(shortcut_views(items), keyval);
    if last.label is Some {
        assert(pairs.drop_last() =~= keyed(had, keyval));
        assert(pairs.last() == (keyval(last.label->0), last.name));
    }
    if i < front.len() {
        assert forall|j: int|
            i < j < front.len() && (#[trigger] front[j]).label is Some implies keyval(
            front[j].label->0,
        ) != keyval(front[i].label->0) by {
            assert(front[j] == items[j]);
        }
        lemma_shortcut_of_item(front, keyval, i);
        assert(items[items.len() - 1] == last);
    }
}

/// A character that may be the label of an item.
pub open spec fn usable_label(c: char) -> bool {
    c == '.' || classify::label_char(c)
}

/// Where distinct labels have distinct key values, pressing the key of an item
/// or clicking on its cell opens that item of the directory, and no other.
pub proof fn law_shortcut_opens_its_item(
    session: StateView,
    listed: Seq<ListedView>,
    keyval: spec_fn(char) -> u32,
    i: int,
    col_width: int,
)
    requires
        session.shortcuts == state::shortcut_map(keyed(shortcut_views(menu_of(listed)), keyval)),
        0 <= i < menu_of(listed).len(),
        menu_of(listed)[i].label is Some,
        forall|c: char, d: char|
            usable_label(c) && usable_label(d) && #[trigger] keyval(c) == #[trigger] keyval(d) ==> c
                == d,
    ensures
        ({
            let item = menu_of(listed)[i];
            let key = key_of(cell_of(item, col_width).text());
            &&& key == item.label
            &&& state::shortcut_target(session, keyval(key->0)) == Some(
                paths::joined(session.cd, item.name),
            )
        }),
{
    let menu = menu_of(listed);
    law_menu_labels(listed);
    law_cell_gives_its_label_back(menu[i], col_width);
    assert forall|j: int| 0 <= j < menu.len() && (#[trigger] menu[j]).label is Some implies
        usable_label(menu[j].label->0) by {}
    assert forall|j: int| i < j < menu.len() && (#[trigger] menu[j]).label is Some implies keyval(
        menu[j].label->0,
    ) != keyval(menu[i].label->0) by {
        assert(menu[i].label != menu[j].label);
        assert(usable_label(menu[i].label->0) && usable_label(menu[j].label->0));
    }
    lemma_shortcut_of_item(menu, keyval, i);
}

/// The menu of a listing is `..`, which is opened with the dot, and then the
/// entries of the listing in their order, with their names and styles.
pub proof fn law_menu_shows_the_listing(listed: Seq<ListedView>, i: int)
    requires
        0 <= i < listed.len(),
    ensures
        menu_of(listed).len() == listed.len() + 1,
        menu_of(listed)[0].name == seq!['.', '.'],
        menu_of(listed)[0].label == Some('.'),
        menu_of(listed)[i + 1].name == listed[i].name,
        menu_of(listed)[i + 1].style == listed[i].style,
{
    reveal_strlit("..");
    law_menu_labels(listed);
    assert(".."@ =~= seq!['.', '.']);
}

/// In a menu of at most thirty entries every directory, symlink, executable and
/// unmatched entry has a label, whatever its name, and so has every other one
/// whose extension is that of an image or of a text file. No other entry has
/// one.
pub proof fn law_entries_of_a_menu_are_labelled(listed: Seq<ListedView>, i: int)
    requires
        0 <= i < listed.len() <= 30,
    ensures
        ({
            let e = listed[i];
            let ext = paths::extension(e.name);
            let always = e.style == "dir"@ || e.style == "symlink"@ || e.style == "exe"@ || e.style
                == "unmatched"@;
            let known = ext is Some && (classify::image_ext(ext->0) || classify::text_ext(ext->0));
            menu_of(listed)[i + 1].label is Some <==> always || known
        }),
{
    let slots = menu_slots(listed);
    let rest = listed.map_values(|e: ListedView| entry_slot(e));
    classify::law_what_is_to_be_labelled(listed[i].style, listed[i].name);
    classify::lemma_open_count_behind(parent_slot(), rest);
    assert(slots[i + 1] == entry_slot(listed[i]));
    if slots[i + 1].wants {
        classify::law_enough_labels_for_thirty(slots, i + 1);
    } else {
        classify::law_labels_are_distinct(slots);
        assert(!slots[i + 1].open());
    }
}

/// An entry of a menu that is to be labelled has the first letter of its name
/// as its label, in lower case, if that is a label and no entry before it that
/// is to be labelled begins with the same letter.
pub proof fn law_entry_of_a_menu_has_its_first_letter(listed: Seq<ListedView>, i: int)
    requires
        0 <= i < listed.len(),
        listed[i].name.len() > 0,
        classify::labelable(listed[i].style, listed[i].name),
        classify::label_chars().contains(text::ascii_lower(listed[i].name[0])),
        forall|j: int|
            0 <= j < i && classify::labelable((#[trigger] listed[j]).style, listed[j].name)
                && listed[j].name.len() > 0 ==> text::ascii_lower(listed[j].name[0])
                != text::ascii_lower(listed[i].name[0]),
    ensures
        menu_of(listed)[i + 1].label == Some(text::ascii_lower(listed[i].name[0])),
{
    let slots = menu_slots(listed);
    assert(slots[i + 1] == entry_slot(listed[i]));
    assert forall|j: int|
        0 <= j < i + 1 && (#[trigger] slots[j]).wants && slots[j].label is None
            && slots[j].name.len() > 0 implies text::ascii_lower(slots[j].name[0])
        != text::ascii_lower(slots[i + 1].name[0]) by {
        if j > 0 {
            assert(slots[j] == entry_slot(listed[j - 1]));
            assert(classify::labelable(listed[j - 1].style, listed[j - 1].name));
        }
    }
    classify::law_entry_gets_its_first_letter(slots, i + 1);
}

/// A line of `--ls` is the label between brackets and a space, or four spaces
/// where there is no label, and then the name.
pub proof fn law_line_of_an_entry(listed: Seq<ListedView>, i: int)
    requires
        0 <= i < listed.len(),
    ensures
        ls_lines(listed).len() == listed.len(),
        menu_of(listed)[i + 1].label is Some ==> ls_lines(listed)[i] == seq![
            '[',
            menu_of(listed)[i + 1].label->0,
            ']',
            ' ',
        ] + listed[i].name,
        menu_of(listed)[i + 1].label is None ==> ls_lines(listed)[i] == seq![' ', ' ', ' ', ' ']
            + listed[i].name,
{
}

/// What `--ls` and the menu show of a directory are the entries that are not
/// hidden, in the order of the listing, as many as there are.
pub proof fn law_menu_is_that_of_the_directory(
    found: Seq<FoundView>,
    ignore: Option<Seq<char>>,
    name: Seq<char>,
)
    ensures
        shown_entries(found, ignore).len() == listing::visible(found, ignore).len(),
        (exists|k: int|
            0 <= k < shown_entries(found, ignore).len() && #[trigger] shown_entries(found, ignore)[k].name
                == name) <==> (exists|k: int|
            0 <= k < listing::visible(found, ignore).len() && #[trigger] listing::visible(
                found,
                ignore,
            )[k].name == name),
{
    broadcast use vstd::seq_lib::group_to_multiset_ensures;

    let plain = listing::visible(found, ignore);
    let shown = shown_entries(found, ignore);
    listing::law_listing_is_in_order(plain);
    assert(shown.to_multiset().len() == plain.to_multiset().len());
    if exists|k: int| 0 <= k < shown.len() && #[trigger] shown[k].name == name {
        let k = choose|k: int| 0 <= k < shown.len() && #[trigger] shown[k].name == name;
        assert(shown.contains(shown[k]));
        assert(shown.to_multiset().count(shown[k]) > 0);
        assert(plain.to_multiset().count(shown[k]) > 0);
        assert(plain.contains(shown[k]));
        let m = choose|m: int| 0 <= m < plain.len() && plain[m] == shown[k];
        assert(plain[m].name == name);
    }
    if exists|k: int| 0 <= k < plain.len() && #[trigger] plain[k].name == name {
        let k = choose|k: int| 0 <= k < plain.len() && #[trigger] plain[k].name == name;
        assert(plain.contains(plain[k]));
        assert(plain.to_multiset().count(plain[k]) > 0);
        assert(shown.to_multiset().count(plain[k]) > 0);
        assert(shown.contains(plain[k]));
        let m = choose|m: int| 0 <= m < shown.len() && shown[m] == plain[k];
        assert(shown[m].name == name);
    }
}

/// The shortcuts of a menu: one for each labelled item, in their order, from its
/// label to its name, and none for the others.
pub proof fn law_shortcuts_of_items(items: Seq<ItemView>, item: ItemView)
    ensures
        shortcut_views(Seq::<ItemView>::empty()).len() == 0,
        item.label is None ==> shortcut_views(items.push(item)) == shortcut_views(items),
        item.label is Some ==> shortcut_views(items.push(item)) == shortcut_views(items).push(
            (item.label->0, item.name),
        ),
{
    assert(items.push(item).drop_last() =~= items);
}

proof fn lemma_longest_is_one(items: Seq<ItemView>)
    requires
        items.len() > 0,
    ensures
        exists|i: int| 0 <= i < items.len() && (#[trigger] items[i]).name.len() + 4 == longest(items),
    decreases items.len(),
{
    let front = items.drop_last();
    if front.len() > 0 {
        lemma_longest_is_one(front);
        let i = choose|i: int|
            0 <= i < front.len() && (#[trigger] front[i]).name.len() + 4 == longest(front);
        assert(items[i] == front[i]);
    } else {
        assert(longest(front) == 0);
    }
    assert(items[items.len() - 1] == items.last());
    assert(full_text(items.last()).len() == items.last().name.len() + 4);
}

/// The grid of a menu. Under 300 pixels there is none. A column is as wide as
/// the longest name with its label, of four characters, and two characters
/// more. There are as many columns as fit, but at least one, and no more rows
/// than the items need.
pub proof fn law_grid_fits(items: Seq<ItemView>, char_width_px: i32, avail_width_px: i32)
    requires
        names_fit(items),
        items.len() <= usize::MAX,
    ensures
        avail_width_px < 300 <==> grid_of(items, char_width_px, avail_width_px) is None,
        avail_width_px >= 300 ==> ({
            let g = grid_of(items, char_width_px, avail_width_px)->0;
            let n = items.len();
            let px = g.col_width * if char_width_px < 1 {
                1int
            } else {
                char_width_px as int
            };
            &&& forall|i: int|
                0 <= i < n ==> (#[trigger] items[i]).name.len() + 6 <= g.col_width
            &&& n > 0 ==> exists|i: int|
                0 <= i < n && (#[trigger] items[i]).name.len() + 6 == g.col_width
            &&& n == 0 ==> g.col_width == 2
            &&& g.cols >= 1
            &&& g.cols > 1 ==> g.cols * px <= avail_width_px
            &&& (g.cols + 1) * px > avail_width_px
            &&& g.rows * g.cols >= n
            &&& n > 0 ==> (g.rows - 1) * g.cols < n
            &&& n == 0 ==> g.rows == 0
        }),
{
    if avail_width_px >= 300 {
        let g = grid_of(items, char_width_px, avail_width_px)->0;
        let n = items.len() as int;
        lemma_longest(items);
        if n > 0 {
            lemma_longest_is_one(items);
            let i = choose|i: int|
                0 <= i < items.len() && (#[trigger] items[i]).name.len() + 4 == longest(items);
            assert(items[i].name.len() + 6 == g.col_width);
        }
        assert forall|i: int| 0 <= i < n implies (#[trigger] items[i]).name.len() + 6
            <= g.col_width by {
            assert(full_text(items[i]).len() == items[i].name.len() + 4);
        }
        let ch = at_least_one(char_width_px as int);
        let col = longest(items) + 2;
        let px = col * ch;
        assert(px >= 1) by (nonlinear_arith)
            requires
                px == col * ch,
                col >= 1,
                ch >= 1,
        ;
        let avail = avail_width_px as int;
        let fitting = avail / px;
        vstd::arithmetic::div_mod::lemma_fundamental_div_mod(avail, px);
        vstd::arithmetic::div_mod::lemma_mod_bound(avail, px);
        assert(0 <= fitting <= avail) by (nonlinear_arith)
            requires
                avail == px * fitting + avail % px,
                0 <= avail % px < px,
                avail >= 0,
                px >= 1,
        ;
        let cols = at_least_one(fitting);
        assert(g.cols == cols);
        assert(cols > 1 ==> cols * px <= avail) by (nonlinear_arith)
            requires
                avail == px * fitting + avail % px,
                0 <= avail % px,
                cols > 1 ==> cols == fitting,
        ;
        assert((cols + 1) * px > avail) by (nonlinear_arith)
            requires
                avail == px * fitting + avail % px,
                avail % px < px,
                cols >= fitting,
                px >= 1,
        ;
        lemma_ceiling(n, cols);
        let rows = (n + cols - 1) / cols;
        assert(rows <= n) by {
            if n % cols == 0 {
                assert(rows == n / cols);
            }
        }
        assert(rows >= 0) by (nonlinear_arith)
            requires
                rows == (n + cols - 1) / cols,
                n >= 0,
                cols >= 1,
        ;
        assert(g.rows == rows);
        let top = n + cols - 1;
        vstd::arithmetic::div_mod::lemma_fundamental_div_mod(top, cols);
        vstd::arithmetic::div_mod::lemma_mod_bound(top, cols);
        assert(n > 0 ==> (rows - 1) * cols < n) by (nonlinear_arith)
            requires
                top == n + cols - 1,
                top == cols * rows + top % cols,
                0 <= top % cols,
        ;
        assert(n == 0 ==> rows == 0);
    }
}

proof fn lemma_places_are_items(n: int, rows: int, row: int, cols: int)
    ensures
        forall|c: int|
            0 <= c < row_places(n, rows, row, cols).len() ==> #[trigger] row_places(
                n,
                rows,
                row,
                cols,
            )[c] < n,
    decreases cols,
{
    if cols > 0 {
        lemma_places_are_items(n, rows, row, cols - 1);
        let left = row_places(n, rows, row, cols - 1);
        assert forall|c: int| 0 <= c < row_places(n, rows, row, cols).len() implies #[trigger]
            row_places(n, rows, row, cols)[c] < n by {
            if c < left.len() {
                assert(row_places(n, rows, row, cols)[c] == left[c]);
            }
        }
    }
}

/// The items run down the columns: in a row, the cell of a column shows the item
/// that has the number of the column times the rows, and of the row, before it;
/// where there is no such item there is no cell. A cell shows the label, the
/// name and the style of its item, and is filled up with spaces.
pub proof fn law_cell_shows_its_item(items: Seq<ItemView>, grid: Grid, row: int, col: int)
    requires
        0 <= row < grid.rows,
        0 <= col < grid.cols,
    ensures
        ({
            let cells = row_of(items, grid, row);
            let at = col * grid.rows + row;
            &&& col < cells.len() <==> at < items.len()
            &&& at < items.len() ==> ({
                let (cell, item) = (cells[col], items[at]);
                &&& cell.name == item.name
                &&& cell.style == item.style
                &&& item.label is Some ==> cell.label == seq!['[', item.label->0, ']', ' ']
                &&& item.label is None ==> cell.label == seq![' ', ' ', ' ', ' ']
                &&& cell.padding.len() == if item.name.len() + 5 < grid.col_width {
                    grid.col_width - item.name.len() - 5
                } else {
                    0
                }
                &&& forall|k: int| 0 <= k < cell.padding.len() ==> cell.padding[k] == ' '
            })
        }),
{
    let n = items.len() as int;
    let (rows, cols) = (grid.rows as int, grid.cols as int);
    let places = row_places(n, rows, row, cols);
    let at = col * rows + row;
    lemma_row_len(n, rows, row, cols);
    lemma_places_are_items(n, rows, row, cols);
    if col < places.len() {
        lemma_row_place(n, rows, row, cols, col);
        assert(places[col] < n);
    }
    assert(at >= 0) by (nonlinear_arith)
        requires
            at == col * rows + row,
            col >= 0,
            rows >= 0,
            row >= 0,
    ;
    if at < n {
        lemma_row_places(n, rows, row, cols, col);
        assert(row_of(items, grid, row)[col] == cell_of(items[at], grid.col_width as int));
        assert(full_text(items[at]).len() == items[at].name.len() + 4);
    }
}

/// The label of a cell is what stands between brackets at its beginning; text
/// that does not begin so has none.
pub proof fn law_label_stands_between_brackets(c: char, rest: Seq<char>, text: Seq<char>)
    ensures
        key_of(seq!['[', c, ']'] + rest) == Some(c),
        key_of(text) is Some ==> text.len() >= 3 && text[0] == '[' && text[2] == ']',
        text.len() > 0 && text[0] != '[' ==> key_of(text) is None,
{
}

/// Both ways of showing a directory agree: line by line, `--ls` prints the items
/// of the menu behind `..`, each with its label between brackets or as much
/// blank space, and its name.
pub proof fn law_ls_prints_the_menu(
    found: &Vec<Found>,
    ignore: Option<&IgnoreRegex>,
    lines: Vec<String>,
    menu: Vec<MenuItem>,
    i: int,
)
    requires
        call_ensures(run_ls, (found, ignore), lines),
        call_ensures(menu_for, (found, ignore), menu),
        0 <= i < lines@.len(),
    ensures
        menu@.len() == lines@.len() + 1,
        menu@[i + 1].label_char is Some ==> lines@[i]@ == seq![
            '[',
            menu@[i + 1].label_char->0,
            ']',
            ' ',
        ] + menu@[i + 1].name@,
        menu@[i + 1].label_char is None ==> lines@[i]@ == seq![' ', ' ', ' ', ' '] + menu@[i
            + 1].name@,
{
    let pattern = match ignore {
        Some(re) => Some(re@),
        None => None,
    };
    let listed = shown_entries(listing::found_views(found@), pattern);
    let texts = text::views(lines@);
    let items = item_views(menu@);
    assert(texts == ls_lines(listed));
    assert(items == menu_of(listed));
    assert(texts.len() == lines@.len() && items.len() == menu@.len());
    assert(texts[i] == lines@[i]@);
    assert(items[i + 1] == menu@[i + 1]@);
    law_line_of_an_entry(listed, i);
    law_menu_shows_the_listing(listed, i);
}

/// In the menu of a directory that shows at most thirty entries, every entry of
/// which nothing is known but that it is there has a label.
pub proof fn law_unmatched_entries_have_shortcuts(
    found: &Vec<Found>,
    ignore: Option<&IgnoreRegex>,
    menu: Vec<MenuItem>,
    i: int,
)
    requires
        call_ensures(menu_for, (found, ignore), menu),
        0 < i < menu@.len() <= 31,
        menu@[i].style@ == "unmatched"@ || menu@[i].style@ == "dir"@ || menu@[i].style@ == "symlink"@
            || menu@[i].style@ == "exe"@,
    ensures
        menu@[i].label_char is Some,
{
    let pattern = match ignore {
        Some(re) => Some(re@),
        None => None,
    };
    let listed = shown_entries(listing::found_views(found@), pattern);
    let items = item_views(menu@);
    assert(items == menu_of(listed));
    assert(items.len() == menu@.len());
    assert(items[i] == menu@[i]@);
    law_menu_shows_the_listing(listed, i - 1);
    law_entries_of_a_menu_are_labelled(listed, i - 1);
}

/// What the menu and `--ls` show of a directory is in the order of the
/// alphabet, directories and symlinks first, and each entry is one that was
/// found, with its style.
pub proof fn law_shown_entries_ascend(
    found: Seq<FoundView>,
    ignore: Option<Seq<char>>,
    i: int,
    j: int,
    k: int,
)
    requires
        0 <= i < j < shown_entries(found, ignore).len(),
    ensures
        ({
            let (a, b) = (shown_entries(found, ignore)[i], shown_entries(found, ignore)[j]);
            let a_first = a.style == "dir"@ || a.style == "symlink"@;
            let b_first = b.style == "dir"@ || b.style == "symlink"@;
            &&& b_first ==> a_first
            &&& a_first == b_first && 0 <= k < a.name.len() && k <= b.name.len() && a.name.take(k)
                == b.name.take(k) ==> k < b.name.len() && a.name[k] as u32 <= b.name[k] as u32
            &&& exists|m: int| 0 <= m < found.len() && listing::styled(#[trigger] found[m]) == a
        }),
{
    broadcast use vstd::seq_lib::group_to_multiset_ensures;

    let plain = listing::visible(found, ignore);
    let shown = shown_entries(found, ignore);
    listing::law_listing_is_alphabetical(plain, i, j, k);
    listing::law_listing_is_in_order(plain);
    assert(shown.to_multiset().count(shown[i]) > 0) by {
        assert(shown.contains(shown[i]));
    }
    assert(plain.contains(shown[i]));
    listing::law_hidden_entries_are_not_listed(found, ignore, shown[i]);
}

/// The grid, the cells of a row, the label of a cell and the shortcuts, as they
/// are given.
pub proof fn law_what_a_menu_gives(
    items: &Vec<MenuItem>,
    char_width_px: i32,
    avail_width_px: i32,
    grid: Option<Grid>,
    row: usize,
    cells: Vec<Cell>,
    pairs: Vec<(char, String)>,
)
    requires
        call_ensures(layout, (items, char_width_px, avail_width_px), grid),
        grid is Some,
        call_ensures(render_row, (items, &grid->0, row), cells),
        call_ensures(shortcut_pairs, (items,), pairs),
    ensures
        avail_width_px >= 300,
        grid == grid_of(item_views(items@), char_width_px, avail_width_px),
        cell_views(cells@) == row_of(item_views(items@), grid->0, row as int),
        pair_views(pairs@) == shortcut_views(item_views(items@)),
{
}

/// The label that is read off a cell is what stands between the brackets at its
/// beginning.
pub proof fn law_label_that_is_read(text: &str, r: Option<char>)
    requires
        call_ensures(label_key, (text,), r),
    ensures
        text@.len() >= 3 && text@[0] == '[' && text@[2] == ']' ==> r == Some(text@[1]),
        !(text@.len() >= 3 && text@[0] == '[' && text@[2] == ']') ==> r is None,
{
}

/// The menu that is built of a listing is the menu of it.
pub proof fn law_menu_that_is_built(listed: &Vec<Listed>, r: Vec<MenuItem>, i: int)
    requires
        call_ensures(build_menu, (listed,), r),
        0 <= i < listed@.len(),
    ensures
        r@.len() == listed@.len() + 1,
        r@[0].name@ == seq!['.', '.'] && r@[0].label_char == Some('.'),
        r@[i + 1].name@ == listed@[i].name@ && r@[i + 1].style@ == listed@[i].style@,
        listed@.len() <= 30 && (listed@[i].style@ == "dir"@ || listed@[i].style@ == "unmatched"@)
            ==> r@[i + 1].label_char is Some,
{
    let views = listing::listed_views(listed@);
    let items = item_views(r@);
    assert(items == menu_of(views));
    assert(items.len() == r@.len());
    assert(items[0] == r@[0]@ && items[i + 1] == r@[i + 1]@);
    assert(views[i] == listed@[i]@);
    law_menu_shows_the_listing(views, i);
    if listed@.len() <= 30 {
        law_entries_of_a_menu_are_labelled(views, i);
    }
}

} // verus!
