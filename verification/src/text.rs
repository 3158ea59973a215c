//! Strings as sequences of characters: what the rest of the library reads off
//! them, and the few things it takes from `std`.

use vstd::prelude::*;
use vstd::utf8::*;

verus! {

/// The Unicode `White_Space` property.
pub open spec fn white_space(c: char) -> bool {
    ||| '\u{9}' <= c <= '\u{d}'
    ||| c == ' '
    ||| c == '\u{85}'
    ||| c == '\u{a0}'
    ||| c == '\u{1680}'
    ||| '\u{2000}' <= c <= '\u{200a}'
    ||| c == '\u{2028}'
    ||| c == '\u{2029}'
    ||| c == '\u{202f}'
    ||| c == '\u{205f}'
    ||| c == '\u{3000}'
}

/// `A` to `Z` become `a` to `z`; every other character stays.
pub open spec fn ascii_lower(c: char) -> char {
    if 'A' <= c <= 'Z' {
        (c as u32 + 32) as char
    } else {
        c
    }
}

/// `a` to `z` become `A` to `Z`; every other character stays.
pub open spec fn ascii_upper(c: char) -> char {
    if 'a' <= c <= 'z' {
        (c as u32 - 32) as char
    } else {
        c
    }
}

pub open spec fn all_ascii(s: Seq<char>) -> bool {
    forall|i: int| 0 <= i < s.len() ==> (#[trigger] s[i]) as u32 <= 127
}

pub open spec fn ascii_lower_all(s: Seq<char>) -> Seq<char> {
    s.map_values(|c: char| ascii_lower(c))
}

pub open spec fn ascii_upper_all(s: Seq<char>) -> Seq<char> {
    s.map_values(|c: char| ascii_upper(c))
}

/// What `str::to_lowercase` makes of a string that is not all ASCII.
pub uninterp spec fn unicode_lowercase(s: Seq<char>) -> Seq<char>;

/// What `str::to_uppercase` makes of a string that is not all ASCII.
pub uninterp spec fn unicode_uppercase(s: Seq<char>) -> Seq<char>;

pub open spec fn lowercase(s: Seq<char>) -> Seq<char> {
    if all_ascii(s) {
        ascii_lower_all(s)
    } else {
        unicode_lowercase(s)
    }
}

/// ASCII text without a `k`: no character but an ASCII one becomes part of it
/// in lower case.
pub open spec fn plain_lower(s: Seq<char>) -> bool {
    all_ascii(s) && !s.contains('k')
}

/// `str::to_lowercase`: ASCII text is lowercased character by character; what
/// Unicode makes of any other text is left to the name. Of the characters that
/// are not ASCII, only the Kelvin sign has a lower case that is, a `k`. So the
/// lower case of text that is not ASCII is not ASCII either or holds a `k`, and
/// an end of it that is ASCII and holds none is that of the ASCII characters at
/// the end of the text.
pub assume_specification[ str::to_lowercase ](s: &str) -> (r: String)
    ensures
        all_ascii(s@) ==> r@ == ascii_lower_all(s@),
        !all_ascii(s@) ==> r@ == unicode_lowercase(s@),
        !all_ascii(s@) ==> !all_ascii(r@) || r@.contains('k'),
        forall|end: Seq<char>|
            plain_lower(end) ==> #[trigger] has_suffix(r@, end) == has_suffix(
                ascii_lower_all(s@),
                end,
            ),
;

/// `str::to_uppercase`: ASCII text is uppercased character by character; what
/// Unicode makes of any other text is left to the name. No character that is
/// not ASCII gives an `R`, `E`, `D` or `M`, and the one that gives an `A` puts a
/// character that is not ASCII behind it; so a `README` in the upper case is
/// that of ASCII letters.
pub assume_specification[ str::to_uppercase ](s: &str) -> (r: String)
    ensures
        all_ascii(s@) ==> r@ == ascii_upper_all(s@),
        !all_ascii(s@) ==> r@ == unicode_uppercase(s@),
        has_part(r@, "README"@) == has_part(ascii_upper_all(s@), "README"@),
;

/// `str::eq_ignore_ascii_case`: equality after ASCII lowercasing.
pub assume_specification[ str::eq_ignore_ascii_case ](s: &str, other: &str) -> (r: bool)
    ensures
        r == (ascii_lower_all(s@) == ascii_lower_all(other@)),
;

/// `char::is_whitespace`: the `White_Space` property.
pub assume_specification[ char::is_whitespace ](c: char) -> (r: bool)
    ensures
        r == white_space(c),
;

/// `char::to_ascii_lowercase`: only `A` to `Z` change.
pub assume_specification[ char::to_ascii_lowercase ](c: &char) -> (r: char)
    ensures
        r == ascii_lower(*c),
;

/// `String::push`: one character more at the end.
pub assume_specification[ String::push ](s: &mut String, c: char)
    ensures
        final(s)@ == old(s)@.push(c),
;

/// `String::push_str`: the characters of `t` more at the end.
pub assume_specification[ String::push_str ](s: &mut String, t: &str)
    ensures
        final(s)@ == old(s)@ + t@,
;

/// `str`'s `==`: the same characters.
pub assume_specification[ <str as PartialEq<str>>::eq ](a: &str, b: &str) -> (r: bool)
    ensures
        r == (a@ == b@),
;

/// `str::trim`: no white space is left at either end.
pub assume_specification[ str::trim ](s: &str) -> (r: &str)
    ensures
        r@ == trimmed(s@),
;

/// `a` comes before `b` in the order of the code points, as in a dictionary.
pub open spec fn lex_before(a: Seq<char>, b: Seq<char>) -> bool
    decreases a.len(),
{
    if b.len() == 0 {
        false
    } else if a.len() == 0 {
        true
    } else if a[0] == b[0] {
        lex_before(a.drop_first(), b.drop_first())
    } else {
        (a[0] as u32) < (b[0] as u32)
    }
}

/// Whether `a` comes before `b` in the order of the code points.
pub fn is_before(a: &str, b: &str) -> (r: bool)
    ensures
        r == lex_before(a@, b@),
{
    let first = chars_of(a);
    let second = chars_of(b);
    let mut i: usize = 0;
    assert(a@.skip(0) =~= a@);
    assert(b@.skip(0) =~= b@);
    while i < first.len() && i < second.len() && first[i] == second[i]
        invariant
            first@ == a@,
            second@ == b@,
            i <= a@.len(),
            i <= b@.len(),
            lex_before(a@, b@) == lex_before(a@.skip(i as int), b@.skip(i as int)),
        decreases a@.len() - i,
    {
        assert(a@.skip(i as int).drop_first() =~= a@.skip(i + 1));
        assert(b@.skip(i as int).drop_first() =~= b@.skip(i + 1));
        i += 1;
    }
    if i == second.len() {
        false
    } else if i == first.len() {
        true
    } else {
        let x: char = first[i];
        let y: char = second[i];
        (x as u32) < (y as u32)
    }
}

/// What `String::from_utf8_lossy` makes of bytes that are not UTF-8.
pub uninterp spec fn utf8_repaired(bytes: Seq<u8>) -> Seq<char>;

/// The text of `bytes`, with a replacement character for what is not UTF-8.
pub open spec fn lossy_text(bytes: Seq<u8>) -> Seq<char> {
    if valid_utf8(bytes) {
        decode_utf8(bytes)
    } else {
        utf8_repaired(bytes)
    }
}

/// `String::from_utf8_lossy`: valid UTF-8 is decoded as it stands; what any
/// other bytes become is left to the name.
#[verifier::external_body]
pub(crate) fn from_utf8_lossy(bytes: &[u8]) -> (r: String)
    ensures
        valid_utf8(bytes@) ==> r@ == decode_utf8(bytes@),
        !valid_utf8(bytes@) ==> r@ == utf8_repaired(bytes@),
{
    String::from_utf8_lossy(bytes).into_owned()
}

pub open spec fn trim_start(s: Seq<char>) -> Seq<char>
    decreases s.len(),
{
    if s.len() > 0 && white_space(s[0]) {
        trim_start(s.drop_first())
    } else {
        s
    }
}

pub open spec fn trim_end(s: Seq<char>) -> Seq<char>
    decreases s.len(),
{
    if s.len() > 0 && white_space(s.last()) {
        trim_end(s.drop_last())
    } else {
        s
    }
}

/// `s` without the white space at its ends.
pub open spec fn trimmed(s: Seq<char>) -> Seq<char> {
    trim_end(trim_start(s))
}

/// How many characters of `s` come before its first white space.
pub open spec fn word_len(s: Seq<char>) -> nat
    decreases s.len(),
{
    if s.len() == 0 || white_space(s[0]) {
        0
    } else {
        1 + word_len(s.drop_first())
    }
}

pub proof fn lemma_word_len(s: Seq<char>)
    ensures
        word_len(s) <= s.len(),
    decreases s.len(),
{
    if s.len() > 0 && !white_space(s[0]) {
        lemma_word_len(s.drop_first());
    }
}

/// The maximal runs of characters other than white space, in their order.
pub open spec fn words(s: Seq<char>) -> Seq<Seq<char>>
    decreases s.len(),
{
    if s.len() == 0 {
        seq![]
    } else if white_space(s[0]) {
        words(s.drop_first())
    } else {
        proof {
            lemma_word_len(s);
        }
        seq![s.take(word_len(s) as int)] + words(s.skip(word_len(s) as int))
    }
}

pub open spec fn views(v: Seq<String>) -> Seq<Seq<char>> {
    v.map_values(|s: String| s@)
}

/// Whether two strings hold the same characters.
pub fn same(a: &str, b: &str) -> (r: bool)
    ensures
        r == (a@ == b@),
{
    *a == *b
}

/// The characters of `s`.
pub fn chars_of(s: &str) -> (r: Vec<char>)
    ensures
        r@ == s@,
{
    let mut r: Vec<char> = Vec::new();
    for c in it: s.chars()
        invariant
            r@ == s@.take(it.index()),
            it.seq() == s@,
    {
        r.push(c);
    }
    r
}

/// The first character of `s`.
pub fn first_char(s: &str) -> (r: Option<char>)
    ensures
        r == if s@.len() > 0 {
            Some(s@[0])
        } else {
            None
        },
{
    s.chars().next()
}

/// The string of the characters `from` to `to` (exclusive) of `chars`.
pub fn string_of(chars: &Vec<char>, from: usize, to: usize) -> (r: String)
    requires
        from <= to <= chars@.len(),
    ensures
        r@ == chars@.subrange(from as int, to as int),
{
    let mut r = String::new();
    let mut i: usize = from;
    while i < to
        invariant
            from <= i <= to <= chars@.len(),
            r@ == chars@.subrange(from as int, i as int),
        decreases to - i,
    {
        r.push(chars[i]);
        i += 1;
    }
    r
}

/// Whether the first character of `s` is `c`.
pub fn starts_with_char(s: &str, c: char) -> (r: bool)
    ensures
        r == (s@.len() > 0 && s@[0] == c),
{
    match first_char(s) {
        Some(first) => first == c,
        None => false,
    }
}

/// Whether `part` stands in `chars` from position `at` on.
fn stands_at(chars: &Vec<char>, part: &Vec<char>, at: usize) -> (r: bool)
    requires
        at + part@.len() <= chars@.len(),
    ensures
        r == (chars@.subrange(at as int, at + part@.len()) == part@),
{
    let total: usize = chars.len();
    let mut i: usize = 0;
    while i < part.len()
        invariant
            i <= part@.len(),
            at + part@.len() <= chars@.len(),
            total == chars@.len(),
            forall|j: int| 0 <= j < i ==> chars@[at + j] == part@[j],
        decreases part@.len() - i,
    {
        if chars[at + i] != part[i] {
            assert(chars@.subrange(at as int, at + part@.len())[i as int] != part@[i as int]);
            return false;
        }
        i += 1;
    }
    assert(chars@.subrange(at as int, at + part@.len()) =~= part@);
    true
}

/// `s` ends in `part`.
pub open spec fn has_suffix(s: Seq<char>, part: Seq<char>) -> bool {
    &&& part.len() <= s.len()
    &&& s.skip(s.len() - part.len()) == part
}

pub fn ends_with(s: &str, part: &str) -> (r: bool)
    ensures
        r == has_suffix(s@, part@),
{
    let chars = chars_of(s);
    let tail = chars_of(part);
    assert(tail@.len() <= chars@.len() ==> chars@.skip(chars@.len() - tail@.len())
        =~= chars@.subrange(chars@.len() - tail@.len(), chars@.len() as int));
    tail.len() <= chars.len() && stands_at(&chars, &tail, chars.len() - tail.len())
}

/// `s` begins with `part`.
pub open spec fn has_prefix(s: Seq<char>, part: Seq<char>) -> bool {
    &&& part.len() <= s.len()
    &&& s.take(part.len() as int) == part
}

/// What follows `part` in `s`, if `s` begins with it.
pub fn strip_prefix(s: &str, part: &str) -> (r: Option<String>)
    ensures
        match r {
            Some(rest) => has_prefix(s@, part@) && rest@ == s@.skip(part@.len() as int),
            None => !has_prefix(s@, part@),
        },
{
    let chars = chars_of(s);
    let head = chars_of(part);
    if head.len() <= chars.len() {
        assert(chars@.take(head@.len() as int) =~= chars@.subrange(0, head@.len() as int));
        if stands_at(&chars, &head, 0) {
            assert(chars@.skip(head@.len() as int) =~= chars@.subrange(
                head@.len() as int,
                chars@.len() as int,
            ));
            return Some(string_of(&chars, head.len(), chars.len()));
        }
    }
    None
}

/// `part` stands somewhere in `s`.
pub open spec fn has_part(s: Seq<char>, part: Seq<char>) -> bool {
    exists|at: int| 0 <= at <= s.len() - part.len() && #[trigger] s.subrange(at, at + part.len()) == part
}

pub fn contains(s: &str, part: &str) -> (r: bool)
    ensures
        r == has_part(s@, part@),
{
    let chars = chars_of(s);
    let piece = chars_of(part);
    if piece.len() > chars.len() {
        return false;
    }
    let last: usize = chars.len() - piece.len();
    let mut at: usize = 0;
    loop
        invariant
            chars@ == s@,
            piece@ == part@,
            last == chars@.len() - piece@.len(),
            at <= last,
            forall|j: int| 0 <= j < at ==> #[trigger] s@.subrange(j, j + part@.len()) != part@,
        decreases last - at,
    {
        if stands_at(&chars, &piece, at) {
            return true;
        }
        if at == last {
            return false;
        }
        at += 1;
    }
}

/// The position of the first `c` in `s`, or the length of `s`.
pub open spec fn first_at(s: Seq<char>, c: char) -> int
    decreases s.len(),
{
    if s.len() == 0 || s[0] == c {
        0
    } else {
        1 + first_at(s.drop_first(), c)
    }
}

/// [`first_at`] is where the first `c` stands.
pub proof fn lemma_first_at(s: Seq<char>, c: char)
    ensures
        0 <= first_at(s, c) <= s.len(),
        first_at(s, c) < s.len() ==> s[first_at(s, c)] == c,
        forall|i: int| 0 <= i < first_at(s, c) ==> s[i] != c,
    decreases s.len(),
{
    if s.len() > 0 && s[0] != c {
        let rest = s.drop_first();
        lemma_first_at(rest, c);
        assert forall|i: int| 0 <= i < first_at(s, c) implies s[i] != c by {
            if i > 0 {
                assert(rest[i - 1] == s[i]);
            }
        }
    }
}

/// The position of the first `c`, or the number of characters.
pub fn find_char(chars: &Vec<char>, c: char) -> (r: usize)
    ensures
        r == first_at(chars@, c),
{
    let mut i: usize = 0;
    assert(chars@.skip(0) =~= chars@);
    while i < chars.len() && chars[i] != c
        invariant
            i <= chars@.len(),
            first_at(chars@, c) == i + first_at(chars@.skip(i as int), c),
        decreases chars@.len() - i,
    {
        assert(chars@.skip(i as int).drop_first() =~= chars@.skip(i + 1));
        i += 1;
    }
    i
}

/// The words of `s`: what stands between its white space.
pub fn split_words(s: &str) -> (r: Vec<String>)
    ensures
        views(r@) == words(s@),
{
    let chars = chars_of(s);
    let mut out: Vec<String> = Vec::new();
    let mut i: usize = 0;
    assert(chars@.skip(0) =~= chars@);
    assert(views(out@) + words(chars@) =~= words(chars@));
    while i < chars.len()
        invariant
            i <= chars@.len(),
            words(chars@) == views(out@) + words(chars@.skip(i as int)),
        decreases chars@.len() - i,
    {
        let ghost rest = chars@.skip(i as int);
        if chars[i].is_whitespace() {
            assert(rest.drop_first() =~= chars@.skip(i + 1));
            i += 1;
        } else {
            let start: usize = i;
            proof {
                lemma_word_len(rest);
            }
            while i < chars.len() && !chars[i].is_whitespace()
                invariant
                    start <= i <= chars@.len(),
                    rest == chars@.skip(start as int),
                    word_len(rest) == (i - start) + word_len(chars@.skip(i as int)),
                decreases chars@.len() - i,
            {
                assert(chars@.skip(i as int).drop_first() =~= chars@.skip(i + 1));
                i += 1;
            }
            proof {
                assert(word_len(chars@.skip(i as int)) == 0);
                assert(rest.take(word_len(rest) as int) =~= chars@.subrange(start as int, i as int));
                assert(rest.skip(word_len(rest) as int) =~= chars@.skip(i as int));
            }
            let word = string_of(&chars, start, i);
            let ghost before = views(out@);
            out.push(word);
            assert(i > start);
            assert(views(out@) =~= before.push(word@));
            assert(before + (seq![word@] + words(chars@.skip(i as int))) =~= before.push(word@)
                + words(chars@.skip(i as int)));
        }
    }
    assert(chars@.skip(i as int) =~= Seq::<char>::empty());
    assert(views(out@) + words(Seq::<char>::empty()) =~= views(out@));
    out
}

/// `n` spaces.
pub fn spaces(n: usize) -> (r: String)
    ensures
        r@ == Seq::new(n as nat, |i: int| ' '),
{
    let mut r = String::new();
    let mut i: usize = 0;
    while i < n
        invariant
            i <= n,
            r@ == Seq::new(i as nat, |j: int| ' '),
        decreases n - i,
    {
        r.push(' ');
        i += 1;
    }
    r
}

/// The decimal digits of `n`.
pub open spec fn decimal_digits(n: nat) -> Seq<char>
    decreases n,
{
    let last = ('0' as u32 + n % 10) as char;
    if n < 10 {
        seq![last]
    } else {
        decimal_digits(n / 10).push(last)
    }
}

/// `n` in decimal.
pub fn decimal(n: u32) -> (r: String)
    ensures
        r@ == decimal_digits(n as nat),
    decreases n,
{
    let digit: u8 = (n % 10) as u8;
    let last = (48u8 + digit) as char;
    let mut r = if n < 10 {
        String::new()
    } else {
        decimal(n / 10)
    };
    r.push(last);
    r
}

/// Of two texts that agree up to a place, the one with the smaller character
/// there comes first, whichever characters these are; so does one that ends
/// there where the other goes on. No text comes before itself.
pub proof fn law_order_is_that_of_the_first_difference(a: Seq<char>, b: Seq<char>, i: int)
    requires
        0 <= i <= a.len(),
        i <= b.len(),
        a.take(i) == b.take(i),
    ensures
        i < a.len() && i < b.len() && (a[i] as u32) < (b[i] as u32) ==> lex_before(a, b)
            && !lex_before(b, a),
        i == a.len() && i < b.len() ==> lex_before(a, b) && !lex_before(b, a),
        i == a.len() && i == b.len() ==> !lex_before(a, b),
    decreases i,
{
    if i > 0 {
        assert(a.take(i)[0] == a[0] && b.take(i)[0] == b[0]);
        let (x, y) = (a.drop_first(), b.drop_first());
        assert(x.take(i - 1) =~= a.take(i).drop_first());
        assert(y.take(i - 1) =~= b.take(i).drop_first());
        law_order_is_that_of_the_first_difference(x, y, i - 1);
    }
}

/// In lower case a capital ASCII letter is the letter 32 code points on, and in
/// upper case it comes back from there; nothing else changes.
pub proof fn law_ascii_case(c: char)
    ensures
        ('A' <= c && c <= 'Z') ==> ascii_lower(c) as u32 == c as u32 + 32 && ascii_upper(
            ascii_lower(c),
        ) == c,
        !('A' <= c && c <= 'Z') ==> ascii_lower(c) == c,
        ('a' <= c && c <= 'z') ==> ascii_upper(c) as u32 == c as u32 - 32 && ascii_lower(
            ascii_upper(c),
        ) == c,
        !('a' <= c && c <= 'z') ==> ascii_upper(c) == c,
{
}

/// The white space of ASCII: the space, and the controls from tab to carriage
/// return.
pub proof fn law_ascii_white_space(c: char)
    requires
        c as u32 <= 127,
    ensures
        white_space(c) <==> c == ' ' || (9 <= c as u32 <= 13),
{
}

/// Text in lower or upper case is as long as before, where it is ASCII, and
/// each of its characters is in that case.
pub proof fn law_case_of_ascii_text(s: Seq<char>, i: int)
    requires
        forall|j: int| 0 <= j < s.len() ==> (#[trigger] s[j]) as u32 <= 127,
        0 <= i < s.len(),
    ensures
        lowercase(s).len() == s.len(),
        lowercase(s)[i] == ascii_lower(s[i]),
        ascii_upper_all(s).len() == s.len(),
        ascii_upper_all(s)[i] == ascii_upper(s[i]),
{
}

pub open spec fn all_white(s: Seq<char>) -> bool {
    forall|i: int| 0 <= i < s.len() ==> white_space(#[trigger] s[i])
}

pub open spec fn none_white(s: Seq<char>) -> bool {
    forall|i: int| 0 <= i < s.len() ==> !white_space(#[trigger] s[i])
}

proof fn lemma_trim_start(lead: Seq<char>, rest: Seq<char>)
    requires
        all_white(lead),
        rest.len() == 0 || !white_space(rest[0]),
    ensures
        trim_start(lead + rest) == rest,
    decreases lead.len(),
{
    let s = lead + rest;
    if lead.len() == 0 {
        assert(s =~= rest);
    } else {
        assert(white_space(lead[0]));
        assert(s.drop_first() =~= lead.drop_first() + rest);
        assert(all_white(lead.drop_first())) by {
            assert forall|i: int| 0 <= i < lead.drop_first().len() implies white_space(
                #[trigger] lead.drop_first()[i],
            ) by {
                assert(lead.drop_first()[i] == lead[i + 1]);
            }
        }
        lemma_trim_start(lead.drop_first(), rest);
    }
}

proof fn lemma_trim_end(rest: Seq<char>, tail: Seq<char>)
    requires
        all_white(tail),
        rest.len() == 0 || !white_space(rest.last()),
    ensures
        trim_end(rest + tail) == rest,
    decreases tail.len(),
{
    let s = rest + tail;
    if tail.len() == 0 {
        assert(s =~= rest);
    } else {
        assert(white_space(tail[tail.len() - 1]));
        assert(s.drop_last() =~= rest + tail.drop_last());
        assert(all_white(tail.drop_last())) by {
            assert forall|i: int| 0 <= i < tail.drop_last().len() implies white_space(
                #[trigger] tail.drop_last()[i],
            ) by {
                assert(tail.drop_last()[i] == tail[i]);
            }
        }
        lemma_trim_end(rest, tail.drop_last());
    }
}

/// Trimming takes away the white space around a text that has none at its ends,
/// all of it and nothing else.
pub proof fn law_trimmed_is_what_stands_between(lead: Seq<char>, core: Seq<char>, tail: Seq<char>)
    requires
        all_white(lead),
        all_white(tail),
        core.len() == 0 || (!white_space(core[0]) && !white_space(core.last())),
    ensures
        trimmed(lead + core + tail) == core,
{
    let s = lead + core + tail;
    if core.len() == 0 {
        let none = Seq::<char>::empty();
        assert(s =~= (lead + tail) + none);
        assert(all_white(lead + tail)) by {
            assert forall|i: int| 0 <= i < (lead + tail).len() implies white_space(
                #[trigger] (lead + tail)[i],
            ) by {
                if i < lead.len() {
                    assert(white_space(lead[i]));
                } else {
                    assert(white_space(tail[i - lead.len()]));
                }
            }
        }
        lemma_trim_start(lead + tail, none);
        assert(core =~= none);
    } else {
        assert(s =~= lead + (core + tail));
        assert((core + tail)[0] == core[0]);
        lemma_trim_start(lead, core + tail);
        lemma_trim_end(core, tail);
    }
}

proof fn lemma_words_of_white(lead: Seq<char>, rest: Seq<char>)
    requires
        all_white(lead),
    ensures
        words(lead + rest) == words(rest),
    decreases lead.len(),
{
    let s = lead + rest;
    if lead.len() == 0 {
        assert(s =~= rest);
    } else {
        assert(white_space(lead[0]));
        assert(s.drop_first() =~= lead.drop_first() + rest);
        assert(all_white(lead.drop_first())) by {
            assert forall|i: int| 0 <= i < lead.drop_first().len() implies white_space(
                #[trigger] lead.drop_first()[i],
            ) by {
                assert(lead.drop_first()[i] == lead[i + 1]);
            }
        }
        lemma_words_of_white(lead.drop_first(), rest);
    }
}

proof fn lemma_word_len_is(word: Seq<char>, rest: Seq<char>)
    requires
        none_white(word),
        rest.len() == 0 || white_space(rest[0]),
    ensures
        word_len(word + rest) == word.len(),
    decreases word.len(),
{
    let s = word + rest;
    if word.len() == 0 {
        assert(s =~= rest);
    } else {
        assert(!white_space(word[0]));
        assert(s.drop_first() =~= word.drop_first() + rest);
        assert(none_white(word.drop_first())) by {
            assert forall|i: int| 0 <= i < word.drop_first().len() implies !white_space(
                #[trigger] word.drop_first()[i],
            ) by {
                assert(word.drop_first()[i] == word[i + 1]);
            }
        }
        lemma_word_len_is(word.drop_first(), rest);
    }
}

/// The words of a text: white space alone has none, and a run of other
/// characters that white space or the end of the text follows is one word, with
/// the words of what follows behind it. White space before it does not count.
pub proof fn law_words_are_the_runs(lead: Seq<char>, word: Seq<char>, rest: Seq<char>)
    requires
        all_white(lead),
        word.len() > 0,
        none_white(word),
        rest.len() == 0 || white_space(rest[0]),
    ensures
        words(lead) == Seq::<Seq<char>>::empty(),
        words(lead + word + rest) == seq![word] + words(rest),
{
    let none = Seq::<char>::empty();
    lemma_words_of_white(lead, none);
    assert(lead + none =~= lead);
    assert(words(none) =~= Seq::<Seq<char>>::empty());
    let s = word + rest;
    assert(lead + word + rest =~= lead + s);
    lemma_words_of_white(lead, s);
    lemma_word_len_is(word, rest);
    assert(!white_space(word[0]));
    assert(s[0] == word[0]);
    assert(s.take(word.len() as int) =~= word);
    assert(s.skip(word.len() as int) =~= rest);
}

/// A text begins with, ends in and holds exactly the texts that it can be put
/// together from.
pub proof fn law_parts_of_a_text(a: Seq<char>, part: Seq<char>, b: Seq<char>)
    ensures
        has_prefix(part + b, part),
        has_suffix(a + part, part),
        has_part(a + part + b, part),
        has_prefix(b, part) ==> exists|rest: Seq<char>| b == part + rest,
        has_suffix(a, part) ==> exists|rest: Seq<char>| a == rest + part,
        has_part(a, part) ==> exists|x: Seq<char>, y: Seq<char>| a == x + part + y,
{
    assert((part + b).take(part.len() as int) =~= part);
    assert((a + part).skip(a.len() as int) =~= part);
    let all = a + part + b;
    assert(all.subrange(a.len() as int, (a.len() + part.len()) as int) =~= part);
    if has_prefix(b, part) {
        assert(b =~= part + b.skip(part.len() as int));
    }
    if has_suffix(a, part) {
        assert(a =~= a.take(a.len() - part.len()) + part);
    }
    if has_part(a, part) {
        let at = choose|at: int|
            0 <= at <= a.len() - part.len() && #[trigger] a.subrange(at, at + part.len()) == part;
        assert(a =~= a.take(at) + part + a.skip(at + part.len()));
    }
}

/// Decimal digits: a number below ten is one digit, and a digit behind the
/// digits of a number adds itself to ten times the number.
pub proof fn law_decimal_digits(n: nat, d: nat)
    requires
        d < 10,
    ensures
        decimal_digits(d).len() == 1,
        decimal_digits(d)[0] as u32 == '0' as u32 + d,
        n > 0 ==> decimal_digits(10 * n + d) == decimal_digits(n) + decimal_digits(d),
{
    if n > 0 {
        let m = 10 * n + d;
        assert(m / 10 == n && m % 10 == d);
        assert(decimal_digits(m) =~= decimal_digits(n) + decimal_digits(d));
    }
}

/// Asked of two texts that agree up to a place, the answer is that the one with
/// the smaller character there, or that ends there, comes first, and that the
/// other does not.
pub proof fn law_is_before_by_the_first_difference(a: &str, b: &str, i: int, r: bool, back: bool)
    requires
        call_ensures(is_before, (a, b), r),
        call_ensures(is_before, (b, a), back),
        0 <= i < b@.len(),
        i <= a@.len(),
        a@.take(i) == b@.take(i),
        i < a@.len() ==> (a@[i] as u32) < (b@[i] as u32),
    ensures
        r,
        !back,
{
    law_order_is_that_of_the_first_difference(a@, b@, i);
}

/// Two numbers with the same decimal digits are the same.
pub proof fn lemma_digits_are_distinct(m: nat, n: nat)
    ensures
        decimal_digits(m) == decimal_digits(n) ==> m == n,
        decimal_digits(m).len() >= 1,
    decreases m,
{
    let (a, b) = (decimal_digits(m), decimal_digits(n));
    if m >= 10 {
        lemma_digits_are_distinct(m / 10, n / 10);
    }
    if n >= 10 {
        lemma_digits_at_least_one(n / 10);
    }
    if a == b {
        assert(a.last() == b.last());
        assert(m % 10 == n % 10) by {
            assert(('0' as u32 + m % 10) as char as u32 == '0' as u32 + m % 10);
            assert(('0' as u32 + n % 10) as char as u32 == '0' as u32 + n % 10);
        }
        if m >= 10 {
            assert(a.drop_last() =~= decimal_digits(m / 10));
            assert(n >= 10);
            assert(b.drop_last() =~= decimal_digits(n / 10));
        } else if n >= 10 {
            assert(b.len() >= 2);
        }
    }
}

proof fn lemma_digits_at_least_one(n: nat)
    ensures
        decimal_digits(n).len() >= 1,
{
}

/// The lower case of ASCII text is that of its characters, and any other text
/// has the one that Unicode gives it. Bytes that are UTF-8 are read as the text
/// that they encode, and others as `std` repairs them.
pub proof fn law_what_is_left_to_std(s: Seq<char>, bytes: Seq<u8>)
    ensures
        all_ascii(s) ==> lowercase(s) == ascii_lower_all(s),
        !all_ascii(s) ==> lowercase(s) == unicode_lowercase(s),
        valid_utf8(bytes) ==> lossy_text(bytes) == decode_utf8(bytes),
        !valid_utf8(bytes) ==> lossy_text(bytes) == utf8_repaired(bytes),
        lossy_text(encode_utf8(s)) == s,
{
    encode_utf8_valid_utf8(s);
    encode_utf8_decode_utf8(s);
}

/// The white space beyond ASCII, by its code points: next line, the no-break
/// spaces, the spaces of one width or another, and the line and paragraph
/// separators. Neither the zero width space nor the byte order mark is any.
pub proof fn law_white_space_beyond_ascii(c: char)
    requires
        c as u32 > 127,
    ensures
        white_space(c) <==> ({
            ||| c as u32 == 0x85
            ||| c as u32 == 0xa0
            ||| c as u32 == 0x1680
            ||| 0x2000 <= c as u32 <= 0x200a
            ||| c as u32 == 0x2028
            ||| c as u32 == 0x2029
            ||| c as u32 == 0x202f
            ||| c as u32 == 0x205f
            ||| c as u32 == 0x3000
        }),
        c as u32 == 0x200b || c as u32 == 0xfeff ==> !white_space(c),
{
}

} // verus!
