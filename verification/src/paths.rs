//! Unix paths as text: their components, and what `std::path` reads off them.

use crate::text;
use vstd::prelude::*;

verus! {

/// The components of a path. Empty components and `.` drop out, except that a
/// `.` at the very beginning is remembered.
pub struct PathParts {
    pub rooted: bool,
    pub from_here: bool,
    pub names: Seq<Seq<char>>,
}

/// What follows the last `/` of `p`.
pub open spec fn last_segment(p: Seq<char>) -> Seq<char>
    decreases p.len(),
{
    if p.len() == 0 || p.last() == '/' {
        seq![]
    } else {
        last_segment(p.drop_last()).push(p.last())
    }
}

/// The named components of `p`, `..` among them.
pub open spec fn path_names(p: Seq<char>) -> Seq<Seq<char>>
    decreases p.len(),
{
    let segment = last_segment(p);
    let before = p.len() - segment.len() - 1;
    let front = if 0 <= before < p.len() {
        path_names(p.take(before))
    } else {
        seq![]
    };
    if segment.len() == 0 || segment == seq!['.'] {
        front
    } else {
        front.push(segment)
    }
}

pub open spec fn path_parts(p: Seq<char>) -> PathParts {
    PathParts {
        rooted: p.len() > 0 && p[0] == '/',
        from_here: p.len() > 0 && p[0] == '.' && (p.len() == 1 || p[1] == '/'),
        names: path_names(p),
    }
}

/// The final component of a path, unless there is none or it is `..`.
pub open spec fn file_name(p: Seq<char>) -> Option<Seq<char>> {
    let names = path_names(p);
    if names.len() == 0 || names.last() == seq!['.', '.'] {
        None
    } else {
        Some(names.last())
    }
}

/// The position of the last `c` in `s`, or -1.
pub open spec fn last_at(s: Seq<char>, c: char) -> int
    decreases s.len(),
{
    if s.len() == 0 {
        -1
    } else if s.last() == c {
        s.len() - 1
    } else {
        last_at(s.drop_last(), c)
    }
}

/// What follows the last dot of a file name, where a dot stands in it behind
/// its first character.
pub open spec fn name_extension(name: Seq<char>) -> Option<Seq<char>> {
    if last_at(name, '.') <= 0 {
        None
    } else {
        Some(name.skip(last_at(name, '.') + 1))
    }
}

/// The extension of a path: that of its file name.
pub open spec fn extension(p: Seq<char>) -> Option<Seq<char>> {
    match file_name(p) {
        Some(name) => name_extension(name),
        None => None,
    }
}

/// `base` with `tail` behind it: a rooted `tail` stands alone, and one
/// separator is put in where `base` does not end in one.
pub open spec fn joined(base: Seq<char>, tail: Seq<char>) -> Seq<char> {
    if tail.len() > 0 && tail[0] == '/' {
        tail
    } else if base.len() == 0 || base.last() == '/' {
        base + tail
    } else {
        base.push('/') + tail
    }
}

/// A path has a parent unless it is empty or a bare root.
pub open spec fn has_parent(p: Seq<char>) -> bool {
    path_names(p).len() > 0 || path_parts(p).from_here
}

/// The components of `p` but the last one.
pub open spec fn parts_above(p: Seq<char>) -> PathParts {
    let parts = path_parts(p);
    if parts.names.len() == 0 {
        PathParts { from_here: false, ..parts }
    } else {
        PathParts { names: parts.names.drop_last(), ..parts }
    }
}

/// The length of the shortest beginning of `p`, of at least `n` characters, that
/// has the components `parts`.
pub open spec fn shortest_with(p: Seq<char>, parts: PathParts, n: int) -> int
    decreases p.len() - n,
{
    if n >= p.len() || path_parts(p.take(n)) == parts {
        n
    } else {
        shortest_with(p, parts, n + 1)
    }
}

/// What is left of `p` without its last component, and without separators and
/// `.` components before that.
pub open spec fn parent_text(p: Seq<char>) -> Seq<char> {
    p.take(shortest_with(p, parts_above(p), 0))
}

pub open spec fn parent(p: Seq<char>) -> Option<Seq<char>> {
    if has_parent(p) {
        Some(parent_text(p))
    } else {
        None
    }
}

/// The text that is there, if any is.
pub open spec fn opt_view(o: Option<String>) -> Option<Seq<char>> {
    match o {
        Some(s) => Some(s@),
        None => None,
    }
}

pub open spec fn opt_str_view(o: Option<&str>) -> Option<Seq<char>> {
    match o {
        Some(s) => Some(s@),
        None => None,
    }
}

/// `Path::extension`: what follows the final dot of the file name; none
/// without a file name, without a dot, or where the only dot comes first.
#[verifier::external_body]
pub(crate) fn path_extension(path: &str) -> (r: Option<String>)
    ensures
        opt_view(r) == extension(path@),
{
    std::path::Path::new(path).extension().and_then(|e| e.to_str()).map(|e| e.to_string())
}

/// `Path::file_name`: the final component; none where there is no component
/// or the path ends in `..`.
#[verifier::external_body]
pub(crate) fn path_file_name(path: &str) -> (r: Option<String>)
    ensures
        opt_view(r) == file_name(path@),
{
    std::path::Path::new(path).file_name().and_then(|n| n.to_str()).map(|n| n.to_string())
}

/// `Path::parent`: the path without its final component; none for a root and
/// for the empty path. The separators between the two and `.` components there
/// go with it.
#[verifier::external_body]
pub(crate) fn path_parent(path: &str) -> (r: Option<String>)
    ensures
        opt_view(r) == parent(path@),
{
    std::path::Path::new(path).parent().and_then(|p| p.to_str()).map(|p| p.to_string())
}

/// Whether a path starts at the root.
pub fn path_is_absolute(path: &str) -> (r: bool)
    ensures
        r == path_parts(path@).rooted,
{
    text::starts_with_char(path, '/')
}

/// `tail` behind `base`; a rooted `tail` replaces it.
pub fn path_join(base: &str, tail: &str) -> (r: String)
    ensures
        r@ == joined(base@, tail@),
{
    if path_is_absolute(tail) {
        return tail.to_owned();
    }
    let chars = text::chars_of(base);
    let mut out = base.to_owned();
    if chars.len() > 0 && chars[chars.len() - 1] != '/' {
        out.push('/');
    }
    out.push_str(tail);
    out
}

/// `Path`'s `==`: the same components, written however.
#[verifier::external_body]
pub(crate) fn path_same(a: &str, b: &str) -> (r: bool)
    ensures
        r == (path_parts(a@) == path_parts(b@)),
{
    std::path::Path::new(a) == std::path::Path::new(b)
}

/// [`last_segment`] is the end of the path behind its last `/`.
pub proof fn lemma_last_segment(p: Seq<char>)
    ensures
        ({
            let segment = last_segment(p);
            let n = p.len() - segment.len();
            &&& 0 <= n
            &&& p.skip(n) == segment
            &&& forall|i: int| n <= i < p.len() ==> p[i] != '/'
            &&& n > 0 ==> p[n - 1] == '/'
        }),
    decreases p.len(),
{
    let segment = last_segment(p);
    if p.len() == 0 || p.last() == '/' {
        assert(p.skip(p.len() as int) =~= segment);
    } else {
        let front = p.drop_last();
        lemma_last_segment(front);
        let n = p.len() - segment.len();
        assert(front.skip(n) =~= segment.drop_last());
        assert(p.skip(n) =~= segment) by {
            assert forall|i: int| 0 <= i < segment.len() implies p.skip(n)[i] == segment[i] by {
                if i < segment.len() - 1 {
                    assert(front.skip(n)[i] == segment[i]);
                }
            }
        }
        assert forall|i: int| n <= i < p.len() implies p[i] != '/' by {
            if i < front.len() {
                assert(front[i] == p[i]);
            }
        }
        if n > 0 {
            assert(front[n - 1] == p[n - 1]);
        }
    }
}

/// [`last_at`] is where the last `c` stands.
pub proof fn lemma_last_at(s: Seq<char>, c: char)
    ensures
        -1 <= last_at(s, c) < s.len(),
        last_at(s, c) >= 0 ==> s[last_at(s, c)] == c,
        forall|i: int| last_at(s, c) < i < s.len() ==> s[i] != c,
    decreases s.len(),
{
    if s.len() > 0 && s.last() != c {
        let front = s.drop_last();
        lemma_last_at(front, c);
        assert forall|i: int| last_at(s, c) < i < s.len() implies s[i] != c by {
            if i < front.len() {
                assert(front[i] == s[i]);
            }
        }
    }
}

/// A path whose text ends in a dot and `tail`, which holds neither dots nor
/// slashes, has the extension `tail`, unless its file name is no more than
/// that.
pub proof fn lemma_extension_of_suffix(p: Seq<char>, tail: Seq<char>)
    requires
        tail.len() > 0,
        p.len() > tail.len(),
        p[p.len() - tail.len() - 1] == '.',
        p.skip(p.len() - tail.len()) == tail,
        forall|i: int| 0 <= i < tail.len() ==> #[trigger] tail[i] != '.' && tail[i] != '/',
    ensures
        extension(p) is None || extension(p) == Some(tail),
{
    let k = tail.len() as int;
    let n = p.len() as int;
    assert forall|i: int| n - k <= i < n implies p[i] != '.' && p[i] != '/' by {
        assert(p.skip(n - k)[i - (n - k)] == tail[i - (n - k)]);
    }
    lemma_last_segment(p);
    let segment = last_segment(p);
    let m = segment.len() as int;
    assert(m >= k + 1);
    assert forall|i: int| 0 <= i < m implies segment[i] == p[n - m + i] by {
        assert(p.skip(n - m)[i] == segment[i]);
    }
    assert(segment[m - 1] == p[n - 1]);
    assert(segment != seq!['.']);
    assert(seq!['.', '.'][1] == '.');
    assert(segment != seq!['.', '.']);
    assert(path_names(p).last() == segment);
    assert(file_name(p) == Some(segment));
    lemma_last_at(segment, '.');
    let at = last_at(segment, '.');
    assert(segment[m - k - 1] == '.');
    assert(at == m - k - 1) by {
        if at > m - k - 1 {
            assert(segment[at] == p[n - m + at]);
        }
    }
    assert(segment.skip(at + 1) =~= tail) by {
        assert forall|i: int| 0 <= i < k implies segment.skip(at + 1)[i] == tail[i] by {
            assert(p.skip(n - k)[i] == tail[i]);
        }
    }
}

/// A name that can stand as one component of a path.
pub open spec fn plain_name(name: Seq<char>) -> bool {
    &&& name.len() > 0
    &&& name != seq!['.']
    &&& forall|i: int| 0 <= i < name.len() ==> name[i] != '/'
}

/// The components of a path are plain names.
pub proof fn lemma_names_are_plain(p: Seq<char>)
    ensures
        forall|i: int| 0 <= i < path_names(p).len() ==> plain_name(#[trigger] path_names(p)[i]),
    decreases p.len(),
{
    lemma_last_segment(p);
    let segment = last_segment(p);
    let n = p.len() - segment.len();
    assert forall|i: int| 0 <= i < segment.len() implies segment[i] != '/' by {
        assert(p.skip(n)[i] == p[n + i]);
    }
    if n > 0 {
        lemma_names_are_plain(p.take(n - 1));
    }
    let front = if n > 0 {
        path_names(p.take(n - 1))
    } else {
        seq![]
    };
    let kept = segment.len() > 0 && segment != seq!['.'];
    assert(path_names(p) == if kept {
        front.push(segment)
    } else {
        front
    });
    assert forall|i: int| 0 <= i < path_names(p).len() implies plain_name(
        #[trigger] path_names(p)[i],
    ) by {
        if i < front.len() {
            assert(path_names(p)[i] == front[i]);
        } else {
            assert(path_names(p)[i] == segment);
        }
    }
}

/// A plain name put behind a directory is its last component.
pub proof fn lemma_joined_name(dir: Seq<char>, name: Seq<char>)
    requires
        plain_name(name),
    ensures
        path_names(joined(dir, name)) == path_names(dir).push(name),
{
    let p = joined(dir, name);
    lemma_last_segment(p);
    let segment = last_segment(p);
    let n = p.len() - segment.len();
    let k = p.len() - name.len();
    assert forall|i: int| k <= i < p.len() implies p[i] == name[i - k] by {}
    if k > 0 {
        assert(p[k - 1] == '/');
    }
    assert(n == k) by {
        if n > k {
            assert(p[n - 1] == name[n - 1 - k]);
        }
    }
    assert(segment =~= name);
    if dir.len() == 0 {
        lemma_last_segment(dir);
        assert(path_names(dir) =~= Seq::<Seq<char>>::empty());
    } else if dir.last() == '/' {
        assert(p.take(k - 1) =~= dir.drop_last());
        assert(last_segment(dir) =~= Seq::<char>::empty());
        assert(dir.take(dir.len() - 1) =~= dir.drop_last());
        assert(path_names(dir) == path_names(dir.drop_last()));
    } else {
        assert(p.take(k - 1) =~= dir);
    }
}

/// A slash more at the end of a path changes none of its components.
pub proof fn lemma_trailing_slash(p: Seq<char>)
    requires
        p.len() > 0,
    ensures
        path_parts(p.push('/')) == path_parts(p),
{
    let q = p.push('/');
    assert(last_segment(q) =~= Seq::<char>::empty());
    assert(q.take(q.len() - 1) =~= p);
    assert(path_names(q) == path_names(p));
}

proof fn lemma_shortest_with(p: Seq<char>, parts: PathParts, n: int, m: int)
    requires
        0 <= n <= m <= p.len(),
        path_parts(p.take(m)) == parts,
    ensures
        n <= shortest_with(p, parts, n) <= m,
        path_parts(p.take(shortest_with(p, parts, n))) == parts,
        forall|k: int|
            n <= k < shortest_with(p, parts, n) ==> path_parts(#[trigger] p.take(k)) != parts,
    decreases m - n,
{
    if n < m && path_parts(p.take(n)) != parts {
        lemma_shortest_with(p, parts, n + 1, m);
    }
}

/// Some beginning of a path has its components but the last one.
proof fn lemma_beginning_above(p: Seq<char>) -> (n: int)
    requires
        path_names(p).len() > 0,
    ensures
        0 <= n <= p.len(),
        path_parts(p.take(n)) == parts_above(p),
    decreases p.len(),
{
    lemma_last_segment(p);
    let segment = last_segment(p);
    let k = p.len() - segment.len();
    if segment.len() == 0 || segment == seq!['.'] {
        let front = p.take(k - 1);
        let n = lemma_beginning_above(front);
        assert(front.len() > 0) by {
            if front.len() == 0 {
                assert(last_segment(front) =~= Seq::<char>::empty());
                assert(path_names(front) =~= Seq::<Seq<char>>::empty());
            }
        }
        assert(front[0] == p[0]);
        assert(path_names(front) == path_names(p));
        assert(path_parts(front) == path_parts(p)) by {
            if front.len() > 1 {
                assert(front[1] == p[1]);
            } else {
                assert(p[1] == '/');
            }
        }
        assert(front.take(n) =~= p.take(n));
        n
    } else if k == 0 {
        assert(p[0] != '/');
        assert(p =~= segment) by {
            assert(p.skip(0) =~= p);
        }
        assert(p.take(0) =~= Seq::<char>::empty());
        assert(last_segment(p.take(0)) =~= Seq::<char>::empty());
        assert(path_names(p.take(0)) =~= Seq::<Seq<char>>::empty());
        assert(path_names(p) =~= seq![segment]);
        assert(path_names(p).drop_last() =~= Seq::<Seq<char>>::empty());
        assert(!path_parts(p).from_here) by {
            if p.len() == 1 && p[0] == '.' {
                assert(segment =~= seq!['.']);
            }
        }
        0
    } else if k == 1 {
        assert(p.take(1) =~= seq!['/']);
        assert(p.take(0) =~= Seq::<char>::empty());
        assert(last_segment(p.take(0)) =~= Seq::<char>::empty());
        assert(path_names(p.take(0)) =~= Seq::<Seq<char>>::empty());
        assert(last_segment(p.take(1)) =~= Seq::<char>::empty());
        assert(p.take(1).take(0) =~= p.take(0));
        assert(path_names(p.take(1)) =~= Seq::<Seq<char>>::empty());
        assert(path_names(p).drop_last() =~= Seq::<Seq<char>>::empty());
        1
    } else {
        let front = p.take(k - 1);
        assert(front[0] == p[0]);
        assert(path_names(p).drop_last() =~= path_names(front));
        if front.len() > 1 {
            assert(front[1] == p[1]);
        } else {
            assert(p[1] == '/');
        }
        k - 1
    }
}

/// The parent of a path is a beginning of it, and has its components but the
/// last one; no shorter beginning has them. Where there is nothing but a root,
/// or nothing at all, there is no parent.
pub proof fn law_parent_drops_the_last_component(p: Seq<char>)
    ensures
        parent(p) is Some <==> path_names(p).len() > 0 || path_parts(p).from_here,
        parent(p) is Some ==> ({
            let up = parent(p)->0;
            let names = path_names(p);
            &&& up.len() <= p.len()
            &&& up == p.take(up.len() as int)
            &&& path_parts(up).rooted == path_parts(p).rooted
            &&& path_names(up) == if names.len() == 0 {
                names
            } else {
                names.take(names.len() - 1)
            }
            &&& path_parts(up).from_here == (path_parts(p).from_here && names.len() > 0)
            &&& forall|m: int|
                0 <= m < up.len() ==> path_parts(#[trigger] p.take(m)) != path_parts(up)
        }),
{
    let parts = parts_above(p);
    if path_names(p).len() > 0 {
        let n = lemma_beginning_above(p);
        lemma_shortest_with(p, parts, 0, n);
        assert(path_names(p).take(path_names(p).len() - 1) =~= path_names(p).drop_last());
    } else if path_parts(p).from_here {
        assert(p.take(0) =~= Seq::<char>::empty());
        assert(last_segment(p.take(0)) =~= Seq::<char>::empty());
        assert(path_names(p.take(0)) =~= Seq::<Seq<char>>::empty());
        assert(path_names(p) =~= Seq::<Seq<char>>::empty());
        lemma_shortest_with(p, parts, 0, 0);
    }
}

/// What the library reads off a path: its text, where a replacement character
/// stands for bytes that are not UTF-8, and its extension, if that is UTF-8.
pub struct EntryPath {
    text: String,
    ext: Option<String>,
}

/// An [`EntryPath`] in a contract.
pub struct PathView {
    pub text: Seq<char>,
    pub ext: Option<Seq<char>>,
}

/// The path written `text`.
pub open spec fn path_of(text: Seq<char>) -> PathView {
    PathView { text, ext: extension(text) }
}

impl View for EntryPath {
    type V = PathView;

    closed spec fn view(&self) -> PathView {
        PathView { text: self.text@, ext: opt_view(self.ext) }
    }
}

impl EntryPath {
    /// An extension that is there is that of the text.
    #[verifier::type_invariant]
    spec fn consistent(self) -> bool {
        self.ext is Some ==> opt_view(self.ext) == extension(self.text@)
    }

    /// The path written `text`.
    pub fn new(text: &str) -> (r: EntryPath)
        ensures
            r@ == path_of(text@),
    {
        let ext = path_extension(text);
        EntryPath { text: text.to_owned(), ext }
    }

    /// The path whose lossy text is `text` and whose extension, if it has
    /// one, is not UTF-8.
    pub fn with_foreign_extension(text: &str) -> (r: EntryPath)
        ensures
            r@ == (PathView { text: text@, ext: None }),
    {
        EntryPath { text: text.to_owned(), ext: None }
    }

    pub fn text(&self) -> (r: &str)
        ensures
            r@ == self@.text,
    {
        self.text.as_str()
    }

    pub fn ext(&self) -> (r: Option<&str>)
        ensures
            opt_str_view(r) == self@.ext,
    {
        match &self.ext {
            Some(e) => Some(e.as_str()),
            None => None,
        }
    }

    pub fn copy(&self) -> (r: EntryPath)
        ensures
            r@ == self@,
    {
        proof {
            use_type_invariant(&*self);
        }
        EntryPath { text: self.text.clone(), ext: self.ext.clone() }
    }
}

/// No slash stands in `s`.
pub open spec fn no_slash(s: Seq<char>) -> bool {
    forall|i: int| 0 <= i < s.len() ==> #[trigger] s[i] != '/'
}

/// `dir`, a slash, and `name`.
pub open spec fn under(dir: Seq<char>, name: Seq<char>) -> Seq<char> {
    dir + seq!['/'] + name
}

proof fn lemma_segment_of(dir: Seq<char>, seg: Seq<char>)
    requires
        no_slash(seg),
    ensures
        last_segment(under(dir, seg)) == seg,
        last_segment(seg) == seg,
    decreases seg.len(),
{
    let p = under(dir, seg);
    if seg.len() == 0 {
        assert(p.last() == '/');
        assert(last_segment(seg) =~= seg);
    } else {
        let front = seg.drop_last();
        assert forall|i: int| 0 <= i < front.len() implies #[trigger] front[i] != '/' by {
            assert(front[i] == seg[i]);
        }
        lemma_segment_of(dir, front);
        assert(p.drop_last() =~= under(dir, front));
        assert(seg[seg.len() - 1] != '/');
        assert(front.push(seg.last()) =~= seg);
    }
}

/// The components of a path are what stands between its slashes, in their
/// order, but for nothing and a single dot.
pub proof fn law_components_stand_between_slashes(dir: Seq<char>, seg: Seq<char>)
    requires
        no_slash(seg),
    ensures
        ({
            let kept = if seg.len() == 0 || seg == seq!['.'] {
                Seq::<Seq<char>>::empty()
            } else {
                seq![seg]
            };
            &&& path_names(under(dir, seg)) == path_names(dir) + kept
            &&& path_names(seg) == kept
        }),
{
    lemma_segment_of(dir, seg);
    let p = under(dir, seg);
    assert(p.take(p.len() - seg.len() - 1) =~= dir);
    let kept = if seg.len() == 0 || seg == seq!['.'] {
        Seq::<Seq<char>>::empty()
    } else {
        seq![seg]
    };
    assert(path_names(p) =~= path_names(dir) + kept);
    assert(path_names(seg) =~= kept);
}

/// A path starts at the root where a slash comes first, and in the current
/// directory by name where a dot does, by itself or before a slash. Two paths
/// are the same where they start alike and have the same components.
pub proof fn law_where_a_path_starts(p: Seq<char>, q: Seq<char>)
    ensures
        path_parts(seq!['/'] + p).rooted,
        path_parts(seq!['.', '/'] + p).from_here,
        path_parts(seq!['.']).from_here,
        p.len() > 0 && p[0] != '/' ==> !path_parts(p).rooted,
        p.len() > 0 && p[0] != '.' ==> !path_parts(p).from_here,
        p.len() > 1 && p[1] != '/' ==> !path_parts(p).from_here,
        !path_parts(Seq::<char>::empty()).rooted && !path_parts(Seq::<char>::empty()).from_here,
        path_parts(p) == path_parts(q) <==> path_names(p) == path_names(q) && path_parts(p).rooted
            == path_parts(q).rooted && path_parts(p).from_here == path_parts(q).from_here,
{
}

/// The file name of a path is what follows its last slash; a slash at the end
/// does not count. Two dots are no file name.
pub proof fn law_file_name_is_the_last_component(dir: Seq<char>, name: Seq<char>)
    requires
        no_slash(name),
        name.len() > 0,
        name != seq!['.'],
    ensures
        name != seq!['.', '.'] ==> file_name(under(dir, name)) == Some(name) && file_name(name)
            == Some(name) && file_name(under(name, seq![])) == Some(name),
        name == seq!['.', '.'] ==> file_name(under(dir, name)) is None && file_name(name) is None,
        file_name(under(dir, seq![])) == file_name(dir),
        file_name(Seq::<char>::empty()) is None,
{
    let none = Seq::<char>::empty();
    law_components_stand_between_slashes(dir, name);
    law_components_stand_between_slashes(name, none);
    law_components_stand_between_slashes(dir, none);
    assert(path_names(dir) + seq![name] == path_names(under(dir, name)));
    assert((path_names(dir) + seq![name]).last() == name);
    assert(path_names(name) =~= seq![name]);
    assert(path_names(name) + Seq::<Seq<char>>::empty() =~= path_names(name));
    assert(path_names(dir) + Seq::<Seq<char>>::empty() =~= path_names(dir));
}

/// The file name of any path is its last component, unless that is two dots, and
/// its extension depends on the file name alone.
pub proof fn law_file_name_of_every_path(p: Seq<char>, q: Seq<char>)
    ensures
        ({
            let names = path_names(p);
            let n = names.len();
            &&& n > 0 && names[n - 1] != seq!['.', '.'] ==> file_name(p) == Some(names[n - 1])
            &&& n == 0 || names[n - 1] == seq!['.', '.'] ==> file_name(p) is None
        }),
        file_name(p) is None ==> extension(p) is None,
        file_name(p) == file_name(q) ==> extension(p) == extension(q),
{
}

/// The extension of a file is what follows the last dot of its name, if
/// something stands before that dot; a name without a dot, or with its only dot
/// in front, has none.
pub proof fn law_extension_follows_the_last_dot(dir: Seq<char>, stem: Seq<char>, ext: Seq<char>)
    requires
        no_slash(stem),
        no_slash(ext),
        forall|i: int| 0 <= i < ext.len() ==> #[trigger] ext[i] != '.',
        stem + seq!['.'] + ext != seq!['.', '.'],
    ensures
        stem.len() > 0 ==> extension(under(dir, stem + seq!['.'] + ext)) == Some(ext) && extension(
            stem + seq!['.'] + ext,
        ) == Some(ext),
        ext.len() > 0 ==> extension(under(dir, seq!['.'] + ext)) is None,
        extension(under(dir, ext)) is None || ext.len() == 0,
        ext.len() > 0 ==> extension(ext) is None,
{
    let name = stem + seq!['.'] + ext;
    assert forall|i: int| 0 <= i < name.len() implies #[trigger] name[i] != '/' by {
        if i < stem.len() {
            assert(stem[i] != '/');
        } else if i > stem.len() {
            assert(ext[i - stem.len() - 1] != '/');
        }
    }
    lemma_last_at(name, '.');
    let at = last_at(name, '.');
    assert(name[stem.len() as int] == '.');
    assert(at == stem.len()) by {
        if at > stem.len() {
            assert(name[at] == ext[at - stem.len() - 1]);
        }
    }
    assert(name.skip(at + 1) =~= ext);
    if stem.len() > 0 {
        assert(name.len() >= 2);
        assert(name != seq!['.']);
        law_file_name_is_the_last_component(dir, name);
    }
    if ext.len() > 0 {
        assert(ext[0] != '.');
        assert(ext != seq!['.'] && ext != seq!['.', '.']);
        law_file_name_is_the_last_component(dir, ext);
        lemma_last_at(ext, '.');
        assert(last_at(ext, '.') == -1);
        let hidden = seq!['.'] + ext;
        assert forall|i: int| 0 <= i < hidden.len() implies #[trigger] hidden[i] != '/' by {
            if i > 0 {
                assert(hidden[i] == ext[i - 1]);
            }
        }
        assert(hidden[1] == ext[0]);
        assert(hidden != seq!['.'] && hidden != seq!['.', '.']);
        law_file_name_is_the_last_component(dir, hidden);
        lemma_last_at(hidden, '.');
        assert(last_at(hidden, '.') == 0) by {
            if last_at(hidden, '.') > 0 {
                assert(hidden[last_at(hidden, '.')] == ext[last_at(hidden, '.') - 1]);
            }
            assert(hidden[0] == '.');
        }
    }
}

/// A name put behind a directory is parted from it by one slash; nothing is put
/// between where the directory is empty or ends in one. A path from the root
/// stays as it is.
pub proof fn law_joined_by_one_slash(dir: Seq<char>, name: Seq<char>)
    ensures
        joined(dir, seq!['/'] + name) == seq!['/'] + name,
        name.len() == 0 || name[0] != '/' ==> ({
            &&& joined(Seq::<char>::empty(), name) == name
            &&& joined(dir + seq!['/'], name) == under(dir, name)
            &&& dir.len() > 0 && dir[dir.len() - 1] != '/' ==> joined(dir, name) == under(dir, name)
        }),
{
    let none = Seq::<char>::empty();
    assert(none + name =~= name);
    assert((dir + seq!['/']).last() == '/');
    assert(dir.push('/') + name =~= under(dir, name));
}

/// A path keeps its text, and its extension is that of the text.
pub proof fn law_path_keeps_its_text(text: &str, r: EntryPath)
    requires
        call_ensures(EntryPath::new, (text,), r),
    ensures
        r@.text == text@,
        r@.ext == extension(text@),
{
}

} // verus!
