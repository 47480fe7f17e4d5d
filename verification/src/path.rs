//! Paths as sequences of characters separated by `/`.
//!
//! A path is read as a list of segments: the non-empty pieces between its
//! `/` characters. Repeated and trailing separators carry no meaning. A path
//! that starts with `/` is absolute. A segment `.` stands for the directory it
//! is met in: it is passed over where a file name is looked for, and it is
//! no component of a path, but for a `.` at the very start of a relative path.
//! Local paths are expected in this form whatever the platform; remote paths
//! are always produced in it.

use crate::error::{ErrorKind, SyncError};
use vstd::prelude::*;
use vstd::string::StringExecFns;

verus! {

/// Index at which the final name of `p` starts: just after the last `/`,
/// or `0` when `p` holds none.
pub open spec fn name_start(p: Seq<char>) -> int
    decreases p.len(),
{
    if p.len() == 0 || p.last() == '/' {
        p.len() as int
    } else {
        name_start(p.drop_last())
    }
}

/// The final name of a path starts inside the path, right after a `/`, and holds none.
pub proof fn lemma_name_start_bounds(p: Seq<char>)
    ensures
        0 <= name_start(p) <= p.len(),
        p.len() > 0 && p.last() != '/' ==> name_start(p) < p.len(),
        name_start(p) > 0 ==> p[name_start(p) - 1] == '/',
        forall|i: int| name_start(p) <= i < p.len() ==> p[i] != '/',
    decreases p.len(),
{
    if p.len() == 0 || p.last() == '/' {
    } else {
        let q = p.drop_last();
        lemma_name_start_bounds(q);
        assert forall|i: int| name_start(p) <= i < p.len() implies p[i] != '/' by {
            if i < q.len() {
                assert(q[i] == p[i]);
            }
        }
    }
}

/// `name_start` is the one index that follows a `/` (or is `0`) and has no `/` after it.
pub proof fn lemma_name_start_is(p: Seq<char>, s: int)
    requires
        0 <= s <= p.len(),
        s == 0 || p[s - 1] == '/',
        forall|i: int| s <= i < p.len() ==> p[i] != '/',
    ensures
        name_start(p) == s,
    decreases p.len(),
{
    if p.len() == 0 {
    } else if p.last() == '/' {
        assert(p[p.len() - 1] == '/');
    } else {
        let q = p.drop_last();
        if s == p.len() {
            assert(p[s - 1] == '/');
        }
        assert forall|i: int| s <= i < q.len() implies q[i] != '/' by {
            assert(q[i] == p[i]);
        }
        if s > 0 {
            assert(q[s - 1] == p[s - 1]);
        }
        lemma_name_start_is(q, s);
    }
}

/// The non-empty pieces of `p` between its `/` characters, in order.
pub open spec fn segments(p: Seq<char>) -> Seq<Seq<char>>
    decreases p.len(),
{
    if p.len() == 0 {
        Seq::empty()
    } else if p.last() == '/' {
        segments(p.drop_last())
    } else {
        proof {
            lemma_name_start_bounds(p);
        }
        segments(p.take(name_start(p))).push(p.skip(name_start(p)))
    }
}

/// Whether `s` can be a segment: not empty, and without `/`.
pub open spec fn is_segment(s: Seq<char>) -> bool {
    s.len() > 0 && forall|i: int| 0 <= i < s.len() ==> s[i] != '/'
}

/// Whether every member of `segs` can be a segment.
pub open spec fn all_segments(segs: Seq<Seq<char>>) -> bool {
    forall|i: int| 0 <= i < segs.len() ==> is_segment(#[trigger] segs[i])
}

/// Whether `p` starts at the root.
pub open spec fn is_absolute(p: Seq<char>) -> bool {
    p.len() > 0 && p[0] == '/'
}

/// `p` without the `/` characters at its end.
pub open spec fn trim_trailing_slashes(p: Seq<char>) -> Seq<char>
    decreases p.len(),
{
    if p.len() > 0 && p.last() == '/' {
        trim_trailing_slashes(p.drop_last())
    } else {
        p
    }
}

/// The path that names `segs` from the root: each segment preceded by a `/`.
/// For no segments it is empty.
pub open spec fn rooted(segs: Seq<Seq<char>>) -> Seq<char>
    decreases segs.len(),
{
    if segs.len() == 0 {
        Seq::empty()
    } else {
        rooted(segs.drop_last()) + seq!['/'] + segs.last()
    }
}

/// Index of the last `.` in `name`, or `-1` when it holds none.
pub open spec fn last_dot(name: Seq<char>) -> int
    decreases name.len(),
{
    if name.len() == 0 {
        -1
    } else if name.last() == '.' {
        name.len() - 1
    } else {
        last_dot(name.drop_last())
    }
}

/// Whether `s` is the segment `.`, which stands for the directory it is met in.
pub open spec fn is_dot(s: Seq<char>) -> bool {
    s.len() == 1 && s[0] == '.'
}

/// Whether `s` is the segment `..`.
pub open spec fn is_dot_dot(s: Seq<char>) -> bool {
    s.len() == 2 && s[0] == '.' && s[1] == '.'
}

/// The extension of a file name: what follows its last `.`.
/// A name without `.`, a name whose only `.` is its first character,
/// and the name `..` have none.
pub open spec fn name_extension(name: Seq<char>) -> Option<Seq<char>> {
    if last_dot(name) <= 0 || is_dot_dot(name) {
        None
    } else {
        Some(name.skip(last_dot(name) + 1))
    }
}

/// The last of `segs` that is not `.`, if there is one.
pub open spec fn last_name(segs: Seq<Seq<char>>) -> Option<Seq<char>>
    decreases segs.len(),
{
    if segs.len() == 0 {
        None
    } else if is_dot(segs.last()) {
        last_name(segs.drop_last())
    } else {
        Some(segs.last())
    }
}

/// The extension of the file that `p` names: that of the last segment of `p`
/// other than `.`. There is none where no such segment is left, or where
/// that segment has none.
pub open spec fn extension(p: Seq<char>) -> Option<Seq<char>> {
    match last_name(segments(p)) {
        Some(name) => name_extension(name),
        None => None,
    }
}

/// Whether the extension of `p` is one of `extensions`, compared as it stands.
pub open spec fn has_watched_extension(p: Seq<char>, extensions: Seq<Seq<char>>) -> bool {
    extension(p) matches Some(e) && extensions.contains(e)
}

/// `segs` without its `.` segments; with `keep_first`, a `.` in the first place stays.
pub open spec fn kept(segs: Seq<Seq<char>>, keep_first: bool) -> Seq<Seq<char>>
    decreases segs.len(),
{
    if segs.len() == 0 {
        Seq::empty()
    } else if is_dot(segs.last()) && !(keep_first && segs.len() == 1) {
        kept(segs.drop_last(), keep_first)
    } else {
        kept(segs.drop_last(), keep_first).push(segs.last())
    }
}

/// The components of `p`: its segments without the `.` segments, which lead
/// nowhere. Only a `.` at the very start of a relative path is a component:
/// `./a` and `a` are not the same path.
pub open spec fn components(p: Seq<char>) -> Seq<Seq<char>> {
    kept(segments(p), !is_absolute(p))
}

/// Whether `file` lies under `root`, or is `root`: both absolute or both relative,
/// and the components of `root` open those of `file`.
pub open spec fn is_under(root: Seq<char>, file: Seq<char>) -> bool {
    &&& is_absolute(root) == is_absolute(file)
    &&& components(root).len() <= components(file).len()
    &&& components(file).take(components(root).len() as int) == components(root)
}

/// Whether `file` lies under `root` and is not `root` itself.
pub open spec fn is_strictly_under(root: Seq<char>, file: Seq<char>) -> bool {
    is_under(root, file) && components(root).len() < components(file).len()
}

/// The components of `file` that follow those of `root`.
pub open spec fn relative_segments(root: Seq<char>, file: Seq<char>) -> Seq<Seq<char>> {
    components(file).skip(components(root).len() as int)
}

/// Where `local_file` goes on the server: the remote root without trailing `/`,
/// then each component of `local_file` below `local_root`, each preceded by a `/`.
/// So the part below the root is written in its plain form, with single
/// separators and without `.` segments.
pub open spec fn remote_path(local_root: Seq<char>, remote_root: Seq<char>, local_file: Seq<char>) -> Seq<char> {
    trim_trailing_slashes(remote_root) + rooted(relative_segments(local_root, local_file))
}

/// The directory that holds the last segment of `p`: `p` up to where that segment starts.
pub open spec fn parent_dir(p: Seq<char>) -> Seq<char> {
    p.take(name_start(trim_trailing_slashes(p)))
}

/// The directories that lead to the directory `segs`, outermost first:
/// `/a`, `/a/b`, `/a/b/c` for the segments `a`, `b`, `c`.
pub open spec fn ancestor_dirs(segs: Seq<Seq<char>>) -> Seq<Seq<char>> {
    Seq::new(segs.len(), |i: int| rooted(segs.take(i + 1)))
}

/// The directories that must exist for the directory `dir` to exist, outermost first.
pub open spec fn dir_chain(dir: Seq<char>) -> Seq<Seq<char>> {
    ancestor_dirs(segments(dir))
}

/// Trimming is cutting at the one index that no `/` precedes and only `/` follow.
pub proof fn lemma_trim_is_take(p: Seq<char>, e: int)
    requires
        0 <= e <= p.len(),
        e == 0 || p[e - 1] != '/',
        forall|i: int| e <= i < p.len() ==> p[i] == '/',
    ensures
        trim_trailing_slashes(p) == p.take(e),
    decreases p.len(),
{
    if p.len() == e {
        assert(p.take(e) == p);
        if e > 0 {
            assert(p.last() == p[e - 1]);
        }
    } else {
        let q = p.drop_last();
        assert(p.last() == p[p.len() - 1]);
        assert forall|i: int| e <= i < q.len() implies q[i] == '/' by {
            assert(q[i] == p[i]);
        }
        if e > 0 {
            assert(q[e - 1] == p[e - 1]);
        }
        lemma_trim_is_take(q, e);
        assert(q.take(e) == p.take(e));
    }
}

/// Trailing separators do not change the segments.
pub proof fn lemma_segments_trim(p: Seq<char>)
    ensures
        segments(trim_trailing_slashes(p)) == segments(p),
    decreases p.len(),
{
    if p.len() > 0 && p.last() == '/' {
        lemma_segments_trim(p.drop_last());
    }
}

/// Every member of `segments(p)` is non-empty and holds no `/`.
pub proof fn lemma_segments_valid(p: Seq<char>)
    ensures
        all_segments(segments(p)),
    decreases p.len(),
{
    if p.len() == 0 {
    } else if p.last() == '/' {
        lemma_segments_valid(p.drop_last());
    } else {
        lemma_name_start_bounds(p);
        let s = name_start(p);
        lemma_segments_valid(p.take(s));
        let head = segments(p.take(s));
        let name = p.skip(s);
        assert(is_segment(name));
        assert forall|i: int| 0 <= i < segments(p).len() implies is_segment(#[trigger] segments(p)[i]) by {
            if i < head.len() {
                assert(segments(p)[i] == head[i]);
            } else {
                assert(segments(p)[i] == name);
            }
        }
    }
}

/// Appending a separator and one more segment to a path appends that segment to its segments.
pub proof fn lemma_segments_push(a: Seq<char>, name: Seq<char>)
    requires
        is_segment(name),
    ensures
        segments(a + seq!['/'] + name) == segments(a).push(name),
{
    let p = a + seq!['/'] + name;
    let s: int = a.len() as int + 1;
    assert(p.last() == name.last());
    assert(p[s - 1] == '/');
    assert forall|i: int| s <= i < p.len() implies p[i] != '/' by {
        assert(p[i] == name[i - s]);
    }
    lemma_name_start_is(p, s);
    assert(p.skip(s) == name);
    let head = a + seq!['/'];
    assert(p.take(s) == head);
    assert(head.last() == '/');
    assert(head.drop_last() == a);
    assert(segments(head) == segments(a));
    assert(p.len() > 0 && p.last() != '/') by {
        assert(name[name.len() - 1] != '/');
    }
    assert(segments(p) == segments(p.take(s)).push(p.skip(s)));
}

/// Reading a rooted path back gives the segments it was made of.
pub proof fn lemma_segments_rooted(prefix: Seq<char>, segs: Seq<Seq<char>>)
    requires
        all_segments(segs),
    ensures
        segments(prefix + rooted(segs)) == segments(prefix) + segs,
    decreases segs.len(),
{
    if segs.len() == 0 {
        assert(prefix + rooted(segs) == prefix);
        assert(segments(prefix) + segs == segments(prefix));
    } else {
        let init = segs.drop_last();
        assert(all_segments(init)) by {
            assert forall|i: int| 0 <= i < init.len() implies is_segment(#[trigger] init[i]) by {
                assert(init[i] == segs[i]);
            }
        }
        lemma_segments_rooted(prefix, init);
        assert(is_segment(segs.last())) by {
            assert(segs.last() == segs[segs.len() - 1]);
        }
        lemma_segments_push(prefix + rooted(init), segs.last());
        assert(prefix + rooted(segs) == (prefix + rooted(init)) + seq!['/'] + segs.last());
        assert((segments(prefix) + init).push(segs.last()) == segments(prefix) + segs);
    }
}

/// A rooted path is absolute as soon as it has a segment.
pub proof fn lemma_rooted_absolute(segs: Seq<Seq<char>>)
    requires
        segs.len() > 0,
    ensures
        is_absolute(rooted(segs)),
    decreases segs.len(),
{
    if segs.len() > 1 {
        lemma_rooted_absolute(segs.drop_last());
    } else {
        assert(rooted(segs.drop_last()).len() == 0);
    }
}

/// The parent directory holds all segments but the last.
pub proof fn lemma_parent_segments(p: Seq<char>)
    ensures
        segments(p).len() == 0 ==> segments(parent_dir(p)).len() == 0,
        segments(p).len() > 0 ==> segments(parent_dir(p)) == segments(p).drop_last(),
{
    let t = trim_trailing_slashes(p);
    lemma_segments_trim(p);
    lemma_trim_prefix(p);
    lemma_name_start_bounds(t);
    let s = name_start(t);
    assert(p.take(s) == t.take(s));
    if t.len() == 0 {
        assert(t.take(s) == t);
    } else {
        assert(segments(t) == segments(t.take(s)).push(t.skip(s)));
        assert(segments(t).drop_last() == segments(t.take(s)));
    }
}

/// Trimming yields a prefix that does not end in `/`.
pub proof fn lemma_trim_prefix(p: Seq<char>)
    ensures
        trim_trailing_slashes(p).len() <= p.len(),
        trim_trailing_slashes(p) == p.take(trim_trailing_slashes(p).len() as int),
        trim_trailing_slashes(p).len() > 0 ==> trim_trailing_slashes(p).last() != '/',
    decreases p.len(),
{
    if p.len() > 0 && p.last() == '/' {
        let q = p.drop_last();
        lemma_trim_prefix(q);
        let n = trim_trailing_slashes(q).len() as int;
        assert(q.take(n) == p.take(n));
    } else {
        assert(p.take(p.len() as int) == p);
    }
}

/// The characters of a string, one by one.
pub fn chars_of(p: &str) -> (v: Vec<char>)
    ensures
        v@ == p@,
{
    let mut v: Vec<char> = Vec::new();
    for c in it: p.chars()
        invariant
            v@ == it.seq().take(it.index() as int),
            it.seq() == p@,
    {
        v.push(c);
    }
    v
}

/// The length of `chars` without the `/` characters at its end.
fn trimmed_len(chars: &Vec<char>) -> (e: usize)
    ensures
        e <= chars.len(),
        e == trim_trailing_slashes(chars@).len(),
        trim_trailing_slashes(chars@) == chars@.take(e as int),
        e == 0 || chars[e - 1] != '/',
{
    let mut e: usize = chars.len();
    while e > 0 && chars[e - 1] == '/'
        invariant
            e <= chars.len(),
            forall|i: int| e <= i < chars.len() ==> chars[i] == '/',
        decreases e,
    {
        e = e - 1;
    }
    proof {
        lemma_trim_is_take(chars@, e as int);
    }
    e
}

/// Where the name that ends at `e` starts.
fn name_begin(chars: &Vec<char>, e: usize) -> (s: usize)
    requires
        e <= chars.len(),
    ensures
        s <= e,
        s == name_start(chars@.take(e as int)),
{
    let mut s: usize = e;
    while s > 0 && chars[s - 1] != '/'
        invariant
            s <= e <= chars.len(),
            forall|i: int| s <= i < e ==> chars[i] != '/',
        decreases s,
    {
        s = s - 1;
    }
    proof {
        lemma_name_start_is(chars@.take(e as int), s as int);
    }
    s
}

/// Splits a path into its segments.
pub fn split_segments(p: &str) -> (segs: Vec<String>)
    ensures
        segs.deep_view() == segments(p@),
{
    let chars = chars_of(p);
    let n: usize = chars.len();
    let mut segs: Vec<String> = Vec::new();
    let mut start: usize = 0;
    let mut i: usize = 0;
    while i < n
        invariant
            n == p@.len(),
            chars@ == p@,
            0 <= start <= i <= n,
            start == name_start(p@.take(i as int)),
            segs.deep_view() == segments(p@.take(start as int)),
        decreases n - i,
    {
        proof {
            assert(p@.take(i + 1).drop_last() == p@.take(i as int));
            lemma_name_start_bounds(p@.take(i as int));
        }
        if chars[i] == '/' {
            if start < i {
                let owned = String::from_str(p.substring_char(start, i));
                proof {
                    let q = p@.take(i as int);
                    assert(q.take(start as int) == p@.take(start as int));
                    assert(q.skip(start as int) == p@.subrange(start as int, i as int));
                    assert(segs.deep_view().push(owned@) == segments(q));
                    assert(segments(p@.take(i + 1)) == segments(q));
                }
                let ghost before = segs.deep_view();
                segs.push(owned);
                assert(segs.deep_view() == before.push(owned@));
            }
            start = i + 1;
        }
        i = i + 1;
    }
    proof {
        assert(p@.take(n as int) == p@);
        lemma_name_start_bounds(p@);
    }
    if start < n {
        let owned = String::from_str(p.substring_char(start, n));
        let ghost before = segs.deep_view();
        segs.push(owned);
        assert(segs.deep_view() == before.push(owned@));
        assert(p@.skip(start as int) == p@.subrange(start as int, n as int));
    }
    segs
}

/// `p` without the `/` characters at its end.
pub fn trim_end_slashes(p: &str) -> (t: &str)
    ensures
        t@ == trim_trailing_slashes(p@),
{
    let chars = chars_of(p);
    let e = trimmed_len(&chars);
    let t = p.substring_char(0, e);
    assert(p@.subrange(0, e as int) == p@.take(e as int));
    t
}

/// `last_dot` is the one index that holds a `.` and has none after it.
pub proof fn lemma_last_dot_is(name: Seq<char>, d: int)
    requires
        0 <= d < name.len(),
        name[d] == '.',
        forall|i: int| d < i < name.len() ==> name[i] != '.',
    ensures
        last_dot(name) == d,
    decreases name.len(),
{
    if name.last() == '.' {
        if d < name.len() - 1 {
            assert(name[name.len() - 1] != '.');
        }
    } else {
        let q = name.drop_last();
        assert(q[d] == name[d]);
        assert forall|i: int| d < i < q.len() implies q[i] != '.' by {
            assert(q[i] == name[i]);
        }
        lemma_last_dot_is(q, d);
    }
}

/// A name without `.` has no last one.
pub proof fn lemma_last_dot_none(name: Seq<char>)
    requires
        forall|i: int| 0 <= i < name.len() ==> name[i] != '.',
    ensures
        last_dot(name) == -1,
    decreases name.len(),
{
    if name.len() > 0 {
        let q = name.drop_last();
        assert(name[name.len() - 1] != '.');
        assert forall|i: int| 0 <= i < q.len() implies q[i] != '.' by {
            assert(q[i] == name[i]);
        }
        lemma_last_dot_none(q);
    }
}

/// Whether `s` is the segment `.`.
pub fn is_dot_text(s: &str) -> (b: bool)
    ensures
        b == is_dot(s@),
{
    let chars = chars_of(s);
    chars.len() == 1 && chars[0] == '.'
}

/// The extension of a file name.
pub fn extension_of_name(name: &str) -> (ext: Option<String>)
    ensures
        match name_extension(name@) {
            Some(e) => ext matches Some(s) && s@ == e,
            None => ext is None,
        },
{
    let chars = chars_of(name);
    let n: usize = chars.len();
    let mut d: usize = n;
    while d > 0 && chars[d - 1] != '.'
        invariant
            d <= n,
            n == chars.len(),
            forall|i: int| d <= i < n ==> chars[i] != '.',
        decreases d,
    {
        d = d - 1;
    }
    if d == 0 {
        proof {
            lemma_last_dot_none(name@);
        }
        return None;
    }
    proof {
        lemma_last_dot_is(name@, d - 1);
    }
    if d == 1 {
        return None;
    }
    if n == 2 && chars[0] == '.' && chars[1] == '.' {
        return None;
    }
    let ext = String::from_str(name.substring_char(d, n));
    proof {
        assert(name@.subrange(d as int, n as int) == name@.skip(d as int));
    }
    Some(ext)
}

/// The extension of the file that `path` names.
pub fn file_extension(path: &str) -> (ext: Option<String>)
    ensures
        match extension(path@) {
            Some(e) => ext matches Some(s) && s@ == e,
            None => ext is None,
        },
{
    let segs = split_segments(path);
    let mut i: usize = segs.len();
    assert(segs.deep_view().take(i as int) == segs.deep_view());
    while i > 0 && is_dot_text(segs[i - 1].as_str())
        invariant
            i <= segs.len(),
            last_name(segs.deep_view().take(i as int)) == last_name(segs.deep_view()),
        decreases i,
    {
        proof {
            let upto = segs.deep_view().take(i as int);
            assert(upto.drop_last() == segs.deep_view().take(i - 1));
            assert(upto.last() == segs[i - 1]@);
        }
        i = i - 1;
    }
    if i == 0 {
        return None;
    }
    proof {
        let upto = segs.deep_view().take(i as int);
        assert(upto.last() == segs[i - 1]@);
    }
    extension_of_name(segs[i - 1].as_str())
}

/// Whether `item` is a member of `list`.
pub fn contains_text(list: &Vec<String>, item: &String) -> (b: bool)
    ensures
        b == list.deep_view().contains(item@),
{
    let mut i: usize = 0;
    while i < list.len()
        invariant
            i <= list.len(),
            forall|j: int| 0 <= j < i ==> list.deep_view()[j] != item@,
        decreases list.len() - i,
    {
        assert(list.deep_view()[i as int] == list[i as int]@);
        if list[i] == *item {
            return true;
        }
        i = i + 1;
    }
    false
}

/// Whether the extension of `path` is one of `extensions`, compared as it stands.
pub fn has_extension_in(path: &str, extensions: &Vec<String>) -> (b: bool)
    ensures
        b == has_watched_extension(path@, extensions.deep_view()),
{
    match file_extension(path) {
        None => false,
        Some(ext) => contains_text(extensions, &ext),
    }
}

/// Whether `p` starts at the root.
pub fn starts_at_root(p: &str) -> (b: bool)
    ensures
        b == is_absolute(p@),
{
    !p.is_empty() && p.get_char(0) == '/'
}

/// Splits a path into its components.
pub fn split_components(p: &str) -> (comps: Vec<String>)
    ensures
        comps.deep_view() == components(p@),
{
    let segs = split_segments(p);
    let keep_first = !starts_at_root(p);
    let mut comps: Vec<String> = Vec::new();
    let mut i: usize = 0;
    assert(segs.deep_view().take(0) =~= Seq::<Seq<char>>::empty());
    assert(comps.deep_view() =~= Seq::<Seq<char>>::empty());
    while i < segs.len()
        invariant
            i <= segs.len(),
            comps.deep_view() == kept(segs.deep_view().take(i as int), keep_first),
        decreases segs.len() - i,
    {
        proof {
            let next = segs.deep_view().take(i + 1);
            assert(next.drop_last() == segs.deep_view().take(i as int));
            assert(next.last() == segs[i as int]@);
        }
        if !is_dot_text(segs[i].as_str()) || (keep_first && i == 0) {
            let ghost before = comps.deep_view();
            let piece = segs[i].clone();
            comps.push(piece);
            assert(comps.deep_view() =~= before.push(segs[i as int]@));
        }
        i = i + 1;
    }
    assert(segs.deep_view().take(i as int) == segs.deep_view());
    comps
}

/// Whether `file` lies under `root`, or is `root`.
pub fn lies_under(root: &str, file: &str) -> (b: bool)
    ensures
        b == is_under(root@, file@),
{
    let root_comps = split_components(root);
    let file_comps = split_components(file);
    segments_open(&root_comps, &file_comps) && starts_at_root(root) == starts_at_root(file)
}

/// Whether `head` is the beginning of `all`.
fn segments_open(head: &Vec<String>, all: &Vec<String>) -> (b: bool)
    ensures
        b == (head.len() <= all.len() && all.deep_view().take(head.len() as int)
            == head.deep_view()),
{
    if head.len() > all.len() {
        return false;
    }
    let mut i: usize = 0;
    while i < head.len()
        invariant
            i <= head.len() <= all.len(),
            forall|j: int| 0 <= j < i ==> all.deep_view()[j] == head.deep_view()[j],
        decreases head.len() - i,
    {
        assert(head.deep_view()[i as int] == head[i as int]@);
        assert(all.deep_view()[i as int] == all[i as int]@);
        if head[i] != all[i] {
            assert(all.deep_view().take(head.len() as int)[i as int] != head.deep_view()[i as int]);
            return false;
        }
        i = i + 1;
    }
    assert(all.deep_view().take(head.len() as int) =~= head.deep_view());
    true
}

/// The remote path of `local_file`, which must lie under `local_root`.
///
/// The path has the remote root, without the `/` characters at its end, in front,
/// and behind it the components of `local_file` below `local_root`, each after
/// one `/`: repeated separators and `.` segments of the local path are not
/// carried over. A file that does not lie under the local root is refused
/// with its own path as the text of the failure.
pub fn map_remote_path(local_root: &str, remote_root: &str, local_file: &str) -> (r: Result<
    String,
    SyncError,
>)
    ensures
        is_under(local_root@, local_file@) ==> (r matches Ok(s) && s@ == remote_path(
            local_root@,
            remote_root@,
            local_file@,
        )),
        !is_under(local_root@, local_file@) ==> (r matches Err(e) && e@ == (
            ErrorKind::PathMapping,
            local_file@,
        )),
{
    let root_comps = split_components(local_root);
    let file_comps = split_components(local_file);
    if starts_at_root(local_root) != starts_at_root(local_file) || !segments_open(
        &root_comps,
        &file_comps,
    ) {
        return Err(SyncError::PathMapping(String::from_str(local_file)));
    }
    let mut out = String::from_str(trim_end_slashes(remote_root));
    let k: usize = root_comps.len();
    let mut i: usize = k;
    let ghost comps = components(local_file@);
    assert(rooted(comps.subrange(k as int, k as int)) == Seq::<char>::empty());
    assert(out@ + Seq::<char>::empty() == out@);
    while i < file_comps.len()
        invariant
            k <= i <= file_comps.len(),
            file_comps.deep_view() == comps,
            out@ == trim_trailing_slashes(remote_root@) + rooted(
                comps.subrange(k as int, i as int),
            ),
        decreases file_comps.len() - i,
    {
        proof {
            reveal_strlit("/");
            assert("/"@ == seq!['/']);
            let next = comps.subrange(k as int, i + 1);
            assert(next.drop_last() == comps.subrange(k as int, i as int));
            assert(next.last() == file_comps[i as int]@);
        }
        out.append("/");
        out.append(file_comps[i].as_str());
        i = i + 1;
    }
    assert(comps.subrange(k as int, i as int) == comps.skip(k as int));
    Ok(out)
}

/// The directory that holds the last segment of `p`.
pub fn parent_of(p: &str) -> (d: &str)
    ensures
        d@ == parent_dir(p@),
{
    let chars = chars_of(p);
    let e = trimmed_len(&chars);
    let s = name_begin(&chars, e);
    let d = p.substring_char(0, s);
    assert(p@.subrange(0, s as int) == p@.take(s as int));
    d
}

/// The directories that must exist for the directory `dir` to exist, outermost first.
pub fn directory_chain(dir: &str) -> (chain: Vec<String>)
    ensures
        chain.deep_view() == dir_chain(dir@),
{
    let segs = split_segments(dir);
    let mut chain: Vec<String> = Vec::new();
    let mut current = String::new();
    let mut i: usize = 0;
    while i < segs.len()
        invariant
            i <= segs.len(),
            segs.deep_view() == segments(dir@),
            current@ == rooted(segments(dir@).take(i as int)),
            chain.len() == i,
            forall|j: int| 0 <= j < i ==> chain[j]@ == rooted(segments(dir@).take(j + 1)),
        decreases segs.len() - i,
    {
        proof {
            reveal_strlit("/");
            assert("/"@ == seq!['/']);
            let next = segments(dir@).take(i + 1);
            assert(next.drop_last() == segments(dir@).take(i as int));
            assert(next.last() == segs[i as int]@);
        }
        current.append("/");
        current.append(segs[i].as_str());
        chain.push(current.clone());
        i = i + 1;
    }
    assert(chain.deep_view() =~= dir_chain(dir@));
    chain
}

/// The remote path begins with the remote root, freed of trailing separators,
/// and what follows is the file's path below the local root, written with `/`:
/// one `/` before each component. No component is a `.` segment, but for the
/// first one where the local root is empty and the file's path starts with `./`.
pub proof fn law_remote_path_shape(local_root: Seq<char>, remote_root: Seq<char>, local_file: Seq<char>)
    requires
        is_under(local_root, local_file),
    ensures
        trim_trailing_slashes(remote_root).is_prefix_of(
            remote_path(local_root, remote_root, local_file),
        ),
        remote_path(local_root, remote_root, local_file).skip(
            trim_trailing_slashes(remote_root).len() as int,
        ) == rooted(relative_segments(local_root, local_file)),
        segments(rooted(relative_segments(local_root, local_file))) == relative_segments(
            local_root,
            local_file,
        ),
        forall|i: int|
            0 <= i < relative_segments(local_root, local_file).len() && (i > 0 || components(
                local_root,
            ).len() > 0) ==> !is_dot(#[trigger] relative_segments(local_root, local_file)[i]),
{
    let t = trim_trailing_slashes(remote_root);
    let rel = relative_segments(local_root, local_file);
    let r = remote_path(local_root, remote_root, local_file);
    assert(r.subrange(0, t.len() as int) == t);
    assert(r.skip(t.len() as int) == rooted(rel));
    lemma_relative_valid(local_root, local_file);
    lemma_segments_rooted(Seq::empty(), rel);
    assert(Seq::<char>::empty() + rooted(rel) == rooted(rel));
    assert(segments(Seq::<char>::empty()) + rel == rel);
    let k = components(local_root).len() as int;
    lemma_kept_members(segments(local_file), !is_absolute(local_file));
    assert forall|i: int| 0 <= i < rel.len() && (i > 0 || k > 0) implies !is_dot(
        #[trigger] rel[i],
    ) by {
        assert(rel[i] == components(local_file)[i + k]);
    }
}

/// The remote path of a file that lies under the local root, and is not the root
/// itself, is longer than the remote root, and a `/` follows the root in it.
pub proof fn law_remote_path_below_root(local_root: Seq<char>, remote_root: Seq<char>, local_file: Seq<char>)
    requires
        is_strictly_under(local_root, local_file),
    ensures
        remote_path(local_root, remote_root, local_file).len() > trim_trailing_slashes(
            remote_root,
        ).len() + 1,
        remote_path(local_root, remote_root, local_file)[trim_trailing_slashes(
            remote_root,
        ).len() as int] == '/',
        segments(remote_path(local_root, remote_root, local_file)).len() > segments(
            remote_root,
        ).len(),
{
    let t = trim_trailing_slashes(remote_root);
    let rel = relative_segments(local_root, local_file);
    lemma_relative_valid(local_root, local_file);
    lemma_rooted_absolute(rel);
    lemma_rooted_longer_than_slash(rel);
    assert(remote_path(local_root, remote_root, local_file)[t.len() as int] == rooted(rel)[0]);
    law_remote_path_mirrors(local_root, remote_root, local_file);
}

/// A rooted path with a segment holds more than its first `/`.
pub proof fn lemma_rooted_longer_than_slash(segs: Seq<Seq<char>>)
    requires
        segs.len() > 0,
        all_segments(segs),
    ensures
        rooted(segs).len() > 1,
{
    assert(segs.last() == segs[segs.len() - 1]);
}

/// The remote tree mirrors the local one: the segments of a remote path are those of
/// the remote root followed by the components of the file below the local root.
pub proof fn law_remote_path_mirrors(local_root: Seq<char>, remote_root: Seq<char>, local_file: Seq<char>)
    requires
        is_under(local_root, local_file),
    ensures
        segments(remote_path(local_root, remote_root, local_file)) == segments(remote_root)
            + relative_segments(local_root, local_file),
{
    lemma_relative_valid(local_root, local_file);
    lemma_segments_trim(remote_root);
    lemma_segments_rooted(
        trim_trailing_slashes(remote_root),
        relative_segments(local_root, local_file),
    );
}

/// What is kept of some segments are segments of them, in their order, and
/// none of them is `.`, but for a `.` kept in the first place.
pub proof fn lemma_kept_members(segs: Seq<Seq<char>>, keep_first: bool)
    ensures
        kept(segs, keep_first).len() <= segs.len(),
        all_segments(segs) ==> all_segments(kept(segs, keep_first)),
        forall|i: int|
            0 < i < kept(segs, keep_first).len() ==> !is_dot(#[trigger] kept(segs, keep_first)[i]),
        kept(segs, keep_first).len() > 0 && is_dot(kept(segs, keep_first)[0]) ==> keep_first
            && segs.len() > 0 && is_dot(segs[0]),
        segs.len() > 0 && is_dot(segs[0]) && keep_first ==> kept(segs, keep_first).len() > 0
            && kept(segs, keep_first)[0] == segs[0],
    decreases segs.len(),
{
    if segs.len() > 0 {
        let init = segs.drop_last();
        lemma_kept_members(init, keep_first);
        let now = kept(segs, keep_first);
        let before = kept(init, keep_first);
        if all_segments(segs) {
            assert forall|i: int| 0 <= i < init.len() implies is_segment(#[trigger] init[i]) by {
                assert(init[i] == segs[i]);
            }
            assert forall|i: int| 0 <= i < now.len() implies is_segment(#[trigger] now[i]) by {
                if i < before.len() {
                    assert(now[i] == before[i]);
                } else {
                    assert(now[i] == segs[segs.len() - 1]);
                }
            }
        }
        assert forall|i: int| 0 < i < now.len() implies !is_dot(#[trigger] now[i]) by {
            if i < before.len() {
                assert(now[i] == before[i]);
            } else {
                assert(now[i] == segs.last());
                if segs.len() == 1 {
                    assert(before.len() == 0);
                }
            }
        }
        if init.len() > 0 {
            assert(init[0] == segs[0]);
        }
        if now.len() > 0 {
            if before.len() > 0 {
                assert(now[0] == before[0]);
            } else {
                assert(now[0] == segs.last());
            }
        }
    }
}

/// What lies below the root is made of segments.
pub proof fn lemma_relative_valid(root: Seq<char>, file: Seq<char>)
    requires
        components(root).len() <= components(file).len(),
    ensures
        all_segments(relative_segments(root, file)),
{
    lemma_segments_valid(file);
    lemma_kept_members(segments(file), !is_absolute(file));
    let rel = relative_segments(root, file);
    assert forall|i: int| 0 <= i < rel.len() implies is_segment(#[trigger] rel[i]) by {
        assert(rel[i] == components(file)[i + components(root).len()]);
    }
}

/// The segments of the directory that holds the last segment of `p`.
pub open spec fn parent_segments(p: Seq<char>) -> Seq<Seq<char>> {
    if segments(p).len() == 0 {
        Seq::empty()
    } else {
        segments(p).drop_last()
    }
}

/// The chain of a directory has one member for each segment, outermost first.
/// Each member is an absolute path, and names the directory up to that segment.
pub proof fn law_dir_chain_shape(dir: Seq<char>)
    ensures
        dir_chain(dir).len() == segments(dir).len(),
        forall|i: int|
            0 <= i < dir_chain(dir).len() ==> is_absolute(#[trigger] dir_chain(dir)[i])
                && segments(dir_chain(dir)[i]) == segments(dir).take(i + 1),
{
    let segs = segments(dir);
    lemma_segments_valid(dir);
    assert forall|i: int| 0 <= i < dir_chain(dir).len() implies is_absolute(
        #[trigger] dir_chain(dir)[i],
    ) && segments(dir_chain(dir)[i]) == segs.take(i + 1) by {
        let upto = segs.take(i + 1);
        lemma_rooted_absolute(upto);
        assert(all_segments(upto)) by {
            assert forall|k: int| 0 <= k < upto.len() implies is_segment(#[trigger] upto[k]) by {
                assert(upto[k] == segs[k]);
            }
        }
        lemma_segments_rooted(Seq::empty(), upto);
        assert(Seq::<char>::empty() + rooted(upto) == rooted(upto));
        assert(segments(Seq::<char>::empty()) + upto == upto);
    }
}

/// The directories that must exist for a file to be sent to `p` are those
/// named by the segments of `p` but the last.
pub proof fn law_parent_chain(p: Seq<char>)
    ensures
        dir_chain(parent_dir(p)) == ancestor_dirs(parent_segments(p)),
{
    lemma_parent_segments(p);
    if segments(p).len() == 0 {
        assert(segments(parent_dir(p)) =~= Seq::<Seq<char>>::empty());
    }
}

} // verus!
