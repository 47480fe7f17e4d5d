//! Finding the files to upload, one directory listing at a time.
//!
//! A `Walk` keeps a stack of directories that still have to be listed. The driver
//! lists the directory on top and hands the entries back; the files among them
//! whose extension is watched are collected, the directories among them are put
//! on the stack. A directory is thus visited before the directories in it, and
//! those in the order of their listing.

use crate::config::clone_texts;
use crate::error::{ErrorKind, SyncError};
use crate::path::{
    chars_of, components, has_extension_in, has_watched_extension, is_absolute, is_dot,
    is_dot_dot, is_segment, is_strictly_under, is_under, lemma_name_start_is,
    lemma_segments_push, segments,
};
use vstd::prelude::*;
use vstd::string::StringExecFns;

verus! {

/// One entry of a directory listing.
#[derive(Debug)]
pub struct DirEntry {
    /// The name of the entry inside its directory.
    pub name: String,
    /// Whether the entry is a directory. Anything else counts as a file.
    pub is_dir: bool,
}

/// A `DirEntry` as plain mathematical values.
pub struct EntryView {
    pub name: Seq<char>,
    pub is_dir: bool,
}

impl View for DirEntry {
    type V = EntryView;

    open spec fn view(&self) -> EntryView {
        EntryView { name: self.name@, is_dir: self.is_dir }
    }
}

impl DeepView for DirEntry {
    type V = EntryView;

    open spec fn deep_view(&self) -> EntryView {
        self@
    }
}

/// Whether `name` can name an entry: a segment other than `.` and `..`.
/// Entries with other names are passed over.
pub open spec fn is_entry_name(name: Seq<char>) -> bool {
    is_segment(name) && !is_dot(name) && !is_dot_dot(name)
}

/// The path of the entry `name` of the directory `dir`.
pub open spec fn child_path(dir: Seq<char>, name: Seq<char>) -> Seq<char> {
    if dir.len() == 0 {
        name
    } else if dir.last() == '/' {
        dir + name
    } else {
        dir + seq!['/'] + name
    }
}

/// The paths of the files among `entries` whose extension is watched,
/// in the order of the listing.
pub open spec fn files_in(dir: Seq<char>, entries: Seq<EntryView>, extensions: Seq<Seq<char>>) -> Seq<
    Seq<char>,
>
    decreases entries.len(),
{
    if entries.len() == 0 {
        Seq::empty()
    } else {
        let rest = files_in(dir, entries.drop_last(), extensions);
        let entry = entries.last();
        if !entry.is_dir && is_entry_name(entry.name) && has_watched_extension(
            entry.name,
            extensions,
        ) {
            rest.push(child_path(dir, entry.name))
        } else {
            rest
        }
    }
}

/// The paths of the directories among `entries`, the last of the listing first.
pub open spec fn subdirs_rev(dir: Seq<char>, entries: Seq<EntryView>) -> Seq<Seq<char>>
    decreases entries.len(),
{
    if entries.len() == 0 {
        Seq::empty()
    } else {
        let rest = subdirs_rev(dir, entries.skip(1));
        let entry = entries[0];
        if entry.is_dir && is_entry_name(entry.name) {
            rest.push(child_path(dir, entry.name))
        } else {
            rest
        }
    }
}

/// A search for the files to upload.
pub struct Walk {
    root: String,
    extensions: Vec<String>,
    pending: Vec<String>,
    found: Vec<String>,
    failure: Option<String>,
}

/// A `Walk` as plain mathematical values.
pub struct WalkView {
    /// The directory that the search started from.
    pub root: Seq<char>,
    /// The watched extensions.
    pub extensions: Seq<Seq<char>>,
    /// The directories that still have to be listed. The last one is next.
    pub pending: Seq<Seq<char>>,
    /// The files found so far.
    pub found: Seq<Seq<char>>,
    /// Why the search failed, if it did.
    pub failure: Option<Seq<char>>,
}

impl WalkView {
    /// A search that has to list `root` first.
    pub open spec fn start(root: Seq<char>, extensions: Seq<Seq<char>>) -> WalkView {
        WalkView { root, extensions, pending: seq![root], found: Seq::empty(), failure: None }
    }

    /// The directory that the driver has to list next, if the search is not over.
    pub open spec fn awaited(self) -> Option<Seq<char>> {
        if self.pending.len() > 0 {
            Some(self.pending.last())
        } else {
            None
        }
    }

    /// Whether the search is over.
    pub open spec fn done(self) -> bool {
        self.pending.len() == 0
    }

    /// The search after the driver has listed the awaited directory.
    /// A search that is over stays as it is.
    pub open spec fn supply(self, entries: Seq<EntryView>) -> WalkView {
        if self.pending.len() == 0 {
            self
        } else {
            WalkView {
                root: self.root,
                extensions: self.extensions,
                pending: self.pending.drop_last() + subdirs_rev(self.pending.last(), entries),
                found: self.found + files_in(self.pending.last(), entries, self.extensions),
                failure: self.failure,
            }
        }
    }

    /// The search after the driver could not list the awaited directory:
    /// it is over, and keeps nothing of what it had found.
    /// A search that is over stays as it is.
    pub open spec fn fail(self, reason: Seq<char>) -> WalkView {
        if self.pending.len() == 0 {
            self
        } else {
            WalkView {
                root: self.root,
                extensions: self.extensions,
                pending: Seq::empty(),
                found: Seq::empty(),
                failure: Some(reason),
            }
        }
    }

    /// What the search has come to: nothing while it goes on, the failure if
    /// a directory could not be listed, else the files found.
    pub open spec fn outcome(self) -> Option<Result<Seq<Seq<char>>, (ErrorKind, Seq<char>)>> {
        if self.pending.len() > 0 {
            None
        } else {
            match self.failure {
                Some(reason) => Some(Err((ErrorKind::Discovery, reason))),
                None => Some(Ok(self.found)),
            }
        }
    }

    /// What holds of every search: the directories to list lie under the root or
    /// are the root, the files found lie under the root and are not the root, the
    /// files found have a watched extension, and a search that failed has found nothing.
    pub open spec fn well_formed(self) -> bool {
        &&& forall|i: int|
            0 <= i < self.pending.len() ==> is_under(self.root, #[trigger] self.pending[i])
        &&& forall|i: int|
            0 <= i < self.found.len() ==> is_strictly_under(self.root, #[trigger] self.found[i])
                && has_watched_extension(self.found[i], self.extensions)
        &&& self.failure is Some ==> self.found.len() == 0 && self.pending.len() == 0
    }
}

impl View for Walk {
    type V = WalkView;

    closed spec fn view(&self) -> WalkView {
        WalkView {
            root: self.root@,
            extensions: self.extensions.deep_view(),
            pending: self.pending.deep_view(),
            found: self.found.deep_view(),
            failure: match self.failure {
                Some(reason) => Some(reason@),
                None => None,
            },
        }
    }
}

/// A path is its own single segment when it is one.
pub proof fn lemma_segments_single(name: Seq<char>)
    requires
        is_segment(name),
    ensures
        segments(name) == seq![name],
{
    lemma_name_start_is(name, 0);
    assert(name.last() == name[name.len() - 1]);
    assert(name.take(0) == Seq::<char>::empty());
    assert(name.skip(0) == name);
    assert(segments(name) == segments(name.take(0)).push(name.skip(0)));
}

/// The path of an entry has the segments of its directory and, last, the entry's name.
/// It is absolute exactly if the directory is.
pub proof fn lemma_child_segments(dir: Seq<char>, name: Seq<char>)
    requires
        is_segment(name),
    ensures
        segments(child_path(dir, name)) == segments(dir).push(name),
        is_absolute(child_path(dir, name)) == is_absolute(dir),
{
    if dir.len() == 0 {
        lemma_segments_single(name);
    } else if dir.last() == '/' {
        let head = dir.drop_last();
        assert(dir + name == head + seq!['/'] + name);
        lemma_segments_push(head, name);
        assert((dir + name)[0] == dir[0]);
    } else {
        lemma_segments_push(dir, name);
        assert((dir + seq!['/'] + name)[0] == dir[0]);
    }
}

/// The path of an entry other than `.` has the components of its directory and,
/// last, the entry's name.
pub proof fn lemma_child_components(dir: Seq<char>, name: Seq<char>)
    requires
        is_segment(name),
        !is_dot(name),
    ensures
        components(child_path(dir, name)) == components(dir).push(name),
{
    lemma_child_segments(dir, name);
    assert(segments(dir).push(name).drop_last() == segments(dir));
}

/// An entry of a directory under the root lies under the root one component
/// further down, and its extension is that of its name.
pub proof fn lemma_child_under(root: Seq<char>, dir: Seq<char>, name: Seq<char>, extensions: Seq<Seq<char>>)
    requires
        is_under(root, dir),
        is_segment(name),
        !is_dot(name),
    ensures
        is_strictly_under(root, child_path(dir, name)),
        has_watched_extension(child_path(dir, name), extensions) == has_watched_extension(
            name,
            extensions,
        ),
{
    lemma_child_segments(dir, name);
    lemma_child_components(dir, name);
    lemma_segments_single(name);
    let k = components(root).len() as int;
    assert(components(dir).push(name).take(k) == components(dir).take(k));
    assert(seq![name].drop_last() == Seq::<Seq<char>>::empty());
}

/// The files of a listing of a directory under the root lie under the root,
/// and their extensions are watched.
pub proof fn lemma_files_in_under(root: Seq<char>, dir: Seq<char>, entries: Seq<EntryView>, extensions: Seq<Seq<char>>)
    requires
        is_under(root, dir),
    ensures
        forall|i: int|
            0 <= i < files_in(dir, entries, extensions).len() ==> is_strictly_under(
                root,
                #[trigger] files_in(dir, entries, extensions)[i],
            ) && has_watched_extension(files_in(dir, entries, extensions)[i], extensions),
    decreases entries.len(),
{
    if entries.len() > 0 {
        lemma_files_in_under(root, dir, entries.drop_last(), extensions);
        let entry = entries.last();
        let rest = files_in(dir, entries.drop_last(), extensions);
        let all = files_in(dir, entries, extensions);
        if is_entry_name(entry.name) {
            lemma_child_under(root, dir, entry.name, extensions);
        }
        assert forall|i: int| 0 <= i < all.len() implies is_strictly_under(
            root,
            #[trigger] all[i],
        ) && has_watched_extension(all[i], extensions) by {
            if i < rest.len() {
                assert(all[i] == rest[i]);
            }
        }
    }
}

/// The directories of a listing of a directory under the root lie under the root.
pub proof fn lemma_subdirs_under(root: Seq<char>, dir: Seq<char>, entries: Seq<EntryView>)
    requires
        is_under(root, dir),
    ensures
        forall|i: int|
            0 <= i < subdirs_rev(dir, entries).len() ==> is_under(
                root,
                #[trigger] subdirs_rev(dir, entries)[i],
            ),
    decreases entries.len(),
{
    if entries.len() > 0 {
        lemma_subdirs_under(root, dir, entries.skip(1));
        let entry = entries[0];
        let rest = subdirs_rev(dir, entries.skip(1));
        let all = subdirs_rev(dir, entries);
        if is_entry_name(entry.name) {
            lemma_child_under(root, dir, entry.name, Seq::empty());
        }
        assert forall|i: int| 0 <= i < all.len() implies is_under(root, #[trigger] all[i]) by {
            if i < rest.len() {
                assert(all[i] == rest[i]);
            }
        }
    }
}

/// A search starts well formed.
pub proof fn law_walk_starts_well_formed(root: Seq<char>, extensions: Seq<Seq<char>>)
    ensures
        WalkView::start(root, extensions).well_formed(),
{
    let fresh = WalkView::start(root, extensions);
    assert(fresh.pending[0] == root);
    assert(components(root).take(components(root).len() as int) == components(root));
}

/// A listing or a failure leaves a search well formed.
/// So every file that a search finds lies under its root and has a watched extension.
pub proof fn law_walk_stays_well_formed(w: WalkView, entries: Seq<EntryView>, reason: Seq<char>)
    requires
        w.well_formed(),
    ensures
        w.supply(entries).well_formed(),
        w.fail(reason).well_formed(),
{
    if w.pending.len() > 0 {
        let dir = w.pending.last();
        let next = w.supply(entries);
        lemma_files_in_under(w.root, dir, entries, w.extensions);
        lemma_subdirs_under(w.root, dir, entries);
        assert forall|i: int| 0 <= i < next.pending.len() implies is_under(
            w.root,
            #[trigger] next.pending[i],
        ) by {
            if i < w.pending.len() - 1 {
                assert(next.pending[i] == w.pending[i]);
            } else {
                assert(next.pending[i] == subdirs_rev(dir, entries)[i - (w.pending.len() - 1)]);
            }
        }
        assert forall|i: int| 0 <= i < next.found.len() implies is_strictly_under(
            w.root,
            #[trigger] next.found[i],
        ) && has_watched_extension(next.found[i], w.extensions) by {
            if i < w.found.len() {
                assert(next.found[i] == w.found[i]);
            } else {
                assert(next.found[i] == files_in(dir, entries, w.extensions)[i - w.found.len()]);
            }
        }
    }
}

/// A failure is final: no listing brings a file back.
pub proof fn law_failed_walk_finds_nothing(w: WalkView, entries: Seq<EntryView>, reason: Seq<char>)
    requires
        w.pending.len() > 0,
    ensures
        w.fail(reason).outcome() == Some(
            Err::<Seq<Seq<char>>, (ErrorKind, Seq<char>)>((ErrorKind::Discovery, reason)),
        ),
        w.fail(reason).supply(entries) == w.fail(reason),
{
}

/// Whether `name` can name an entry: a segment other than `.` and `..`.
pub fn check_entry_name(name: &str) -> (b: bool)
    ensures
        b == is_entry_name(name@),
{
    let chars = chars_of(name);
    let n: usize = chars.len();
    if n == 0 {
        return false;
    }
    if n == 1 && chars[0] == '.' {
        return false;
    }
    if n == 2 && chars[0] == '.' && chars[1] == '.' {
        return false;
    }
    let mut i: usize = 0;
    while i < n
        invariant
            i <= n,
            n == chars.len(),
            chars@ == name@,
            forall|j: int| 0 <= j < i ==> name@[j] != '/',
        decreases n - i,
    {
        if chars[i] == '/' {
            return false;
        }
        i = i + 1;
    }
    true
}

/// The path of the entry `name` of the directory `dir`.
pub fn join_child(dir: &str, name: &str) -> (path: String)
    ensures
        path@ == child_path(dir@, name@),
{
    let chars = chars_of(dir);
    let mut path = String::from_str(dir);
    if chars.len() > 0 && chars[chars.len() - 1] != '/' {
        proof {
            reveal_strlit("/");
            assert("/"@ == seq!['/']);
        }
        path.append("/");
    }
    path.append(name);
    proof {
        if dir@.len() == 0 {
            assert(dir@ + name@ == name@);
        }
    }
    path
}

/// Starts the search below `root` for the files that have one of `extensions`.
/// The driver has to list `root` first.
pub fn find_files_recursively(root: &str, extensions: &Vec<String>) -> (walk: Walk)
    ensures
        walk@ == WalkView::start(root@, extensions.deep_view()),
        walk@.well_formed(),
{
    let mut pending: Vec<String> = Vec::new();
    pending.push(String::from_str(root));
    let walk = Walk {
        root: String::from_str(root),
        extensions: clone_texts(extensions),
        pending,
        found: Vec::new(),
        failure: None,
    };
    proof {
        assert(walk.pending.deep_view() =~= seq![root@]);
        assert(walk.found.deep_view() =~= Seq::<Seq<char>>::empty());
        law_walk_starts_well_formed(root@, extensions.deep_view());
    }
    walk
}

impl Walk {
    /// The directory that the driver has to list next, if the search is not over.
    pub fn awaited(&self) -> (dir: Option<&str>)
        ensures
            match self@.awaited() {
                Some(d) => dir matches Some(s) && s@ == d,
                None => dir is None,
            },
    {
        let n: usize = self.pending.len();
        if n == 0 {
            None
        } else {
            assert(self.pending.deep_view().last() == self.pending[n - 1]@);
            Some(self.pending[n - 1].as_str())
        }
    }

    /// Whether the search is over.
    pub fn is_done(&self) -> (b: bool)
        ensures
            b == self@.done(),
    {
        self.pending.len() == 0
    }

    /// Whether the search is over because a directory could not be listed.
    pub fn has_failed(&self) -> (b: bool)
        ensures
            b == (self@.failure is Some),
    {
        self.failure.is_some()
    }

    /// The files found so far, each with the root in front, in the order of finding.
    pub fn found(&self) -> (files: &Vec<String>)
        ensures
            files.deep_view() == self@.found,
    {
        &self.found
    }

    /// Takes the listing of the awaited directory: its files with a watched
    /// extension are found, its directories will be listed next, the first of the
    /// listing first. Entries named `.` or `..`, or whose name is empty or holds
    /// a `/`, are passed over. A search that is over stays as it is.
    pub fn supply(&mut self, entries: &Vec<DirEntry>)
        ensures
            final(self)@ == old(self)@.supply(entries.deep_view()),
    {
        let ghost before = self@;
        let ghost listing = entries.deep_view();
        let dir = match self.pending.pop() {
            None => {
                assert(self.pending.deep_view() =~= old(self).pending.deep_view());
                return ;
            },
            Some(dir) => dir,
        };
        proof {
            assert(self.pending.deep_view() =~= before.pending.drop_last());
            assert(dir@ == before.pending.last());
            assert(listing.take(0) =~= Seq::<EntryView>::empty());
            assert(before.found + Seq::<Seq<char>>::empty() =~= before.found);
        }
        let mut i: usize = 0;
        while i < entries.len()
            invariant
                i <= entries.len(),
                listing == entries.deep_view(),
                self.extensions.deep_view() == before.extensions,
                self.found.deep_view() == before.found + files_in(
                    dir@,
                    listing.take(i as int),
                    before.extensions,
                ),
                self.root == old(self).root,
                self.failure == old(self).failure,
                self.pending.deep_view() == before.pending.drop_last(),
            decreases entries.len() - i,
        {
            let entry = &entries[i];
            proof {
                assert(listing.take(i + 1).drop_last() == listing.take(i as int));
                assert(listing.take(i + 1).last() == entry@);
            }
            if !entry.is_dir && check_entry_name(entry.name.as_str()) && has_extension_in(
                entry.name.as_str(),
                &self.extensions,
            ) {
                let ghost found_before = self.found.deep_view();
                let path = join_child(dir.as_str(), entry.name.as_str());
                self.found.push(path);
                assert(self.found.deep_view() =~= found_before.push(path@));
                assert(found_before.push(path@) =~= before.found + files_in(
                    dir@,
                    listing.take(i as int),
                    before.extensions,
                ).push(path@));
            }
            i = i + 1;
        }
        proof {
            assert(listing.take(i as int) == listing);
            assert(listing.skip(entries.len() as int) =~= Seq::<EntryView>::empty());
            assert(before.pending.drop_last() + Seq::<Seq<char>>::empty()
                =~= before.pending.drop_last());
        }
        let mut j: usize = entries.len();
        while j > 0
            invariant
                j <= entries.len(),
                listing == entries.deep_view(),
                self.extensions.deep_view() == before.extensions,
                self.found.deep_view() == before.found + files_in(dir@, listing, before.extensions),
                self.root == old(self).root,
                self.failure == old(self).failure,
                self.pending.deep_view() == before.pending.drop_last() + subdirs_rev(
                    dir@,
                    listing.skip(j as int),
                ),
            decreases j,
        {
            j = j - 1;
            let entry = &entries[j];
            proof {
                assert(listing.skip(j as int).skip(1) == listing.skip(j + 1));
                assert(listing.skip(j as int)[0] == entry@);
            }
            if entry.is_dir && check_entry_name(entry.name.as_str()) {
                let ghost pending_before = self.pending.deep_view();
                let path = join_child(dir.as_str(), entry.name.as_str());
                self.pending.push(path);
                assert(self.pending.deep_view() =~= pending_before.push(path@));
                assert(pending_before.push(path@) =~= before.pending.drop_last() + subdirs_rev(
                    dir@,
                    listing.skip(j + 1),
                ).push(path@));
            }
        }
        assert(listing.skip(0) == listing);
    }

    /// Takes the news that the awaited directory could not be listed: the search
    /// is over and keeps nothing of what it had found. A search that is over
    /// stays as it is.
    pub fn fail(&mut self, reason: String)
        ensures
            final(self)@ == old(self)@.fail(reason@),
    {
        if self.pending.len() > 0 {
            self.pending = Vec::new();
            self.found = Vec::new();
            self.failure = Some(reason);
            assert(self.pending.deep_view() =~= Seq::<Seq<char>>::empty());
            assert(self.found.deep_view() =~= Seq::<Seq<char>>::empty());
        }
    }

    /// The files found so far, handed over.
    pub fn into_found(self) -> (files: Vec<String>)
        ensures
            files.deep_view() == self@.found,
    {
        self.found
    }

    /// What the search has come to: nothing while it goes on, the failure if
    /// a directory could not be listed, else the files found.
    pub fn finish(self) -> (r: Option<Result<Vec<String>, SyncError>>)
        ensures
            match self@.outcome() {
                None => r is None,
                Some(Ok(found)) => r matches Some(Ok(files)) && files.deep_view() == found,
                Some(Err(e)) => r matches Some(Err(err)) && err@ == e,
            },
    {
        if self.pending.len() > 0 {
            return None;
        }
        match self.failure {
            Some(reason) => Some(Err(SyncError::Discovery(reason))),
            None => Some(Ok(self.found)),
        }
    }
}

} // verus!
