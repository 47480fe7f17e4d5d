//! What a search finds in a given tree.
//!
//! The search of `discovery` sees one listing at a time. Here a whole tree is
//! given at once, as a mathematical value, and it is shown that a search that is
//! handed the listings of that tree ends after one listing per directory, and has
//! then found the files of the tree whose extension is watched: those of a
//! directory first, then those of the directories in it, in the order of the listing.

use crate::discovery::{
    child_path, files_in, is_entry_name, lemma_child_segments, subdirs_rev, EntryView, WalkView,
};
use crate::error::ErrorKind;
use crate::path::{has_watched_extension, segments};
use crate::session::no_duplicates;
use vstd::prelude::*;

verus! {

/// A file or a directory, with all that lies in it.
pub struct Node {
    pub name: Seq<char>,
    pub is_dir: bool,
    /// What the directory holds; without meaning for a file.
    pub entries: Seq<Node>,
}

impl Node {
    /// Whether a search goes into this node: whether it is a directory with a usable name.
    pub open spec fn is_visited(self) -> bool {
        self.is_dir && is_entry_name(self.name)
    }
}

/// The listing of a directory that holds `entries`.
pub open spec fn listing(entries: Seq<Node>) -> Seq<EntryView> {
    Seq::new(entries.len(), |i: int| EntryView { name: entries[i].name, is_dir: entries[i].is_dir })
}

/// The watched files in the directories among `entries`, at any depth,
/// where `dir` is the path of the directory that holds `entries`.
pub open spec fn watched_below(dir: Seq<char>, entries: Seq<Node>, extensions: Seq<Seq<char>>) -> Seq<
    Seq<char>,
>
    decreases entries,
{
    if entries.len() == 0 {
        Seq::empty()
    } else if entries[0].is_visited() {
        files_in(child_path(dir, entries[0].name), listing(entries[0].entries), extensions)
            + watched_below(child_path(dir, entries[0].name), entries[0].entries, extensions)
            + watched_below(dir, entries.skip(1), extensions)
    } else {
        watched_below(dir, entries.skip(1), extensions)
    }
}

/// The watched files of the directory `dir` that holds `entries`: its own
/// first, then those of the directories in it, one directory after the other.
pub open spec fn watched_files(dir: Seq<char>, entries: Seq<Node>, extensions: Seq<Seq<char>>) -> Seq<
    Seq<char>,
> {
    files_in(dir, listing(entries), extensions) + watched_below(dir, entries, extensions)
}

/// How many directories a search goes into among `entries`, at any depth.
pub open spec fn dirs_below(entries: Seq<Node>) -> nat
    decreases entries,
{
    if entries.len() == 0 {
        0
    } else if entries[0].is_visited() {
        1 + dirs_below(entries[0].entries) + dirs_below(entries.skip(1))
    } else {
        dirs_below(entries.skip(1))
    }
}

/// What the directories among `entries` hold, the last of the listing first.
pub open spec fn subnodes_rev(entries: Seq<Node>) -> Seq<Seq<Node>>
    decreases entries.len(),
{
    if entries.len() == 0 {
        Seq::empty()
    } else if entries[0].is_visited() {
        subnodes_rev(entries.skip(1)).push(entries[0].entries)
    } else {
        subnodes_rev(entries.skip(1))
    }
}

/// The watched files that a search still has to find, when `holds[i]` is what
/// the pending directory `pending[i]` holds.
pub open spec fn still_to_find(pending: Seq<Seq<char>>, holds: Seq<Seq<Node>>, extensions: Seq<Seq<char>>) -> Seq<
    Seq<char>,
>
    decreases pending.len(),
{
    if pending.len() == 0 || holds.len() == 0 {
        Seq::empty()
    } else {
        watched_files(pending.last(), holds.last(), extensions) + still_to_find(
            pending.drop_last(),
            holds.drop_last(),
            extensions,
        )
    }
}

/// How many listings a search still needs, when `holds` is what its pending directories hold.
pub open spec fn listings_left(holds: Seq<Seq<Node>>) -> nat
    decreases holds.len(),
{
    if holds.len() == 0 {
        0
    } else {
        1 + dirs_below(holds.last()) + listings_left(holds.drop_last())
    }
}

/// Whether the search `w` is on its way through a tree whose watched files are `all`:
/// `holds` tells what each pending directory holds, and what is found together with
/// what is still to find makes `all`.
pub open spec fn on_track(w: WalkView, holds: Seq<Seq<Node>>, all: Seq<Seq<char>>) -> bool {
    &&& w.failure is None
    &&& w.pending.len() == holds.len()
    &&& w.found + still_to_find(w.pending, holds, w.extensions) == all
}

/// What the pending directories hold after the one on top has been listed.
pub open spec fn holds_after_listing(holds: Seq<Seq<Node>>) -> Seq<Seq<Node>> {
    holds.drop_last() + subnodes_rev(holds.last())
}

/// The listing of all entries but the first is the listing without its first entry.
proof fn lemma_listing_skip(entries: Seq<Node>)
    requires
        entries.len() > 0,
    ensures
        listing(entries).skip(1) == listing(entries.skip(1)),
        listing(entries)[0] == (EntryView { name: entries[0].name, is_dir: entries[0].is_dir }),
{
    assert(listing(entries).skip(1) =~= listing(entries.skip(1)));
}

/// The directories that a listing puts on the stack hold, one for one, what
/// `subnodes_rev` says, and what is to find in them is what lies below the listing.
proof fn lemma_subdirs_match(dir: Seq<char>, entries: Seq<Node>, extensions: Seq<Seq<char>>)
    ensures
        subdirs_rev(dir, listing(entries)).len() == subnodes_rev(entries).len(),
        still_to_find(subdirs_rev(dir, listing(entries)), subnodes_rev(entries), extensions)
            == watched_below(dir, entries, extensions),
        listings_left(subnodes_rev(entries)) == dirs_below(entries),
    decreases entries.len(),
{
    if entries.len() > 0 {
        lemma_listing_skip(entries);
        lemma_subdirs_match(dir, entries.skip(1), extensions);
        if entries[0].is_visited() {
            let dirs = subdirs_rev(dir, listing(entries));
            let holds = subnodes_rev(entries);
            let child = child_path(dir, entries[0].name);
            assert(dirs.last() == child);
            assert(holds.last() == entries[0].entries);
            assert(dirs.drop_last() == subdirs_rev(dir, listing(entries.skip(1))));
            assert(holds.drop_last() == subnodes_rev(entries.skip(1)));
        }
    }
}

/// What is to find in two stacks put together is what is to find in the upper
/// one, then what is to find in the lower one; and the listings add up.
proof fn lemma_still_to_find_concat(
    lower: Seq<Seq<char>>,
    lower_holds: Seq<Seq<Node>>,
    upper: Seq<Seq<char>>,
    upper_holds: Seq<Seq<Node>>,
    extensions: Seq<Seq<char>>,
)
    requires
        lower.len() == lower_holds.len(),
        upper.len() == upper_holds.len(),
    ensures
        still_to_find(lower + upper, lower_holds + upper_holds, extensions) == still_to_find(
            upper,
            upper_holds,
            extensions,
        ) + still_to_find(lower, lower_holds, extensions),
        listings_left(lower_holds + upper_holds) == listings_left(upper_holds) + listings_left(
            lower_holds,
        ),
    decreases upper.len(),
{
    if upper.len() == 0 {
        assert(lower + upper == lower);
        assert(lower_holds + upper_holds == lower_holds);
        assert(Seq::<Seq<char>>::empty() + still_to_find(lower, lower_holds, extensions)
            == still_to_find(lower, lower_holds, extensions));
    } else {
        lemma_still_to_find_concat(
            lower,
            lower_holds,
            upper.drop_last(),
            upper_holds.drop_last(),
            extensions,
        );
        assert((lower + upper).drop_last() == lower + upper.drop_last());
        assert((lower_holds + upper_holds).drop_last() == lower_holds + upper_holds.drop_last());
        assert((lower + upper).last() == upper.last());
        assert((lower_holds + upper_holds).last() == upper_holds.last());
        let top = watched_files(upper.last(), upper_holds.last(), extensions);
        let mid = still_to_find(upper.drop_last(), upper_holds.drop_last(), extensions);
        let low = still_to_find(lower, lower_holds, extensions);
        assert(top + (mid + low) == (top + mid) + low);
    }
}

/// A search that starts at the root of a tree is on track to find the watched files of the tree.
pub proof fn law_search_starts_on_track(root: Seq<char>, entries: Seq<Node>, extensions: Seq<Seq<char>>)
    ensures
        on_track(
            WalkView::start(root, extensions),
            seq![entries],
            watched_files(root, entries, extensions),
        ),
        listings_left(seq![entries]) == 1 + dirs_below(entries),
{
    let w = WalkView::start(root, extensions);
    let holds = seq![entries];
    assert(w.pending.last() == root);
    assert(holds.last() == entries);
    assert(w.pending.drop_last() == Seq::<Seq<char>>::empty());
    assert(holds.drop_last() == Seq::<Seq<Node>>::empty());
    let all = watched_files(root, entries, extensions);
    assert(still_to_find(w.pending.drop_last(), holds.drop_last(), extensions)
        == Seq::<Seq<char>>::empty());
    assert(still_to_find(w.pending, holds, extensions) == all + Seq::<Seq<char>>::empty());
    assert(all + Seq::<Seq<char>>::empty() == all);
    assert(w.found + all == all);
    assert(listings_left(holds.drop_last()) == 0);
}

/// A search on track stays on track when it is handed the listing of the directory
/// it awaits, and then needs one listing less.
pub proof fn law_listing_keeps_search_on_track(w: WalkView, holds: Seq<Seq<Node>>, all: Seq<Seq<char>>)
    requires
        on_track(w, holds, all),
        !w.done(),
    ensures
        on_track(w.supply(listing(holds.last())), holds_after_listing(holds), all),
        listings_left(holds_after_listing(holds)) + 1 == listings_left(holds),
{
    let dir = w.pending.last();
    let top = holds.last();
    let next = w.supply(listing(top));
    lemma_subdirs_match(dir, top, w.extensions);
    lemma_still_to_find_concat(
        w.pending.drop_last(),
        holds.drop_last(),
        subdirs_rev(dir, listing(top)),
        subnodes_rev(top),
        w.extensions,
    );
    let own = files_in(dir, listing(top), w.extensions);
    let below = watched_below(dir, top, w.extensions);
    let rest = still_to_find(w.pending.drop_last(), holds.drop_last(), w.extensions);
    assert(still_to_find(next.pending, holds_after_listing(holds), w.extensions) == below + rest);
    assert(still_to_find(w.pending, holds, w.extensions) == (own + below) + rest);
    assert((w.found + own) + (below + rest) == w.found + ((own + below) + rest));
}

/// A search on track that is over has found the watched files of the tree,
/// all of them and nothing else, and not before the last listing.
pub proof fn law_search_on_track_ends_complete(w: WalkView, holds: Seq<Seq<Node>>, all: Seq<Seq<char>>)
    requires
        on_track(w, holds, all),
    ensures
        w.done() ==> w.found == all && w.outcome() == Some(
            Ok::<Seq<Seq<char>>, (ErrorKind, Seq<char>)>(all),
        ),
        w.done() <==> listings_left(holds) == 0,
{
    if w.done() {
        assert(w.found + Seq::<Seq<char>>::empty() == w.found);
    }
}

/// Whether `path` is the path of the entry `i` of the directory `dir`,
/// and that entry is a file with a usable name and a watched extension.
pub open spec fn is_watched_file_at(
    dir: Seq<char>,
    entries: Seq<EntryView>,
    extensions: Seq<Seq<char>>,
    i: int,
    path: Seq<char>,
) -> bool {
    &&& 0 <= i < entries.len()
    &&& !entries[i].is_dir
    &&& is_entry_name(entries[i].name)
    &&& has_watched_extension(entries[i].name, extensions)
    &&& path == child_path(dir, entries[i].name)
}

/// Whether the tree below the directory `dir`, which holds `entries`, has a watched
/// file with the path `path`: whether the first entry is that file, or is a directory
/// whose tree has it, or the other entries have it.
pub open spec fn tree_holds(
    dir: Seq<char>,
    entries: Seq<Node>,
    extensions: Seq<Seq<char>>,
    path: Seq<char>,
) -> bool
    decreases entries,
{
    if entries.len() == 0 {
        false
    } else {
        ||| is_watched_file_at(dir, listing(entries), extensions, 0, path)
        ||| entries[0].is_visited() && tree_holds(
            child_path(dir, entries[0].name),
            entries[0].entries,
            extensions,
            path,
        )
        ||| tree_holds(dir, entries.skip(1), extensions, path)
    }
}

/// Whether the entry `i` of the directory `dir` is the watched file `path`,
/// or a directory whose tree has it.
pub open spec fn holds_at(
    dir: Seq<char>,
    entries: Seq<Node>,
    extensions: Seq<Seq<char>>,
    i: int,
    path: Seq<char>,
) -> bool {
    is_watched_file_at(dir, listing(entries), extensions, i, path) || is_held_below_at(
        dir,
        entries,
        extensions,
        i,
        path,
    )
}

/// Whether the entry `i` of the directory `dir` is a directory whose tree has the watched file `path`.
pub open spec fn is_held_below_at(
    dir: Seq<char>,
    entries: Seq<Node>,
    extensions: Seq<Seq<char>>,
    i: int,
    path: Seq<char>,
) -> bool {
    0 <= i < entries.len() && entries[i].is_visited() && tree_holds(
        child_path(dir, entries[i].name),
        entries[i].entries,
        extensions,
        path,
    )
}

/// A tree holds a file exactly if one of its entries, whichever, is that file
/// or is a directory whose tree holds it. So the order of the entries plays no part.
pub proof fn law_tree_holds_at_some_entry(
    dir: Seq<char>,
    entries: Seq<Node>,
    extensions: Seq<Seq<char>>,
    path: Seq<char>,
)
    ensures
        tree_holds(dir, entries, extensions, path) <==> exists|i: int|
            holds_at(dir, entries, extensions, i, path),
    decreases entries.len(),
{
    if entries.len() > 0 {
        let tail = entries.skip(1);
        law_tree_holds_at_some_entry(dir, tail, extensions, path);
        lemma_listing_skip(entries);
        if tree_holds(dir, entries, extensions, path) {
            if is_watched_file_at(dir, listing(entries), extensions, 0, path) {
                assert(holds_at(dir, entries, extensions, 0, path));
            } else if is_held_below_at(dir, entries, extensions, 0, path) {
                assert(holds_at(dir, entries, extensions, 0, path));
            } else {
                let j = choose|j: int| holds_at(dir, tail, extensions, j, path);
                assert(tail[j] == entries[j + 1]);
                assert(listing(tail)[j] == listing(entries)[j + 1]);
                assert(holds_at(dir, entries, extensions, j + 1, path));
            }
        }
        if exists|i: int| holds_at(dir, entries, extensions, i, path) {
            let i = choose|i: int| holds_at(dir, entries, extensions, i, path);
            if i > 0 {
                assert(tail[i - 1] == entries[i]);
                assert(listing(tail)[i - 1] == listing(entries)[i]);
                assert(holds_at(dir, tail, extensions, i - 1, path));
            }
        }
    }
}

/// What two sequences put together hold is what one of them holds.
proof fn lemma_contains_concat(a: Seq<Seq<char>>, b: Seq<Seq<char>>, x: Seq<char>)
    ensures
        (a + b).contains(x) <==> a.contains(x) || b.contains(x),
{
    if a.contains(x) {
        let i = choose|i: int| 0 <= i < a.len() && a[i] == x;
        assert((a + b)[i] == x);
    }
    if b.contains(x) {
        let i = choose|i: int| 0 <= i < b.len() && b[i] == x;
        assert((a + b)[a.len() + i] == x);
    }
    if (a + b).contains(x) {
        let i = choose|i: int| 0 <= i < (a + b).len() && (a + b)[i] == x;
        if i < a.len() {
            assert(a[i] == x);
        } else {
            assert(b[i - a.len()] == x);
        }
    }
}

/// The files of a listing are the paths of its watched files.
proof fn lemma_files_members(
    dir: Seq<char>,
    entries: Seq<EntryView>,
    extensions: Seq<Seq<char>>,
    path: Seq<char>,
)
    ensures
        files_in(dir, entries, extensions).contains(path) <==> exists|i: int|
            is_watched_file_at(dir, entries, extensions, i, path),
    decreases entries.len(),
{
    if entries.len() > 0 {
        let init = entries.drop_last();
        let last = entries.len() - 1;
        let rest = files_in(dir, init, extensions);
        let all = files_in(dir, entries, extensions);
        lemma_files_members(dir, init, extensions, path);
        let counts = !entries[last].is_dir && is_entry_name(entries[last].name)
            && has_watched_extension(entries[last].name, extensions);
        if all.contains(path) {
            let k = choose|k: int| 0 <= k < all.len() && all[k] == path;
            if k < rest.len() {
                assert(rest[k] == path);
                let i = choose|i: int| is_watched_file_at(dir, init, extensions, i, path);
                assert(init[i] == entries[i]);
                assert(is_watched_file_at(dir, entries, extensions, i, path));
            } else {
                assert(counts);
                assert(is_watched_file_at(dir, entries, extensions, last, path));
            }
        }
        if exists|i: int| is_watched_file_at(dir, entries, extensions, i, path) {
            let i = choose|i: int| is_watched_file_at(dir, entries, extensions, i, path);
            if i < last {
                assert(init[i] == entries[i]);
                assert(is_watched_file_at(dir, init, extensions, i, path));
                let k = choose|k: int| 0 <= k < rest.len() && rest[k] == path;
                assert(all[k] == path);
            } else {
                assert(all[all.len() - 1] == path);
            }
        }
    }
}

/// The watched files of a directory are the files that its tree holds.
proof fn lemma_watched_members(
    dir: Seq<char>,
    entries: Seq<Node>,
    extensions: Seq<Seq<char>>,
    path: Seq<char>,
)
    ensures
        watched_files(dir, entries, extensions).contains(path) <==> tree_holds(
            dir,
            entries,
            extensions,
            path,
        ),
    decreases entries, 1nat,
{
    law_tree_holds_at_some_entry(dir, entries, extensions, path);
    lemma_below_members(dir, entries, extensions, path);
    lemma_files_members(dir, listing(entries), extensions, path);
    lemma_contains_concat(
        files_in(dir, listing(entries), extensions),
        watched_below(dir, entries, extensions),
        path,
    );
    if tree_holds(dir, entries, extensions, path) {
        let i = choose|i: int| holds_at(dir, entries, extensions, i, path);
        if is_watched_file_at(dir, listing(entries), extensions, i, path) {
        } else {
            assert(is_held_below_at(dir, entries, extensions, i, path));
        }
    }
    if exists|i: int| is_watched_file_at(dir, listing(entries), extensions, i, path) {
        let i = choose|i: int| is_watched_file_at(dir, listing(entries), extensions, i, path);
        assert(holds_at(dir, entries, extensions, i, path));
    }
    if exists|i: int| is_held_below_at(dir, entries, extensions, i, path) {
        let i = choose|i: int| is_held_below_at(dir, entries, extensions, i, path);
        assert(holds_at(dir, entries, extensions, i, path));
    }
}

/// The watched files below the directories of a listing are the files that
/// the trees of those directories hold.
proof fn lemma_below_members(
    dir: Seq<char>,
    entries: Seq<Node>,
    extensions: Seq<Seq<char>>,
    path: Seq<char>,
)
    ensures
        watched_below(dir, entries, extensions).contains(path) <==> exists|i: int|
            is_held_below_at(dir, entries, extensions, i, path),
    decreases entries, 0nat,
{
    if entries.len() > 0 {
        let tail = entries.skip(1);
        let child = child_path(dir, entries[0].name);
        let later = watched_below(dir, tail, extensions);
        lemma_below_members(dir, tail, extensions, path);
        let first = if entries[0].is_visited() {
            watched_files(child, entries[0].entries, extensions)
        } else {
            Seq::empty()
        };
        if entries[0].is_visited() {
            lemma_watched_members(child, entries[0].entries, extensions, path);
        }
        assert(watched_below(dir, entries, extensions) == first + later) by {
            if !entries[0].is_visited() {
                assert(Seq::<Seq<char>>::empty() + later == later);
            }
        }
        lemma_contains_concat(first, later, path);
        if first.contains(path) {
            assert(is_held_below_at(dir, entries, extensions, 0, path));
        }
        if later.contains(path) {
            let j = choose|j: int| is_held_below_at(dir, tail, extensions, j, path);
            assert(tail[j] == entries[j + 1]);
            assert(is_held_below_at(dir, entries, extensions, j + 1, path));
        }
        if exists|i: int| is_held_below_at(dir, entries, extensions, i, path) {
            let i = choose|i: int| is_held_below_at(dir, entries, extensions, i, path);
            if i == 0 {
                assert(first.contains(path));
            } else {
                assert(tail[i - 1] == entries[i]);
                assert(is_held_below_at(dir, tail, extensions, i - 1, path));
            }
        }
    }
}

/// A search that has gone through a tree has found a path exactly if the tree holds
/// a watched file with that path, in whatever order the directories were listed.
pub proof fn law_search_finds_what_the_tree_holds(
    w: WalkView,
    root: Seq<char>,
    entries: Seq<Node>,
    holds: Seq<Seq<Node>>,
    path: Seq<char>,
)
    requires
        on_track(w, holds, watched_files(root, entries, w.extensions)),
        w.done(),
    ensures
        w.found.contains(path) <==> tree_holds(root, entries, w.extensions, path),
{
    law_search_on_track_ends_complete(w, holds, watched_files(root, entries, w.extensions));
    lemma_watched_members(root, entries, w.extensions, path);
}

/// Whether no directory of the tree holds two entries of the same name:
/// the first entry shares its name with none of the others, the same holds
/// in the directory that the first entry is, and among the other entries.
pub open spec fn names_distinct(entries: Seq<Node>) -> bool
    decreases entries,
{
    if entries.len() == 0 {
        true
    } else {
        &&& forall|j: int| 1 <= j < entries.len() ==> (#[trigger] entries[j]).name != entries[0].name
        &&& entries[0].is_visited() ==> names_distinct(entries[0].entries)
        &&& names_distinct(entries.skip(1))
    }
}

/// In a tree with distinct names, any two entries of a directory differ in their names,
/// and every directory in it has distinct names in turn.
proof fn lemma_names_distinct_at(entries: Seq<Node>, i: int, j: int)
    requires
        names_distinct(entries),
        0 <= i < entries.len(),
    ensures
        i < j < entries.len() ==> entries[i].name != entries[j].name,
        entries[i].is_visited() ==> names_distinct(entries[i].entries),
    decreases entries.len(),
{
    if i > 0 {
        let tail = entries.skip(1);
        assert(tail[i - 1] == entries[i]);
        if i < j < entries.len() {
            assert(tail[j - 1] == entries[j]);
        }
        lemma_names_distinct_at(tail, i - 1, j - 1);
    } else if i < j < entries.len() {
        assert(entries[j].name != entries[0].name);
    }
}

/// Every file that a tree holds lies below the directory of the tree:
/// its path has the segments of the directory in front, and more.
proof fn lemma_held_under(
    dir: Seq<char>,
    entries: Seq<Node>,
    extensions: Seq<Seq<char>>,
    path: Seq<char>,
)
    requires
        tree_holds(dir, entries, extensions, path),
    ensures
        segments(path).len() > segments(dir).len(),
        segments(path).take(segments(dir).len() as int) == segments(dir),
    decreases entries,
{
    let n = segments(dir).len() as int;
    if is_watched_file_at(dir, listing(entries), extensions, 0, path) {
        lemma_child_segments(dir, entries[0].name);
        assert(segments(dir).push(entries[0].name).take(n) == segments(dir));
    } else if entries[0].is_visited() && tree_holds(
        child_path(dir, entries[0].name),
        entries[0].entries,
        extensions,
        path,
    ) {
        let child = child_path(dir, entries[0].name);
        lemma_held_under(child, entries[0].entries, extensions, path);
        lemma_child_segments(dir, entries[0].name);
        assert(segments(path).take(n + 1).take(n) == segments(path).take(n));
        assert(segments(dir).push(entries[0].name).take(n) == segments(dir));
    } else {
        lemma_held_under(dir, entries.skip(1), extensions, path);
    }
}

/// A file that is held at the entry `i` of a directory has the segments of
/// the directory and then the name of that entry in front. It has nothing more
/// if the entry is the file itself, and more if the entry is a directory.
proof fn lemma_held_at_shape(
    dir: Seq<char>,
    entries: Seq<Node>,
    extensions: Seq<Seq<char>>,
    i: int,
    path: Seq<char>,
)
    requires
        holds_at(dir, entries, extensions, i, path),
    ensures
        segments(path).len() > segments(dir).len(),
        segments(path).take(segments(dir).len() as int + 1) == segments(dir).push(entries[i].name),
        is_watched_file_at(dir, listing(entries), extensions, i, path) ==> segments(path).len()
            == segments(dir).len() + 1,
        is_held_below_at(dir, entries, extensions, i, path) ==> segments(path).len() > segments(
            dir,
        ).len() + 1,
{
    let n = segments(dir).len() as int;
    lemma_child_segments(dir, entries[i].name);
    if is_watched_file_at(dir, listing(entries), extensions, i, path) {
        assert(segments(path).take(n + 1) == segments(path));
    }
    if is_held_below_at(dir, entries, extensions, i, path) {
        lemma_held_under(child_path(dir, entries[i].name), entries[i].entries, extensions, path);
    }
}

/// Two lists without repetitions that share no member make a list without repetitions.
proof fn lemma_no_duplicates_concat(a: Seq<Seq<char>>, b: Seq<Seq<char>>)
    requires
        no_duplicates(a),
        no_duplicates(b),
        forall|x: Seq<char>| !(a.contains(x) && b.contains(x)),
    ensures
        no_duplicates(a + b),
{
    let all = a + b;
    assert forall|i: int, j: int| 0 <= i < j < all.len() implies all[i] != all[j] by {
        if j < a.len() {
            assert(all[i] == a[i] && all[j] == a[j]);
        } else if i >= a.len() {
            assert(all[i] == b[i - a.len()] && all[j] == b[j - a.len()]);
        } else {
            assert(all[i] == a[i] && all[j] == b[j - a.len()]);
            assert(a.contains(a[i]));
            assert(b.contains(b[j - a.len()]));
        }
    }
}

/// The files of a listing without repeated names are distinct.
proof fn lemma_files_distinct(dir: Seq<char>, entries: Seq<EntryView>, extensions: Seq<Seq<char>>)
    requires
        forall|i: int, j: int|
            0 <= i < j < entries.len() ==> (#[trigger] entries[i]).name != (
            #[trigger] entries[j]).name,
    ensures
        no_duplicates(files_in(dir, entries, extensions)),
    decreases entries.len(),
{
    if entries.len() > 0 {
        let init = entries.drop_last();
        let last = entries.last();
        let rest = files_in(dir, init, extensions);
        assert forall|i: int, j: int| 0 <= i < j < init.len() implies (#[trigger] init[i]).name
            != (#[trigger] init[j]).name by {
            assert(init[i] == entries[i] && init[j] == entries[j]);
        }
        lemma_files_distinct(dir, init, extensions);
        if !last.is_dir && is_entry_name(last.name) && has_watched_extension(
            last.name,
            extensions,
        ) {
            let new = child_path(dir, last.name);
            lemma_files_members(dir, init, extensions, new);
            if rest.contains(new) {
                let i = choose|i: int| is_watched_file_at(dir, init, extensions, i, new);
                assert(init[i] == entries[i]);
                lemma_child_segments(dir, init[i].name);
                lemma_child_segments(dir, last.name);
                assert(segments(dir).push(init[i].name).last() == init[i].name);
                assert(segments(dir).push(last.name).last() == last.name);
                assert(entries[i].name != entries[entries.len() - 1].name);
            }
            let all = rest.push(new);
            assert forall|i: int, j: int| 0 <= i < j < all.len() implies all[i] != all[j] by {
                assert(all[i] == rest[i]);
                if j < rest.len() {
                    assert(all[j] == rest[j]);
                } else {
                    assert(rest.contains(rest[i]));
                }
            }
        }
    }
}

/// The watched files of a directory in a tree with distinct names are distinct.
proof fn lemma_watched_distinct(dir: Seq<char>, entries: Seq<Node>, extensions: Seq<Seq<char>>)
    requires
        names_distinct(entries),
    ensures
        no_duplicates(watched_files(dir, entries, extensions)),
    decreases entries, 1nat,
{
    let own = files_in(dir, listing(entries), extensions);
    let below = watched_below(dir, entries, extensions);
    assert forall|i: int, j: int| 0 <= i < j < listing(entries).len() implies (
    #[trigger] listing(entries)[i]).name != (#[trigger] listing(entries)[j]).name by {
        lemma_names_distinct_at(entries, i, j);
    }
    lemma_files_distinct(dir, listing(entries), extensions);
    lemma_below_distinct(dir, entries, extensions);
    assert forall|x: Seq<char>| !(own.contains(x) && below.contains(x)) by {
        if own.contains(x) && below.contains(x) {
            lemma_files_members(dir, listing(entries), extensions, x);
            lemma_below_members(dir, entries, extensions, x);
            let i = choose|i: int| is_watched_file_at(dir, listing(entries), extensions, i, x);
            let j = choose|j: int| is_held_below_at(dir, entries, extensions, j, x);
            lemma_held_at_shape(dir, entries, extensions, i, x);
            lemma_held_at_shape(dir, entries, extensions, j, x);
        }
    }
    lemma_no_duplicates_concat(own, below);
}

/// The watched files below the directories of a listing with distinct names are distinct.
proof fn lemma_below_distinct(dir: Seq<char>, entries: Seq<Node>, extensions: Seq<Seq<char>>)
    requires
        names_distinct(entries),
    ensures
        no_duplicates(watched_below(dir, entries, extensions)),
    decreases entries, 0nat,
{
    if entries.len() > 0 {
        let tail = entries.skip(1);
        let child = child_path(dir, entries[0].name);
        let later = watched_below(dir, tail, extensions);
        lemma_below_distinct(dir, tail, extensions);
        let first = if entries[0].is_visited() {
            watched_files(child, entries[0].entries, extensions)
        } else {
            Seq::empty()
        };
        if entries[0].is_visited() {
            lemma_watched_distinct(child, entries[0].entries, extensions);
        }
        assert(watched_below(dir, entries, extensions) == first + later) by {
            if !entries[0].is_visited() {
                assert(Seq::<Seq<char>>::empty() + later == later);
            }
        }
        let n = segments(dir).len() as int;
        assert forall|x: Seq<char>| !(first.contains(x) && later.contains(x)) by {
            if first.contains(x) && later.contains(x) {
                lemma_watched_members(child, entries[0].entries, extensions, x);
                lemma_held_under(child, entries[0].entries, extensions, x);
                lemma_child_segments(dir, entries[0].name);
                lemma_below_members(dir, tail, extensions, x);
                let j = choose|j: int| is_held_below_at(dir, tail, extensions, j, x);
                lemma_held_at_shape(dir, tail, extensions, j, x);
                assert(tail[j] == entries[j + 1]);
                assert(segments(dir).push(entries[0].name).last() == entries[0].name);
                assert(segments(dir).push(tail[j].name).last() == tail[j].name);
                assert(entries[j + 1].name != entries[0].name);
            }
        }
        lemma_no_duplicates_concat(first, later);
    }
}

/// In a tree where no directory holds two entries of the same name, the
/// watched files are found once each: no path occurs twice among them.
pub proof fn law_found_paths_are_distinct(root: Seq<char>, entries: Seq<Node>, extensions: Seq<Seq<char>>)
    requires
        names_distinct(entries),
    ensures
        no_duplicates(watched_files(root, entries, extensions)),
{
    lemma_watched_distinct(root, entries, extensions);
}

/// A search that has gone through a tree where no directory holds two entries
/// of the same name has found no path twice.
pub proof fn law_search_finds_each_file_once(
    w: WalkView,
    root: Seq<char>,
    entries: Seq<Node>,
    holds: Seq<Seq<Node>>,
)
    requires
        on_track(w, holds, watched_files(root, entries, w.extensions)),
        w.done(),
        names_distinct(entries),
    ensures
        no_duplicates(w.found),
{
    law_search_on_track_ends_complete(w, holds, watched_files(root, entries, w.extensions));
    lemma_watched_distinct(root, entries, w.extensions);
}

} // verus!
