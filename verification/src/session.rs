//! The state of the one connection that a synchronisation uses.
//!
//! A `Session` does not talk to the server. It records how far the driver has
//! come with the connection, and which remote directories the server has made
//! in this session, so that no directory is asked for again once it is made.

use crate::path::{contains_text, dir_chain, directory_chain, rooted, segments};
use vstd::prelude::*;
use vstd::string::StringExecFns;

verus! {

/// How far the connection has come.
#[derive(Clone, Copy, Debug, PartialEq, Eq, Structural)]
pub enum SessionState {
    /// No connection has been opened.
    Disconnected,
    /// The server has answered; nobody is logged in.
    Connected,
    /// The server has accepted the credentials.
    Authenticated,
    /// Passive mode is set: files can be sent.
    Ready,
    /// The connection has been given up. Nothing follows.
    Closed,
}

/// The connection of one synchronisation, as the library keeps track of it.
pub struct Session {
    state: SessionState,
    known_dirs: Vec<String>,
}

/// A `Session` as plain mathematical values.
pub struct SessionView {
    pub state: SessionState,
    /// The remote directories that the server has made in this session,
    /// in the order of making.
    pub known_dirs: Seq<Seq<char>>,
}

/// The members of `chain` that are not in `known`, in order and each once.
pub open spec fn missing_dirs(known: Seq<Seq<char>>, chain: Seq<Seq<char>>) -> Seq<Seq<char>>
    decreases chain.len(),
{
    if chain.len() == 0 {
        Seq::empty()
    } else {
        let rest = missing_dirs(known, chain.drop_last());
        if (known + rest).contains(chain.last()) {
            rest
        } else {
            rest.push(chain.last())
        }
    }
}

/// Whether no text occurs twice in `list`.
pub open spec fn no_duplicates(list: Seq<Seq<char>>) -> bool {
    forall|i: int, j: int| 0 <= i < j < list.len() ==> list[i] != list[j]
}

impl SessionView {
    /// A session before the connection is opened.
    pub open spec fn fresh() -> SessionView {
        SessionView { state: SessionState::Disconnected, known_dirs: Seq::empty() }
    }

    /// The same session in another state.
    pub open spec fn with_state(self, state: SessionState) -> SessionView {
        SessionView { state, known_dirs: self.known_dirs }
    }

    /// The directories that have to be asked for so that `dir` exists, outermost first.
    pub open spec fn dirs_to_create(self, dir: Seq<char>) -> Seq<Seq<char>> {
        missing_dirs(self.known_dirs, dir_chain(dir))
    }

    /// The session after the server has made the directory `dir`.
    pub open spec fn record_dir(self, dir: Seq<char>) -> SessionView {
        if self.known_dirs.contains(dir) {
            self
        } else {
            SessionView { state: self.state, known_dirs: self.known_dirs.push(dir) }
        }
    }

    /// The session after the server has made each of `dirs`, one after the other.
    pub open spec fn record_all(self, dirs: Seq<Seq<char>>) -> SessionView
        decreases dirs.len(),
    {
        if dirs.len() == 0 {
            self
        } else {
            self.record_all(dirs.drop_last()).record_dir(dirs.last())
        }
    }

    /// The session after `dir` and the directories that lead to it have been asked
    /// for and the server has made each of them.
    pub open spec fn ensure_dir(self, dir: Seq<char>) -> SessionView {
        SessionView { state: self.state, known_dirs: self.known_dirs + self.dirs_to_create(dir) }
    }

    /// What holds of every session: no directory is recorded twice.
    pub open spec fn well_formed(self) -> bool {
        no_duplicates(self.known_dirs)
    }
}

impl View for Session {
    type V = SessionView;

    closed spec fn view(&self) -> SessionView {
        SessionView { state: self.state, known_dirs: self.known_dirs.deep_view() }
    }
}

/// After the missing members of a chain have been added, every member is known.
pub proof fn lemma_missing_covers(known: Seq<Seq<char>>, chain: Seq<Seq<char>>)
    ensures
        forall|i: int|
            0 <= i < chain.len() ==> (known + missing_dirs(known, chain)).contains(
                #[trigger] chain[i],
            ),
    decreases chain.len(),
{
    if chain.len() > 0 {
        let init = chain.drop_last();
        let rest = missing_dirs(known, init);
        let all = known + missing_dirs(known, chain);
        lemma_missing_covers(known, init);
        assert forall|i: int| 0 <= i < chain.len() implies all.contains(#[trigger] chain[i]) by {
            if i < init.len() {
                assert(init[i] == chain[i]);
                let k = choose|k: int| 0 <= k < (known + rest).len() && (known + rest)[k] == init[i];
                assert(all[k] == (known + rest)[k]);
            } else if (known + rest).contains(chain.last()) {
            } else {
                assert(all[all.len() - 1] == chain.last());
            }
        }
    }
}

/// Of a chain whose members are all known, nothing is missing.
pub proof fn lemma_missing_none(known: Seq<Seq<char>>, chain: Seq<Seq<char>>)
    requires
        forall|i: int| 0 <= i < chain.len() ==> known.contains(#[trigger] chain[i]),
    ensures
        missing_dirs(known, chain) == Seq::<Seq<char>>::empty(),
    decreases chain.len(),
{
    if chain.len() > 0 {
        let init = chain.drop_last();
        assert forall|i: int| 0 <= i < init.len() implies known.contains(#[trigger] init[i]) by {
            assert(init[i] == chain[i]);
        }
        lemma_missing_none(known, init);
        assert(known.contains(chain[chain.len() - 1]));
        assert(known + Seq::<Seq<char>>::empty() == known);
    }
}

/// What is missing was not known, and holds nothing twice.
pub proof fn lemma_missing_fresh(known: Seq<Seq<char>>, chain: Seq<Seq<char>>)
    requires
        no_duplicates(known),
    ensures
        no_duplicates(known + missing_dirs(known, chain)),
    decreases chain.len(),
{
    if chain.len() > 0 {
        let init = chain.drop_last();
        let rest = missing_dirs(known, init);
        lemma_missing_fresh(known, init);
        if !(known + rest).contains(chain.last()) {
            let all = known + rest.push(chain.last());
            assert forall|i: int, j: int| 0 <= i < j < all.len() implies all[i] != all[j] by {
                assert(all[i] == (known + rest)[i]);
                if j < all.len() - 1 {
                    assert(all[j] == (known + rest)[j]);
                } else {
                    assert(all[j] == chain.last());
                }
            }
        }
    } else {
        assert(known + missing_dirs(known, chain) == known);
    }
}

/// What is asked for is taken from the chain.
pub proof fn lemma_missing_from_chain(known: Seq<Seq<char>>, chain: Seq<Seq<char>>)
    ensures
        missing_dirs(known, chain).len() <= chain.len(),
        forall|i: int|
            0 <= i < missing_dirs(known, chain).len() ==> chain.contains(
                #[trigger] missing_dirs(known, chain)[i],
            ) && !known.contains(missing_dirs(known, chain)[i]),
    decreases chain.len(),
{
    if chain.len() > 0 {
        let init = chain.drop_last();
        let rest = missing_dirs(known, init);
        let now = missing_dirs(known, chain);
        lemma_missing_from_chain(known, init);
        assert forall|i: int| 0 <= i < now.len() implies chain.contains(#[trigger] now[i])
            && !known.contains(now[i]) by {
            if i < rest.len() {
                let k = choose|k: int| 0 <= k < init.len() && init[k] == rest[i];
                assert(chain[k] == init[k]);
            } else {
                assert(chain[chain.len() - 1] == now[i]);
                if known.contains(now[i]) {
                    let k = choose|k: int| 0 <= k < known.len() && known[k] == now[i];
                    assert((known + rest)[k] == now[i]);
                }
            }
        }
    }
}

/// Of a chain of distinct members, none of them known, all is missing, in the order of the chain.
pub proof fn lemma_missing_all(known: Seq<Seq<char>>, chain: Seq<Seq<char>>)
    requires
        no_duplicates(chain),
        forall|i: int| 0 <= i < chain.len() ==> !known.contains(#[trigger] chain[i]),
    ensures
        missing_dirs(known, chain) == chain,
    decreases chain.len(),
{
    if chain.len() > 0 {
        let init = chain.drop_last();
        assert forall|i: int| 0 <= i < init.len() implies !known.contains(#[trigger] init[i]) by {
            assert(init[i] == chain[i]);
        }
        assert(no_duplicates(init)) by {
            assert forall|i: int, j: int| 0 <= i < j < init.len() implies init[i] != init[j] by {
                assert(init[i] == chain[i] && init[j] == chain[j]);
            }
        }
        lemma_missing_all(known, init);
        let last = chain[chain.len() - 1];
        assert(!known.contains(last));
        if (known + init).contains(last) {
            let k = choose|k: int| 0 <= k < (known + init).len() && (known + init)[k] == last;
            if k < known.len() {
                assert(known[k] == last);
            } else {
                assert(init[k - known.len()] == chain[k - known.len()]);
            }
        }
        assert(init.push(last) == chain);
    }
}

/// Each directory of a chain has a longer path than the one before it.
pub proof fn lemma_rooted_grows(segs: Seq<Seq<char>>, i: int, j: int)
    requires
        0 <= i < j <= segs.len(),
    ensures
        rooted(segs.take(i)).len() < rooted(segs.take(j)).len(),
    decreases j - i,
{
    assert(segs.take(j).drop_last() == segs.take(j - 1));
    if i < j - 1 {
        lemma_rooted_grows(segs, i, j - 1);
    }
}

/// No directory occurs twice in a chain.
pub proof fn lemma_dir_chain_distinct(dir: Seq<char>)
    ensures
        no_duplicates(dir_chain(dir)),
{
    let chain = dir_chain(dir);
    assert forall|i: int, j: int| 0 <= i < j < chain.len() implies chain[i] != chain[j] by {
        lemma_rooted_grows(segments(dir), i + 1, j + 1);
    }
}

/// A session that knows none of the directories on the way to `dir` asks for
/// all of them, the outermost first: `/a`, then `/a/b`, then `/a/b/c`.
pub proof fn law_unknown_dirs_are_asked_in_order(s: SessionView, dir: Seq<char>)
    requires
        forall|i: int|
            0 <= i < dir_chain(dir).len() ==> !s.known_dirs.contains(#[trigger] dir_chain(dir)[i]),
    ensures
        s.dirs_to_create(dir) == dir_chain(dir),
        s.dirs_to_create(dir).len() == segments(dir).len(),
        forall|i: int|
            0 <= i < segments(dir).len() ==> #[trigger] s.dirs_to_create(dir)[i] == rooted(
                segments(dir).take(i + 1),
            ),
{
    lemma_dir_chain_distinct(dir);
    lemma_missing_all(s.known_dirs, dir_chain(dir));
}

/// What two lists put together hold is what one of them holds.
pub proof fn lemma_contains_either(a: Seq<Seq<char>>, b: Seq<Seq<char>>, x: Seq<char>)
    ensures
        (a + b).contains(x) <==> a.contains(x) || b.contains(x),
{
    if a.contains(x) {
        let i = choose|i: int| 0 <= i < a.len() && a[i] == x;
        assert((a + b)[i] == x);
    }
    if b.contains(x) {
        let i = choose|i: int| 0 <= i < b.len() && b[i] == x;
        assert((a + b)[a.len() + i] == x);
    }
    if (a + b).contains(x) {
        let i = choose|i: int| 0 <= i < (a + b).len() && (a + b)[i] == x;
        if i < a.len() {
            assert(a[i] == x);
        } else {
            assert(b[i - a.len()] == x);
        }
    }
}

/// Recording directories that are new and distinct appends them.
pub proof fn lemma_record_all_fresh(s: SessionView, dirs: Seq<Seq<char>>)
    requires
        no_duplicates(s.known_dirs + dirs),
    ensures
        s.record_all(dirs).known_dirs == s.known_dirs + dirs,
        s.record_all(dirs).state == s.state,
    decreases dirs.len(),
{
    if dirs.len() == 0 {
        assert(s.known_dirs + dirs == s.known_dirs);
    } else {
        let init = dirs.drop_last();
        let all = s.known_dirs + dirs;
        assert(no_duplicates(s.known_dirs + init)) by {
            assert forall|i: int, j: int| 0 <= i < j < (s.known_dirs + init).len() implies (
            s.known_dirs + init)[i] != (s.known_dirs + init)[j] by {
                assert((s.known_dirs + init)[i] == all[i]);
                assert((s.known_dirs + init)[j] == all[j]);
            }
        }
        lemma_record_all_fresh(s, init);
        let before = s.known_dirs + init;
        if before.contains(dirs.last()) {
            let k = choose|k: int| 0 <= k < before.len() && before[k] == dirs.last();
            assert(all[k] == before[k]);
            assert(all[all.len() - 1] == dirs.last());
        }
        assert(before.push(dirs.last()) == all);
    }
}

/// Once the server has made every directory that was asked for on the way to
/// `dir`, asking again for the same directory asks for nothing, and making
/// nothing leaves the session as it is.
pub proof fn law_ensure_dir_idempotent(s: SessionView, dir: Seq<char>)
    ensures
        s.ensure_dir(dir).dirs_to_create(dir) == Seq::<Seq<char>>::empty(),
        s.ensure_dir(dir).ensure_dir(dir) == s.ensure_dir(dir),
{
    let once = s.ensure_dir(dir);
    lemma_missing_covers(s.known_dirs, dir_chain(dir));
    lemma_missing_none(once.known_dirs, dir_chain(dir));
    assert(once.known_dirs + Seq::<Seq<char>>::empty() == once.known_dirs);
}

/// Recording, one after the other, that the server has made each directory
/// asked for on the way to `dir` gives the session in which `dir` is ensured.
pub proof fn law_made_dirs_are_recorded(s: SessionView, dir: Seq<char>)
    requires
        s.well_formed(),
    ensures
        s.record_all(s.dirs_to_create(dir)) == s.ensure_dir(dir),
{
    lemma_missing_fresh(s.known_dirs, dir_chain(dir));
    lemma_record_all_fresh(s, s.dirs_to_create(dir));
}

/// A directory on the way to `dir` that the server has not made in this session,
/// because it was never asked for or because the server refused, is asked for.
pub proof fn law_unmade_dir_is_asked_for(s: SessionView, dir: Seq<char>, i: int)
    requires
        0 <= i < dir_chain(dir).len(),
        !s.known_dirs.contains(dir_chain(dir)[i]),
    ensures
        s.dirs_to_create(dir).contains(dir_chain(dir)[i]),
{
    lemma_missing_covers(s.known_dirs, dir_chain(dir));
    lemma_contains_either(s.known_dirs, s.dirs_to_create(dir), dir_chain(dir)[i]);
}

/// Recording a directory keeps the session well formed and its state, and
/// forgets no directory.
pub proof fn law_record_dir_keeps_well_formed(s: SessionView, dir: Seq<char>)
    requires
        s.well_formed(),
    ensures
        s.record_dir(dir).well_formed(),
        s.record_dir(dir).state == s.state,
        s.record_dir(dir).known_dirs.contains(dir),
        s.known_dirs.is_prefix_of(s.record_dir(dir).known_dirs),
{
    let next = s.record_dir(dir);
    if !s.known_dirs.contains(dir) {
        assert(next.known_dirs[next.known_dirs.len() - 1] == dir);
        assert forall|i: int, j: int| 0 <= i < j < next.known_dirs.len() implies next.known_dirs[i]
            != next.known_dirs[j] by {
            assert(next.known_dirs[i] == s.known_dirs[i]);
            if j < s.known_dirs.len() {
                assert(next.known_dirs[j] == s.known_dirs[j]);
            }
        }
    }
}

/// Once every directory on the way to `dir` is made, the session is well formed,
/// in its old state, has forgotten nothing, and knows every directory on the way.
/// What is asked for lies on the way to `dir` and was not made before.
pub proof fn law_ensure_dir_records(s: SessionView, dir: Seq<char>)
    requires
        s.well_formed(),
    ensures
        s.ensure_dir(dir).well_formed(),
        s.ensure_dir(dir).state == s.state,
        s.known_dirs.is_prefix_of(s.ensure_dir(dir).known_dirs),
        forall|i: int|
            0 <= i < dir_chain(dir).len() ==> s.ensure_dir(dir).known_dirs.contains(
                #[trigger] dir_chain(dir)[i],
            ),
        forall|i: int|
            0 <= i < s.dirs_to_create(dir).len() ==> dir_chain(dir).contains(
                #[trigger] s.dirs_to_create(dir)[i],
            ) && !s.known_dirs.contains(s.dirs_to_create(dir)[i]),
{
    lemma_missing_fresh(s.known_dirs, dir_chain(dir));
    lemma_missing_covers(s.known_dirs, dir_chain(dir));
    lemma_missing_from_chain(s.known_dirs, dir_chain(dir));
}

impl Session {
    /// A session before the connection is opened.
    pub fn new() -> (s: Session)
        ensures
            s@ == SessionView::fresh(),
            s@.well_formed(),
    {
        let s = Session { state: SessionState::Disconnected, known_dirs: Vec::new() };
        assert(s.known_dirs.deep_view() =~= Seq::<Seq<char>>::empty());
        s
    }

    /// How far the connection has come.
    pub fn state(&self) -> (state: SessionState)
        ensures
            state == self@.state,
    {
        self.state
    }

    /// Whether files can be sent.
    pub fn is_ready(&self) -> (b: bool)
        ensures
            b == (self@.state == SessionState::Ready),
    {
        self.state == SessionState::Ready
    }

    /// How many remote directories the server has made in this session.
    pub fn known_dir_count(&self) -> (n: usize)
        ensures
            n == self@.known_dirs.len(),
    {
        self.known_dirs.len()
    }

    /// Whether the server has made the remote directory `dir` in this session.
    pub fn knows_dir(&self, dir: &String) -> (b: bool)
        ensures
            b == self@.known_dirs.contains(dir@),
    {
        contains_text(&self.known_dirs, dir)
    }

    /// Records that the server has answered.
    pub fn connect(&mut self)
        requires
            old(self)@.state == SessionState::Disconnected,
        ensures
            final(self)@ == old(self)@.with_state(SessionState::Connected),
    {
        self.state = SessionState::Connected;
    }

    /// Records that the server has accepted the credentials.
    pub fn login(&mut self)
        requires
            old(self)@.state == SessionState::Connected,
        ensures
            final(self)@ == old(self)@.with_state(SessionState::Authenticated),
    {
        self.state = SessionState::Authenticated;
    }

    /// Records that passive mode is set. From now on files can be sent.
    pub fn set_passive_mode(&mut self)
        requires
            old(self)@.state == SessionState::Authenticated,
        ensures
            final(self)@ == old(self)@.with_state(SessionState::Ready),
    {
        self.state = SessionState::Ready;
    }

    /// Records that the connection has been given up, whatever its state was.
    pub fn close(&mut self)
        ensures
            final(self)@ == old(self)@.with_state(SessionState::Closed),
    {
        self.state = SessionState::Closed;
    }

    /// The directories that the driver has to ask the server for so that `dir_path`
    /// exists: `/a`, `/a/b`, `/a/b/c` for `a/b/c`, without those that the server
    /// has made in this session. Nothing is recorded: whether a directory was
    /// made is told by `directory_created`.
    pub fn create_remote_directories(&self, dir_path: &str) -> (requests: Vec<String>)
        requires
            self@.state == SessionState::Ready,
        ensures
            requests.deep_view() == self@.dirs_to_create(dir_path@),
    {
        let chain = directory_chain(dir_path);
        let mut requests: Vec<String> = Vec::new();
        let mut i: usize = 0;
        assert(requests.deep_view() =~= Seq::<Seq<char>>::empty());
        assert(chain.deep_view().take(0) =~= Seq::<Seq<char>>::empty());
        while i < chain.len()
            invariant
                i <= chain.len(),
                chain.deep_view() == dir_chain(dir_path@),
                requests.deep_view() == missing_dirs(
                    self.known_dirs.deep_view(),
                    chain.deep_view().take(i as int),
                ),
            decreases chain.len() - i,
        {
            proof {
                let next = chain.deep_view().take(i + 1);
                assert(next.drop_last() == chain.deep_view().take(i as int));
                assert(next.last() == chain[i as int]@);
                lemma_contains_either(
                    self.known_dirs.deep_view(),
                    requests.deep_view(),
                    chain[i as int]@,
                );
            }
            if !contains_text(&self.known_dirs, &chain[i]) && !contains_text(&requests, &chain[i]) {
                let ghost requests_before = requests.deep_view();
                requests.push(chain[i].clone());
                assert(requests.deep_view() =~= requests_before.push(chain[i as int]@));
            }
            i = i + 1;
        }
        assert(chain.deep_view().take(i as int) == chain.deep_view());
        requests
    }

    /// Records that the server has made the remote directory `dir`.
    pub fn directory_created(&mut self, dir: &str)
        requires
            old(self)@.state == SessionState::Ready,
        ensures
            final(self)@ == old(self)@.record_dir(dir@),
    {
        let owned = String::from_str(dir);
        if !contains_text(&self.known_dirs, &owned) {
            let ghost before = self.known_dirs.deep_view();
            self.known_dirs.push(owned);
            assert(self.known_dirs.deep_view() =~= before.push(dir@));
        }
    }
}

} // verus!
