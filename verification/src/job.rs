//! A synchronisation as a sequence of requests to a driver.
//!
//! A `SyncJob` decides; a driver acts. The driver asks the job for its next
//! command, carries it out (lists a directory, reads a file, talks to the
//! server) and hands the reply back. The job never waits and never fails on its
//! own: it records what happened and says what comes next, until the command is
//! `Finished` and the result can be taken.

use crate::config::{ConfigView, FtpConfig};
use crate::discovery::{
    find_files_recursively, law_walk_starts_well_formed, law_walk_stays_well_formed, DirEntry,
    EntryView, Walk, WalkView,
};
use crate::error::{ErrorKind, SyncError};
use crate::path::{
    ancestor_dirs, has_extension_in, has_watched_extension, is_strictly_under, is_under,
    law_parent_chain, law_remote_path_below_root, map_remote_path, parent_dir, parent_of,
    parent_segments, remote_path, trim_trailing_slashes,
};
use crate::session::{
    law_ensure_dir_records, law_record_dir_keeps_well_formed, law_unmade_dir_is_asked_for, Session,
    SessionState, SessionView,
};
use vstd::prelude::*;
use vstd::string::StringExecFns;

verus! {

/// What a job is for.
#[derive(Clone, Copy, Debug, PartialEq, Eq, Structural)]
pub enum Mode {
    /// One file is uploaded; any failure fails the job.
    SingleFile,
    /// Every watched file below the local root is uploaded;
    /// a file that fails is reported and the others go on.
    WholeProject,
}

/// What a job is waiting for.
#[derive(Clone, Copy, Debug, PartialEq, Eq, Structural)]
pub enum Phase {
    /// The listing of a local directory.
    Discovering,
    /// The answer of the server to the connection.
    Connecting,
    /// The answer of the server to the credentials.
    LoggingIn,
    /// Passive mode to be set.
    SettingMode,
    /// The content of the current file.
    Reading,
    /// The answer of the server to a request for a directory.
    MakingDirs,
    /// The answer of the server to the current file.
    Storing,
    /// The connection to be given up.
    Closing,
    /// Nothing: the job is over.
    Finished,
}

/// A command as plain mathematical values.
pub enum CommandView {
    ListDir(Seq<char>),
    Connect { host: Seq<char>, port: u16 },
    Login { username: Seq<char>, password: Seq<char> },
    SetPassive,
    ReadFile(Seq<char>),
    MakeDir(Seq<char>),
    Store { remote_path: Seq<char>, content: Seq<u8> },
    Quit,
    Finished,
}

/// A reply as plain mathematical values.
pub enum ReplyView {
    Done,
    Listing(Seq<EntryView>),
    Content(Seq<u8>),
    Failed(Seq<char>),
}

impl ReplyView {
    /// The reason that a reply gives for a failure; empty where it gives none.
    pub open spec fn reason(self) -> Seq<char> {
        match self {
            ReplyView::Failed(reason) => reason,
            _ => Seq::empty(),
        }
    }
}

/// What became of one file, as plain mathematical values.
pub struct OutcomeView {
    pub local_path: Seq<char>,
    /// Where the file went, or should have gone; empty if that could not be told.
    pub remote_path: Seq<char>,
    /// Why the file was not uploaded; `None` if it was.
    pub failure: Option<(ErrorKind, Seq<char>)>,
}

/// How many of `outcomes` are failures.
pub open spec fn count_failed(outcomes: Seq<OutcomeView>) -> nat
    decreases outcomes.len(),
{
    if outcomes.len() == 0 {
        0
    } else if outcomes.last().failure is Some {
        count_failed(outcomes.drop_last()) + 1
    } else {
        count_failed(outcomes.drop_last())
    }
}

/// There are at most as many failures as outcomes.
pub proof fn lemma_count_failed_bound(outcomes: Seq<OutcomeView>)
    ensures
        count_failed(outcomes) <= outcomes.len(),
    decreases outcomes.len(),
{
    if outcomes.len() > 0 {
        lemma_count_failed_bound(outcomes.drop_last());
    }
}

/// The result of a job that reached the server, as plain mathematical values.
pub struct ReportView {
    pub total: nat,
    pub succeeded: nat,
    pub failed: nat,
    pub outcomes: Seq<OutcomeView>,
}

/// The report on `outcomes`: how many there are, how many of them are
/// failures, how many are not, and the outcomes themselves.
pub open spec fn report_on(outcomes: Seq<OutcomeView>) -> ReportView {
    ReportView {
        total: outcomes.len(),
        succeeded: (outcomes.len() - count_failed(outcomes)) as nat,
        failed: count_failed(outcomes),
        outcomes,
    }
}

/// A job as plain mathematical values.
pub struct JobView {
    pub config: ConfigView,
    pub mode: Mode,
    /// The search for files, while it goes on.
    pub walk: Option<WalkView>,
    /// The files to upload, in the order of uploading.
    pub files: Seq<Seq<char>>,
    /// How many of `files` have been dealt with.
    pub index: nat,
    pub session: SessionView,
    /// Where the current file goes.
    pub remote: Seq<char>,
    /// The content of the current file, once it is read.
    pub content: Seq<u8>,
    /// The directories to ask for before the current file is sent.
    pub dirs: Seq<Seq<char>>,
    /// How many of `dirs` have been asked for.
    pub dir_index: nat,
    /// What became of the files dealt with.
    pub outcomes: Seq<OutcomeView>,
    /// Why the job as a whole failed, if it did.
    pub failure: Option<(ErrorKind, Seq<char>)>,
    pub phase: Phase,
}

impl JobView {
    /// A job that has not done anything, in the given phase.
    pub open spec fn idle(config: ConfigView, mode: Mode, phase: Phase) -> JobView {
        JobView {
            config,
            mode,
            walk: None,
            files: Seq::empty(),
            index: 0,
            session: SessionView::fresh(),
            remote: Seq::empty(),
            content: Seq::empty(),
            dirs: Seq::empty(),
            dir_index: 0,
            outcomes: Seq::empty(),
            failure: None,
            phase,
        }
    }

    /// The job that uploads every watched file below the local root.
    /// It starts by searching for them.
    pub open spec fn whole_project(config: ConfigView) -> JobView {
        JobView {
            walk: Some(WalkView::start(config.local_path, config.file_extensions)),
            ..JobView::idle(config, Mode::WholeProject, Phase::Discovering)
        }
    }

    /// The job that uploads `local_path`. If the extension of the file is not
    /// watched there is nothing to do and the job is over at once.
    pub open spec fn single_file(config: ConfigView, local_path: Seq<char>) -> JobView {
        if has_watched_extension(local_path, config.file_extensions) {
            JobView {
                files: seq![local_path],
                ..JobView::idle(config, Mode::SingleFile, Phase::Connecting)
            }
        } else {
            JobView::idle(config, Mode::SingleFile, Phase::Finished)
        }
    }

    /// What the driver has to do next.
    pub open spec fn command(self) -> CommandView {
        match self.phase {
            Phase::Discovering => match self.walk {
                Some(walk) if walk.pending.len() > 0 => CommandView::ListDir(walk.pending.last()),
                _ => CommandView::Finished,
            },
            Phase::Connecting => CommandView::Connect {
                host: self.config.host,
                port: self.config.port,
            },
            Phase::LoggingIn => CommandView::Login {
                username: self.config.username,
                password: self.config.password,
            },
            Phase::SettingMode => CommandView::SetPassive,
            Phase::Reading => CommandView::ReadFile(self.files[self.index as int]),
            Phase::MakingDirs => CommandView::MakeDir(self.dirs[self.dir_index as int]),
            Phase::Storing => CommandView::Store {
                remote_path: self.remote,
                content: self.content,
            },
            Phase::Closing => CommandView::Quit,
            Phase::Finished => CommandView::Finished,
        }
    }

    /// The job with the whole-job failure `failure`, in the given phase.
    pub open spec fn failed(self, failure: (ErrorKind, Seq<char>), phase: Phase) -> JobView {
        JobView { failure: Some(failure), phase, ..self }
    }

    /// The job once the files before `index` are dealt with and the connection is ready:
    /// it turns to the next file that lies under the local root, and to closing
    /// when none is left. In a whole-project job a file that does not lie under
    /// the local root is reported as failed and passed over; in a single-file job
    /// it fails the job.
    pub open spec fn next_file(self) -> JobView
        decreases self.files.len() - self.index,
    {
        if self.index >= self.files.len() {
            JobView { phase: Phase::Closing, ..self }
        } else {
            let file = self.files[self.index as int];
            if is_under(self.config.local_path, file) {
                JobView {
                    remote: remote_path(self.config.local_path, self.config.remote_path, file),
                    phase: Phase::Reading,
                    ..self
                }
            } else if self.mode == Mode::SingleFile {
                self.failed((ErrorKind::PathMapping, file), Phase::Closing)
            } else {
                JobView {
                    index: self.index + 1,
                    outcomes: self.outcomes.push(
                        OutcomeView {
                            local_path: file,
                            remote_path: Seq::empty(),
                            failure: Some((ErrorKind::PathMapping, file)),
                        },
                    ),
                    ..self
                }.next_file()
            }
        }
    }

    /// The job once it is known what became of the current file.
    /// In a single-file job a failure fails the job. Otherwise the outcome is
    /// recorded and the job turns to the next file.
    pub open spec fn file_done(self, failure: Option<(ErrorKind, Seq<char>)>) -> JobView {
        if self.mode == Mode::SingleFile && failure is Some {
            JobView {
                content: Seq::empty(),
                dirs: Seq::empty(),
                dir_index: 0,
                ..self.failed(failure->0, Phase::Closing)
            }
        } else {
            JobView {
                index: self.index + 1,
                content: Seq::empty(),
                dirs: Seq::empty(),
                dir_index: 0,
                outcomes: self.outcomes.push(
                    OutcomeView {
                        local_path: self.files[self.index as int],
                        remote_path: self.remote,
                        failure,
                    },
                ),
                ..self
            }.next_file()
        }
    }

    /// The job once the current file is read. A whole-project job asks for the
    /// directories that lead to the file, as far as the server has not made
    /// them in this session, and then sends the file; a single-file job sends
    /// it at once.
    pub open spec fn file_read(self, content: Seq<u8>) -> JobView {
        if self.mode == Mode::SingleFile {
            JobView { content, phase: Phase::Storing, ..self }
        } else {
            let dirs = self.session.dirs_to_create(parent_dir(self.remote));
            JobView {
                content,
                dirs,
                dir_index: 0,
                phase: if dirs.len() == 0 {
                    Phase::Storing
                } else {
                    Phase::MakingDirs
                },
                ..self
            }
        }
    }

    /// The job after the driver's reply to its command.
    pub open spec fn step(self, reply: ReplyView) -> JobView {
        match self.phase {
            Phase::Discovering => match (self.walk, reply) {
                (Some(walk), ReplyView::Listing(entries)) => {
                    let next = walk.supply(entries);
                    if next.done() {
                        JobView { walk: None, files: next.found, phase: Phase::Connecting, ..self }
                    } else {
                        JobView { walk: Some(next), ..self }
                    }
                },
                _ => JobView {
                    walk: None,
                    ..self.failed((ErrorKind::Discovery, reply.reason()), Phase::Finished)
                },
            },
            Phase::Connecting => match reply {
                ReplyView::Failed(reason) => self.failed(
                    (ErrorKind::Connection, reason),
                    Phase::Finished,
                ),
                _ => JobView {
                    session: self.session.with_state(SessionState::Connected),
                    phase: Phase::LoggingIn,
                    ..self
                },
            },
            Phase::LoggingIn => match reply {
                ReplyView::Failed(reason) => self.failed((ErrorKind::Auth, reason), Phase::Closing),
                _ => JobView {
                    session: self.session.with_state(SessionState::Authenticated),
                    phase: Phase::SettingMode,
                    ..self
                },
            },
            Phase::SettingMode => JobView {
                session: self.session.with_state(SessionState::Ready),
                ..self
            }.next_file(),
            Phase::Reading => match reply {
                ReplyView::Content(content) => self.file_read(content),
                _ => self.file_done(Some((ErrorKind::LocalRead, reply.reason()))),
            },
            Phase::MakingDirs => JobView {
                session: if reply is Failed {
                    self.session
                } else {
                    self.session.record_dir(self.dirs[self.dir_index as int])
                },
                dir_index: self.dir_index + 1,
                phase: if self.dir_index + 1 >= self.dirs.len() {
                    Phase::Storing
                } else {
                    Phase::MakingDirs
                },
                ..self
            },
            Phase::Storing => match reply {
                ReplyView::Failed(reason) => self.file_done(
                    Some((ErrorKind::RemoteUpload, reason)),
                ),
                _ => self.file_done(None),
            },
            Phase::Closing => JobView {
                session: self.session.with_state(SessionState::Closed),
                phase: Phase::Finished,
                ..self
            },
            Phase::Finished => self,
        }
    }

    /// What the job has come to: nothing while it goes on; the failure if the
    /// job as a whole failed; else the report on its files.
    pub open spec fn result(self) -> Option<Result<ReportView, (ErrorKind, Seq<char>)>> {
        if self.phase != Phase::Finished {
            None
        } else {
            match self.failure {
                Some(failure) => Some(Err(failure)),
                None => Some(Ok(report_on(self.outcomes))),
            }
        }
    }

    /// Whether the connection is open: the server has answered and the
    /// connection has not been given up.
    pub open spec fn connection_open(self) -> bool {
        self.session.state == SessionState::Connected || self.session.state
            == SessionState::Authenticated || self.session.state == SessionState::Ready
    }

    /// What holds of a job whatever its phase.
    pub open spec fn records_consistent(self) -> bool {
        &&& self.session.well_formed()
        &&& self.index <= self.files.len()
        &&& self.outcomes.len() == self.index
        &&& forall|i: int|
            0 <= i < self.outcomes.len() ==> (#[trigger] self.outcomes[i]).local_path
                == self.files[i]
        &&& forall|i: int|
            0 <= i < self.outcomes.len() ==> ((#[trigger] self.outcomes[i]).failure matches Some(
                f,
            ) ==> f.0 == ErrorKind::LocalRead || f.0 == ErrorKind::RemoteUpload)
        &&& self.mode == Mode::WholeProject ==> forall|i: int|
            0 <= i < self.files.len() ==> is_strictly_under(
                self.config.local_path,
                #[trigger] self.files[i],
            )
        &&& self.mode == Mode::SingleFile ==> self.files.len() <= 1
        &&& self.failure matches Some(f) ==> {
            &&& self.outcomes.len() == 0
            &&& self.phase == Phase::Closing || self.phase == Phase::Finished
            &&& self.mode == Mode::WholeProject ==> f.0 == ErrorKind::Discovery || f.0
                == ErrorKind::Connection || f.0 == ErrorKind::Auth
        }
    }

    /// What holds of a job in its phase.
    pub open spec fn phase_consistent(self) -> bool {
        match self.phase {
            Phase::Discovering => {
                &&& self.mode == Mode::WholeProject
                &&& self.walk matches Some(walk)
                &&& walk.well_formed()
                &&& walk.pending.len() > 0
                &&& walk.failure is None
                &&& walk.root == self.config.local_path
                &&& walk.extensions == self.config.file_extensions
                &&& self.files.len() == 0
                &&& self.session.state == SessionState::Disconnected
            },
            Phase::Connecting => self.walk is None && self.index == 0 && self.session.state
                == SessionState::Disconnected,
            Phase::LoggingIn => self.walk is None && self.index == 0 && self.session.state
                == SessionState::Connected,
            Phase::SettingMode => self.walk is None && self.index == 0 && self.session.state
                == SessionState::Authenticated,
            Phase::Reading | Phase::MakingDirs | Phase::Storing => {
                &&& self.walk is None
                &&& self.session.state == SessionState::Ready
                &&& self.failure is None
                &&& self.index < self.files.len()
                &&& is_under(self.config.local_path, self.files[self.index as int])
                &&& self.remote == remote_path(
                    self.config.local_path,
                    self.config.remote_path,
                    self.files[self.index as int],
                )
                &&& self.phase == Phase::MakingDirs ==> self.mode == Mode::WholeProject
                    && self.dir_index < self.dirs.len()
            },
            Phase::Closing => {
                &&& self.walk is None
                &&& self.connection_open()
                &&& self.failure is None ==> self.index == self.files.len()
            },
            Phase::Finished => {
                &&& self.walk is None
                &&& self.session.state == SessionState::Disconnected || self.session.state
                    == SessionState::Closed
                &&& self.failure is None ==> self.index == self.files.len()
            },
        }
    }

    /// What holds of every job.
    pub open spec fn well_formed(self) -> bool {
        self.records_consistent() && self.phase_consistent()
    }
}

/// What the driver has to do next. Texts and contents are lent by the job.
#[derive(Debug)]
pub enum Command<'a> {
    /// List the local directory: hand back `Reply::Listing`, or `Reply::Failed`.
    ListDir(&'a str),
    /// Open the connection to the server.
    Connect { host: &'a str, port: u16 },
    /// Log in.
    Login { username: &'a str, password: &'a str },
    /// Set passive mode.
    SetPassive,
    /// Read the local file: hand back `Reply::Content`, or `Reply::Failed`.
    ReadFile(&'a str),
    /// Ask the server for the directory.
    MakeDir(&'a str),
    /// Send `content` to the server as the file `remote_path`.
    Store { remote_path: &'a str, content: &'a Vec<u8> },
    /// Give up the connection.
    Quit,
    /// Nothing: the job is over.
    Finished,
}

impl<'a> View for Command<'a> {
    type V = CommandView;

    open spec fn view(&self) -> CommandView {
        match self {
            Command::ListDir(dir) => CommandView::ListDir(dir@),
            Command::Connect { host, port } => CommandView::Connect { host: host@, port: *port },
            Command::Login { username, password } => CommandView::Login {
                username: username@,
                password: password@,
            },
            Command::SetPassive => CommandView::SetPassive,
            Command::ReadFile(file) => CommandView::ReadFile(file@),
            Command::MakeDir(dir) => CommandView::MakeDir(dir@),
            Command::Store { remote_path, content } => CommandView::Store {
                remote_path: remote_path@,
                content: content@,
            },
            Command::Quit => CommandView::Quit,
            Command::Finished => CommandView::Finished,
        }
    }
}

/// What the driver has to say about the command it carried out.
#[derive(Debug)]
pub enum Reply {
    /// The command was carried out, and there is nothing to hand back.
    Done,
    /// The entries of the directory that was to be listed.
    Listing(Vec<DirEntry>),
    /// The content of the file that was to be read.
    Content(Vec<u8>),
    /// The command could not be carried out, and why.
    Failed(String),
}

impl View for Reply {
    type V = ReplyView;

    open spec fn view(&self) -> ReplyView {
        match self {
            Reply::Done => ReplyView::Done,
            Reply::Listing(entries) => ReplyView::Listing(entries.deep_view()),
            Reply::Content(content) => ReplyView::Content(content@),
            Reply::Failed(reason) => ReplyView::Failed(reason@),
        }
    }
}

/// Whether a file was uploaded.
#[derive(Debug)]
pub enum TransferStatus {
    Success,
    Failed(SyncError),
}

/// What became of one file.
#[derive(Debug)]
pub struct TransferOutcome {
    pub local_path: String,
    /// Where the file went, or should have gone; empty if that could not be told.
    pub remote_path: String,
    pub status: TransferStatus,
}

impl View for TransferOutcome {
    type V = OutcomeView;

    open spec fn view(&self) -> OutcomeView {
        OutcomeView {
            local_path: self.local_path@,
            remote_path: self.remote_path@,
            failure: match self.status {
                TransferStatus::Success => None,
                TransferStatus::Failed(e) => Some(e@),
            },
        }
    }
}

impl DeepView for TransferOutcome {
    type V = OutcomeView;

    open spec fn deep_view(&self) -> OutcomeView {
        self@
    }
}

impl TransferOutcome {
    /// Whether the file was uploaded.
    pub fn is_success(&self) -> (b: bool)
        ensures
            b == (self@.failure is None),
    {
        match self.status {
            TransferStatus::Success => true,
            TransferStatus::Failed(_) => false,
        }
    }
}

/// The result of a job that reached the server: what became of each file,
/// and how many were uploaded and how many were not.
#[derive(Debug)]
pub struct SyncReport {
    pub total: usize,
    pub succeeded: usize,
    pub failed: usize,
    pub outcomes: Vec<TransferOutcome>,
}

impl View for SyncReport {
    type V = ReportView;

    open spec fn view(&self) -> ReportView {
        ReportView {
            total: self.total as nat,
            succeeded: self.succeeded as nat,
            failed: self.failed as nat,
            outcomes: self.outcomes.deep_view(),
        }
    }
}

/// The report on `outcomes`.
pub fn make_report(outcomes: Vec<TransferOutcome>) -> (report: SyncReport)
    ensures
        report@ == report_on(outcomes.deep_view()),
{
    let ghost all = outcomes.deep_view();
    let mut failed: usize = 0;
    let mut i: usize = 0;
    assert(all.take(0) =~= Seq::<OutcomeView>::empty());
    while i < outcomes.len()
        invariant
            i <= outcomes.len(),
            all == outcomes.deep_view(),
            failed == count_failed(all.take(i as int)),
            failed <= i,
        decreases outcomes.len() - i,
    {
        proof {
            assert(all.take(i + 1).drop_last() == all.take(i as int));
            assert(all.take(i + 1).last() == outcomes[i as int]@);
        }
        if !outcomes[i].is_success() {
            failed = failed + 1;
        }
        i = i + 1;
    }
    assert(all.take(i as int) == all);
    let total: usize = outcomes.len();
    SyncReport { total, succeeded: total - failed, failed, outcomes }
}

/// A failure as plain mathematical values, if there is one.
pub open spec fn failure_view(failure: Option<SyncError>) -> Option<(ErrorKind, Seq<char>)> {
    match failure {
        Some(e) => Some(e@),
        None => None,
    }
}

/// A synchronisation in progress.
pub struct SyncJob {
    config: FtpConfig,
    mode: Mode,
    walk: Option<Walk>,
    files: Vec<String>,
    index: usize,
    session: Session,
    remote: String,
    content: Vec<u8>,
    dirs: Vec<String>,
    dir_index: usize,
    outcomes: Vec<TransferOutcome>,
    failure: Option<SyncError>,
    phase: Phase,
}

impl View for SyncJob {
    type V = JobView;

    closed spec fn view(&self) -> JobView {
        JobView {
            config: self.config@,
            mode: self.mode,
            walk: match self.walk {
                Some(walk) => Some(walk@),
                None => None,
            },
            files: self.files.deep_view(),
            index: self.index as nat,
            session: self.session@,
            remote: self.remote@,
            content: self.content@,
            dirs: self.dirs.deep_view(),
            dir_index: self.dir_index as nat,
            outcomes: self.outcomes.deep_view(),
            failure: failure_view(self.failure),
            phase: self.phase,
        }
    }
}

impl SyncJob {
    /// A job that has not done anything, in the given phase.
    fn idle(config: &FtpConfig, mode: Mode, phase: Phase) -> (job: SyncJob)
        ensures
            job@ == JobView::idle(config@, mode, phase),
    {
        let job = SyncJob {
            config: config.clone(),
            mode,
            walk: None,
            files: Vec::new(),
            index: 0,
            session: Session::new(),
            remote: String::new(),
            content: Vec::new(),
            dirs: Vec::new(),
            dir_index: 0,
            outcomes: Vec::new(),
            failure: None,
            phase,
        };
        proof {
            assert(job.files.deep_view() =~= Seq::<Seq<char>>::empty());
            assert(job.dirs.deep_view() =~= Seq::<Seq<char>>::empty());
            assert(job.outcomes.deep_view() =~= Seq::<OutcomeView>::empty());
        }
        job
    }

    /// What the job is for.
    pub fn mode(&self) -> (mode: Mode)
        ensures
            mode == self@.mode,
    {
        self.mode
    }

    /// What the job is waiting for.
    pub fn phase(&self) -> (phase: Phase)
        ensures
            phase == self@.phase,
    {
        self.phase
    }

    /// Whether the job is over.
    pub fn is_finished(&self) -> (b: bool)
        ensures
            b == (self@.phase == Phase::Finished),
            b == (self@.result() is Some),
    {
        self.phase == Phase::Finished
    }

    /// How many files the job has to upload, as far as it knows them.
    pub fn file_count(&self) -> (n: usize)
        ensures
            n == self@.files.len(),
    {
        self.files.len()
    }

    /// What the driver has to do next.
    pub fn next_command(&self) -> (cmd: Command<'_>)
        requires
            self@.well_formed(),
        ensures
            cmd@ == self@.command(),
    {
        match self.phase {
            Phase::Discovering => match &self.walk {
                Some(walk) => match walk.awaited() {
                    Some(dir) => Command::ListDir(dir),
                    None => Command::Finished,
                },
                None => Command::Finished,
            },
            Phase::Connecting => Command::Connect {
                host: self.config.host.as_str(),
                port: self.config.port,
            },
            Phase::LoggingIn => Command::Login {
                username: self.config.username.as_str(),
                password: self.config.password.as_str(),
            },
            Phase::SettingMode => Command::SetPassive,
            Phase::Reading => {
                assert(self.files.deep_view()[self.index as int] == self.files[self.index as int]@);
                Command::ReadFile(self.files[self.index].as_str())
            },
            Phase::MakingDirs => {
                assert(self.dirs.deep_view()[self.dir_index as int]
                    == self.dirs[self.dir_index as int]@);
                Command::MakeDir(self.dirs[self.dir_index].as_str())
            },
            Phase::Storing => Command::Store {
                remote_path: self.remote.as_str(),
                content: &self.content,
            },
            Phase::Closing => Command::Quit,
            Phase::Finished => Command::Finished,
        }
    }

    /// Turns to the next file that lies under the local root, or to closing.
    fn begin_next_file(&mut self)
        requires
            old(self)@.between_files(),
        ensures
            final(self)@ == old(self)@.next_file(),
    {
        while self.index < self.files.len()
            invariant
                self@.between_files(),
                self@.next_file() == old(self)@.next_file(),
            decreases self.files.len() - self.index,
        {
            assert(self.files.deep_view()[self.index as int] == self.files[self.index as int]@);
            match map_remote_path(
                self.config.local_path.as_str(),
                self.config.remote_path.as_str(),
                self.files[self.index].as_str(),
            ) {
                Ok(remote) => {
                    self.remote = remote;
                    self.phase = Phase::Reading;
                    return ;
                },
                Err(e) => {
                    if self.mode == Mode::SingleFile {
                        self.failure = Some(e);
                        self.phase = Phase::Closing;
                        return ;
                    }
                    let ghost outcomes_before = self.outcomes.deep_view();
                    let outcome = TransferOutcome {
                        local_path: self.files[self.index].clone(),
                        remote_path: String::new(),
                        status: TransferStatus::Failed(e),
                    };
                    self.outcomes.push(outcome);
                    self.index = self.index + 1;
                    assert(self.outcomes.deep_view() =~= outcomes_before.push(outcome@));
                },
            }
        }
        self.phase = Phase::Closing;
    }

    /// Records what became of the current file and turns to the next one;
    /// in a single-file job a failure fails the job instead.
    fn finish_file(&mut self, failure: Option<SyncError>)
        requires
            old(self)@.well_formed(),
            old(self)@.phase == Phase::Reading || old(self)@.phase == Phase::MakingDirs || old(
                self,
            )@.phase == Phase::Storing,
            failure_view(failure) matches Some(f) ==> f.0 == ErrorKind::LocalRead || f.0
                == ErrorKind::RemoteUpload,
        ensures
            final(self)@ == old(self)@.file_done(failure_view(failure)),
    {
        assert(self.index < self.files.len()) by {
            assert(self@.index < self@.files.len());
            assert(self.files.deep_view().len() == self.files.len());
        }
        self.content = Vec::new();
        self.dirs = Vec::new();
        self.dir_index = 0;
        assert(self.dirs.deep_view() =~= Seq::<Seq<char>>::empty());
        match failure {
            Some(e) if self.mode == Mode::SingleFile => {
                self.failure = Some(e);
                self.phase = Phase::Closing;
            },
            _ => {
                let ghost outcomes_before = self.outcomes.deep_view();
                assert(self.files.deep_view()[self.index as int] == self.files[self.index as int]@);
                let outcome = TransferOutcome {
                    local_path: self.files[self.index].clone(),
                    remote_path: self.remote.clone(),
                    status: match failure {
                        Some(e) => TransferStatus::Failed(e),
                        None => TransferStatus::Success,
                    },
                };
                self.outcomes.push(outcome);
                self.index = self.index + 1;
                assert(self.outcomes.deep_view() =~= outcomes_before.push(outcome@));
                self.begin_next_file();
            },
        }
    }

    /// Takes the content of the current file and turns to the directories
    /// that lead to it, or to sending it.
    fn take_content(&mut self, content: Vec<u8>)
        requires
            old(self)@.well_formed(),
            old(self)@.phase == Phase::Reading,
        ensures
            final(self)@ == old(self)@.file_read(content@),
    {
        self.content = content;
        if self.mode == Mode::SingleFile {
            self.phase = Phase::Storing;
        } else {
            let parent = parent_of(self.remote.as_str());
            let dirs = self.session.create_remote_directories(parent);
            self.phase = if dirs.len() == 0 {
                Phase::Storing
            } else {
                Phase::MakingDirs
            };
            self.dirs = dirs;
            self.dir_index = 0;
        }
    }

    /// Takes the driver's reply to the command that `next_command` gave.
    ///
    /// A reply of a kind that the command does not call for is read in the most
    /// obvious way: where a listing or a content was due, anything else counts
    /// as a failure; where nothing was due, anything but `Failed` counts as done.
    /// The replies to `SetPassive` and `Quit` are not looked at. A failed `MakeDir`
    /// fails nothing: the directory is only not taken for made, and is asked for
    /// again before the next file below it.
    pub fn on_reply(&mut self, reply: Reply)
        requires
            old(self)@.well_formed(),
        ensures
            final(self)@ == old(self)@.step(reply@),
            final(self)@.well_formed(),
    {
        proof {
            law_step_keeps_well_formed(self@, reply@);
        }
        match self.phase {
            Phase::Discovering => {
                let walk = self.walk.take();
                match (walk, reply) {
                    (Some(mut walk), Reply::Listing(entries)) => {
                        walk.supply(&entries);
                        if walk.is_done() {
                            self.files = walk.into_found();
                            self.phase = Phase::Connecting;
                        } else {
                            self.walk = Some(walk);
                        }
                    },
                    (_, other) => {
                        let reason = match other {
                            Reply::Failed(reason) => reason,
                            _ => String::new(),
                        };
                        self.failure = Some(SyncError::Discovery(reason));
                        self.phase = Phase::Finished;
                    },
                }
            },
            Phase::Connecting => match reply {
                Reply::Failed(reason) => {
                    self.failure = Some(SyncError::Connection(reason));
                    self.phase = Phase::Finished;
                },
                _ => {
                    self.session.connect();
                    self.phase = Phase::LoggingIn;
                },
            },
            Phase::LoggingIn => match reply {
                Reply::Failed(reason) => {
                    self.failure = Some(SyncError::Auth(reason));
                    self.phase = Phase::Closing;
                },
                _ => {
                    self.session.login();
                    self.phase = Phase::SettingMode;
                },
            },
            Phase::SettingMode => {
                self.session.set_passive_mode();
                self.begin_next_file();
            },
            Phase::Reading => match reply {
                Reply::Content(content) => {
                    self.take_content(content);
                },
                other => {
                    let reason = match other {
                        Reply::Failed(reason) => reason,
                        _ => String::new(),
                    };
                    self.finish_file(Some(SyncError::LocalRead(reason)));
                },
            },
            Phase::MakingDirs => {
                assert(self.dir_index < self.dirs.len()) by {
                    assert(self@.dir_index < self@.dirs.len());
                    assert(self.dirs.deep_view().len() == self.dirs.len());
                }
                match reply {
                    Reply::Failed(_) => {},
                    _ => {
                        assert(self.dirs.deep_view()[self.dir_index as int]
                            == self.dirs[self.dir_index as int]@);
                        self.session.directory_created(self.dirs[self.dir_index].as_str());
                    },
                }
                self.dir_index = self.dir_index + 1;
                if self.dir_index >= self.dirs.len() {
                    self.phase = Phase::Storing;
                }
            },
            Phase::Storing => match reply {
                Reply::Failed(reason) => {
                    self.finish_file(Some(SyncError::RemoteUpload(reason)));
                },
                _ => {
                    self.finish_file(None);
                },
            },
            Phase::Closing => {
                self.session.close();
                self.phase = Phase::Finished;
            },
            Phase::Finished => {},
        }
    }

    /// What the job has come to: nothing while it goes on; the failure if the
    /// job as a whole failed; else the report on its files.
    pub fn finish(self) -> (r: Option<Result<SyncReport, SyncError>>)
        ensures
            match self@.result() {
                None => r is None,
                Some(Ok(report)) => r matches Some(Ok(rep)) && rep@ == report,
                Some(Err(failure)) => r matches Some(Err(e)) && e@ == failure,
            },
    {
        if self.phase != Phase::Finished {
            return None;
        }
        match self.failure {
            Some(e) => Some(Err(e)),
            None => Some(Ok(make_report(self.outcomes))),
        }
    }
}

/// Starts the upload of every file below the local root whose extension is watched.
/// The search for the files comes first; the server is not asked for before
/// the search has ended well.
pub fn upload_all_files(config: &FtpConfig) -> (job: SyncJob)
    ensures
        job@ == JobView::whole_project(config@),
        job@.well_formed(),
{
    let mut job = SyncJob::idle(config, Mode::WholeProject, Phase::Discovering);
    job.walk = Some(find_files_recursively(config.local_path.as_str(), &config.file_extensions));
    proof {
        law_jobs_start_well_formed(config@, Seq::empty());
    }
    job
}

/// Starts the upload of the file `local_path`. If the extension of the file is not
/// watched there is nothing to do: the job is over at once, with an empty report.
pub fn upload_file(config: &FtpConfig, local_path: &str) -> (job: SyncJob)
    ensures
        job@ == JobView::single_file(config@, local_path@),
        job@.well_formed(),
{
    proof {
        law_jobs_start_well_formed(config@, local_path@);
    }
    if has_extension_in(local_path, &config.file_extensions) {
        let mut job = SyncJob::idle(config, Mode::SingleFile, Phase::Connecting);
        job.files.push(String::from_str(local_path));
        assert(job.files.deep_view() =~= seq![local_path@]);
        job
    } else {
        SyncJob::idle(config, Mode::SingleFile, Phase::Finished)
    }
}

impl JobView {
    /// Whether the job stands between two files: the connection is ready,
    /// nothing has failed, and the records are consistent.
    pub open spec fn between_files(self) -> bool {
        &&& self.records_consistent()
        &&& self.walk is None
        &&& self.failure is None
        &&& self.session.state == SessionState::Ready
    }
}

/// Turning to the next file leaves the job well formed, reading or closing.
/// Only a single-file job can fail at this point. A whole-project job records nothing:
/// all its files lie under the local root.
pub proof fn lemma_next_file(j: JobView)
    requires
        j.between_files(),
    ensures
        j.next_file().well_formed(),
        j.next_file().session == j.session,
        j.next_file().files == j.files,
        j.next_file().mode == j.mode,
        j.next_file().config == j.config,
        j.next_file().content == j.content,
        j.next_file().phase == Phase::Reading || j.next_file().phase == Phase::Closing,
        j.next_file().index >= j.index,
        j.mode == Mode::WholeProject ==> {
            &&& j.next_file().outcomes == j.outcomes
            &&& j.next_file().index == j.index
            &&& j.next_file().failure is None
            &&& j.next_file().phase == Phase::Reading <==> j.index < j.files.len()
        },
        j.mode == Mode::SingleFile && j.index == j.files.len() ==> {
            &&& j.next_file().outcomes == j.outcomes
            &&& j.next_file().failure is None
            &&& j.next_file().phase == Phase::Closing
        },
    decreases j.files.len() - j.index,
{
    if j.index < j.files.len() {
        let file = j.files[j.index as int];
        if !is_under(j.config.local_path, file) {
            assert(j.mode == Mode::SingleFile);
        }
    }
}

/// Recording what became of the current file leaves the job well formed.
pub proof fn lemma_file_done(j: JobView, failure: Option<(ErrorKind, Seq<char>)>)
    requires
        j.well_formed(),
        j.phase == Phase::Reading || j.phase == Phase::MakingDirs || j.phase == Phase::Storing,
        failure matches Some(f) ==> f.0 == ErrorKind::LocalRead || f.0 == ErrorKind::RemoteUpload,
    ensures
        j.file_done(failure).well_formed(),
        j.file_done(failure).session == j.session,
        j.file_done(failure).files == j.files,
        j.file_done(failure).mode == j.mode,
        j.file_done(failure).config == j.config,
        j.mode == Mode::WholeProject || failure is None ==> {
            &&& j.file_done(failure).failure is None
            &&& j.file_done(failure).index == j.index + 1
            &&& j.file_done(failure).outcomes == j.outcomes.push(
                OutcomeView {
                    local_path: j.files[j.index as int],
                    remote_path: j.remote,
                    failure,
                },
            )
            &&& j.file_done(failure).phase == Phase::Reading <==> j.index + 1 < j.files.len()
            &&& j.file_done(failure).phase == Phase::Closing <==> j.index + 1 == j.files.len()
        },
        j.mode == Mode::SingleFile && failure is Some ==> {
            &&& j.file_done(failure).failure == failure
            &&& j.file_done(failure).phase == Phase::Closing
        },
{
    if j.mode == Mode::SingleFile && failure is Some {
    } else {
        let recorded = JobView {
            index: j.index + 1,
            content: Seq::empty(),
            dirs: Seq::empty(),
            dir_index: 0,
            outcomes: j.outcomes.push(
                OutcomeView {
                    local_path: j.files[j.index as int],
                    remote_path: j.remote,
                    failure,
                },
            ),
            ..j
        };
        assert(recorded.between_files());
        lemma_next_file(recorded);
    }
}

/// Taking the content of the current file leaves the job well formed.
pub proof fn lemma_file_read(j: JobView, content: Seq<u8>)
    requires
        j.well_formed(),
        j.phase == Phase::Reading,
    ensures
        j.file_read(content).well_formed(),
{
}

/// Both kinds of job start well formed.
pub proof fn law_jobs_start_well_formed(config: ConfigView, local_path: Seq<char>)
    ensures
        JobView::whole_project(config).well_formed(),
        JobView::single_file(config, local_path).well_formed(),
{
    law_walk_starts_well_formed(config.local_path, config.file_extensions);
}

/// Whatever the driver replies, a well-formed job stays well formed.
pub proof fn law_step_keeps_well_formed(j: JobView, reply: ReplyView)
    requires
        j.well_formed(),
    ensures
        j.step(reply).well_formed(),
{
    match j.phase {
        Phase::Discovering => {
            let walk = j.walk->0;
            match reply {
                ReplyView::Listing(entries) => {
                    law_walk_stays_well_formed(walk, entries, Seq::empty());
                },
                _ => {},
            }
        },
        Phase::SettingMode => {
            let ready = JobView { session: j.session.with_state(SessionState::Ready), ..j };
            lemma_next_file(ready);
        },
        Phase::MakingDirs => {
            law_record_dir_keeps_well_formed(j.session, j.dirs[j.dir_index as int]);
        },
        Phase::Reading => {
            match reply {
                ReplyView::Content(content) => {
                    lemma_file_read(j, content);
                },
                _ => {
                    lemma_file_done(j, Some((ErrorKind::LocalRead, reply.reason())));
                },
            }
        },
        Phase::Storing => {
            match reply {
                ReplyView::Failed(reason) => {
                    lemma_file_done(j, Some((ErrorKind::RemoteUpload, reason)));
                },
                _ => {
                    lemma_file_done(j, None);
                },
            }
        },
        _ => {},
    }
}

/// Nothing concerning a file is asked of the driver unless the connection is ready
/// and nothing has failed: no file is read, no directory asked for, no file
/// sent before the server has accepted the credentials or after the connection
/// has been given up.
pub proof fn law_transfers_need_ready_session(j: JobView)
    requires
        j.well_formed(),
        j.command() is ReadFile || j.command() is MakeDir || j.command() is Store,
    ensures
        j.session.state == SessionState::Ready,
        j.failure is None,
        j.index < j.files.len(),
        j.command() matches CommandView::ReadFile(file) ==> file == j.files[j.index as int],
        j.command() matches CommandView::Store { remote_path: to, content } ==> to == remote_path(
            j.config.local_path,
            j.config.remote_path,
            j.files[j.index as int],
        ) && content == j.content,
{
}

/// A job that has failed as a whole holds no outcome, so its result is the failure
/// alone and never a report on some of the files. It asks for nothing but to give
/// up the connection, and no reply changes the failure.
pub proof fn law_failure_leaves_no_report(j: JobView, reply: ReplyView)
    requires
        j.well_formed(),
        j.failure is Some,
    ensures
        j.outcomes.len() == 0,
        j.command() is Quit || j.command() is Finished,
        j.result() is Some ==> j.result() == Some(
            Err::<ReportView, (ErrorKind, Seq<char>)>(j.failure->0),
        ),
        j.step(reply).failure == j.failure,
        j.step(reply).phase == Phase::Finished,
{
}

/// If the search for files fails, the job is over with that failure,
/// and no connection was ever asked for.
pub proof fn law_discovery_failure_is_fatal(j: JobView, reason: Seq<char>)
    requires
        j.well_formed(),
        j.phase == Phase::Discovering,
    ensures
        j.step(ReplyView::Failed(reason)).result() == Some(
            Err::<ReportView, (ErrorKind, Seq<char>)>((ErrorKind::Discovery, reason)),
        ),
        j.step(ReplyView::Failed(reason)).session.state == SessionState::Disconnected,
{
}

/// If the server cannot be reached, the job is over with that failure.
pub proof fn law_connection_failure_is_fatal(j: JobView, reason: Seq<char>)
    requires
        j.well_formed(),
        j.phase == Phase::Connecting,
    ensures
        j.step(ReplyView::Failed(reason)).result() == Some(
            Err::<ReportView, (ErrorKind, Seq<char>)>((ErrorKind::Connection, reason)),
        ),
{
}

/// If the server refuses the credentials, the job has nothing left to do but
/// to give up the connection, and then it is over with that failure: no file is
/// read or sent, and there is no report.
pub proof fn law_auth_failure_is_fatal(j: JobView, reason: Seq<char>, last: ReplyView)
    requires
        j.well_formed(),
        j.phase == Phase::LoggingIn,
    ensures
        j.outcomes.len() == 0,
        j.step(ReplyView::Failed(reason)).command() == CommandView::Quit,
        j.step(ReplyView::Failed(reason)).step(last).result() == Some(
            Err::<ReportView, (ErrorKind, Seq<char>)>((ErrorKind::Auth, reason)),
        ),
{
}

/// In a whole-project job a file that cannot be read, or that the server does not
/// accept, is recorded with its reason, and the job goes on with the next
/// file: it does not fail as a whole.
pub proof fn law_project_survives_file_failure(j: JobView, reason: Seq<char>)
    requires
        j.well_formed(),
        j.mode == Mode::WholeProject,
        j.phase == Phase::Reading || j.phase == Phase::Storing,
    ensures
        ({
            let kind = if j.phase == Phase::Reading {
                ErrorKind::LocalRead
            } else {
                ErrorKind::RemoteUpload
            };
            let next = j.step(ReplyView::Failed(reason));
            &&& next.failure is None
            &&& next.index == j.index + 1
            &&& next.outcomes == j.outcomes.push(
                OutcomeView {
                    local_path: j.files[j.index as int],
                    remote_path: j.remote,
                    failure: Some((kind, reason)),
                },
            )
            &&& next.phase == Phase::Reading <==> j.index + 1 < j.files.len()
            &&& next.phase == Phase::Closing <==> j.index + 1 == j.files.len()
        }),
{
    if j.phase == Phase::Reading {
        lemma_file_done(j, Some((ErrorKind::LocalRead, reason)));
    } else {
        lemma_file_done(j, Some((ErrorKind::RemoteUpload, reason)));
    }
}

/// In a single-file job a file that cannot be read, or that the server does not
/// accept, fails the job: the connection is given up and the result is that failure.
pub proof fn law_single_file_failure_is_fatal(j: JobView, reason: Seq<char>, last: ReplyView)
    requires
        j.well_formed(),
        j.mode == Mode::SingleFile,
        j.phase == Phase::Reading || j.phase == Phase::Storing,
    ensures
        ({
            let kind = if j.phase == Phase::Reading {
                ErrorKind::LocalRead
            } else {
                ErrorKind::RemoteUpload
            };
            let next = j.step(ReplyView::Failed(reason));
            &&& next.command() == CommandView::Quit
            &&& next.step(last).result() == Some(
                Err::<ReportView, (ErrorKind, Seq<char>)>((kind, reason)),
            )
        }),
{
}

/// What is sent is what was read: the content that the driver hands over for the
/// current file is the content of the next `Store` command, whatever directories
/// are asked for in between, and it goes to the remote path of that file.
pub proof fn law_store_sends_what_was_read(j: JobView, content: Seq<u8>, reply: ReplyView)
    requires
        j.well_formed(),
        j.phase == Phase::Reading || j.phase == Phase::MakingDirs,
    ensures
        ({
            let next = if j.phase == Phase::Reading {
                j.step(ReplyView::Content(content))
            } else {
                j.step(reply)
            };
            let sent = if j.phase == Phase::Reading {
                content
            } else {
                j.content
            };
            &&& next.phase == Phase::MakingDirs || next.phase == Phase::Storing
            &&& next.content == sent
            &&& next.index == j.index
            &&& next.remote == j.remote
            &&& next.outcomes == j.outcomes
            &&& next.phase == Phase::Storing ==> next.command() == CommandView::Store {
                remote_path: remote_path(
                    j.config.local_path,
                    j.config.remote_path,
                    j.files[j.index as int],
                ),
                content: sent,
            }
        }),
{
}

/// Before a file is sent, a whole-project job asks for the directories that lead
/// to the file's remote path and that the server has not made in this session,
/// outermost first, and for no others.
pub proof fn law_directories_lead_to_the_file(j: JobView, content: Seq<u8>)
    requires
        j.well_formed(),
        j.mode == Mode::WholeProject,
        j.phase == Phase::Reading,
    ensures
        ({
            let next = j.step(ReplyView::Content(content));
            let chain = ancestor_dirs(parent_segments(j.remote));
            &&& next.dirs == j.session.dirs_to_create(parent_dir(j.remote))
            &&& next.dir_index == 0
            &&& next.session == j.session
            &&& next.phase == Phase::Storing <==> next.dirs.len() == 0
            &&& forall|i: int|
                0 <= i < next.dirs.len() ==> chain.contains(#[trigger] next.dirs[i])
                    && !j.session.known_dirs.contains(next.dirs[i])
            &&& forall|i: int|
                0 <= i < chain.len() && !j.session.known_dirs.contains(chain[i])
                    ==> next.dirs.contains(#[trigger] chain[i])
        }),
{
    law_parent_chain(j.remote);
    law_ensure_dir_records(j.session, parent_dir(j.remote));
    let chain = ancestor_dirs(parent_segments(j.remote));
    assert forall|i: int|
        0 <= i < chain.len() && !j.session.known_dirs.contains(chain[i]) implies j.session.dirs_to_create(
        parent_dir(j.remote),
    ).contains(#[trigger] chain[i]) by {
        law_unmade_dir_is_asked_for(j.session, parent_dir(j.remote), i);
    }
}

/// A directory counts as made exactly when the server's reply to the request
/// for it is not a failure. A directory that the server refused is not recorded,
/// so it is asked for again before the next file below it. Either way the job
/// goes on to the next directory, or to sending the file.
pub proof fn law_made_directory_is_recorded(j: JobView, reply: ReplyView)
    requires
        j.well_formed(),
        j.phase == Phase::MakingDirs,
    ensures
        ({
            let next = j.step(reply);
            let dir = j.dirs[j.dir_index as int];
            &&& reply is Failed ==> next.session == j.session
            &&& !(reply is Failed) ==> next.session == j.session.record_dir(dir)
                && next.session.known_dirs.contains(dir)
            &&& next.session.state == SessionState::Ready
            &&& next.failure is None
            &&& next.outcomes == j.outcomes
            &&& next.dir_index == j.dir_index + 1
            &&& next.phase == Phase::Storing <==> j.dir_index + 1 == j.dirs.len()
            &&& next.phase == Phase::MakingDirs <==> j.dir_index + 1 < j.dirs.len()
        }),
{
    law_record_dir_keeps_well_formed(j.session, j.dirs[j.dir_index as int]);
}

/// What the driver replies to `SetPassive` and `Quit` makes no difference:
/// these steps are taken for done whatever came of them. What it replies to
/// `MakeDir` makes a difference only to what the session takes for made.
pub proof fn law_best_effort_replies_are_ignored(j: JobView, one: ReplyView, other: ReplyView)
    requires
        j.phase == Phase::SettingMode || j.phase == Phase::MakingDirs || j.phase == Phase::Closing,
    ensures
        j.phase != Phase::MakingDirs ==> j.step(one) == j.step(other),
        (JobView { session: j.session, ..j.step(one) }) == (JobView {
            session: j.session,
            ..j.step(other)
        }),
{
}

/// In a whole-project job every file goes below the remote root: its remote
/// path is longer than the remote root, and a `/` follows the root in it.
pub proof fn law_project_targets_lie_below_remote_root(j: JobView)
    requires
        j.well_formed(),
        j.mode == Mode::WholeProject,
        j.phase == Phase::Reading || j.phase == Phase::MakingDirs || j.phase == Phase::Storing,
    ensures
        j.remote.len() > trim_trailing_slashes(j.config.remote_path).len() + 1,
        j.remote[trim_trailing_slashes(j.config.remote_path).len() as int] == '/',
        trim_trailing_slashes(j.config.remote_path).is_prefix_of(j.remote),
{
    let file = j.files[j.index as int];
    law_remote_path_below_root(j.config.local_path, j.config.remote_path, file);
    let t = trim_trailing_slashes(j.config.remote_path);
    assert(j.remote.subrange(0, t.len() as int) == t);
}

/// A report covers every file exactly once and in order, and its counts add up.
pub proof fn law_report_counts(j: JobView)
    requires
        j.well_formed(),
        j.result() matches Some(Ok(_)),
    ensures
        ({
            let report = j.result()->0->Ok_0;
            &&& report.total == j.files.len()
            &&& report.succeeded + report.failed == report.total
            &&& report.outcomes.len() == report.total
            &&& forall|i: int|
                0 <= i < report.total ==> (#[trigger] report.outcomes[i]).local_path == j.files[i]
        }),
{
    lemma_count_failed_bound(j.outcomes);
}

impl JobView {
    /// How far the job is from its end, once the files are known. The first
    /// number falls as the job goes from connecting to closing; while files are
    /// sent the second counts the files not dealt with, the third falls from
    /// reading to sending, and the fourth counts the directories not asked for.
    pub open spec fn rank(self) -> (nat, nat, nat, nat) {
        let stage: nat = match self.phase {
            Phase::Discovering => 6,
            Phase::Connecting => 5,
            Phase::LoggingIn => 4,
            Phase::SettingMode => 3,
            Phase::Reading | Phase::MakingDirs | Phase::Storing => 2,
            Phase::Closing => 1,
            Phase::Finished => 0,
        };
        let within: nat = match self.phase {
            Phase::Reading => 2,
            Phase::MakingDirs => 1,
            _ => 0,
        };
        (
            stage,
            (self.files.len() - self.index) as nat,
            within,
            (self.dirs.len() - self.dir_index) as nat,
        )
    }
}

/// Whether `a` comes before `b` when the numbers are compared from the first on.
pub open spec fn rank_below(a: (nat, nat, nat, nat), b: (nat, nat, nat, nat)) -> bool {
    a.0 < b.0 || (a.0 == b.0 && (a.1 < b.1 || (a.1 == b.1 && (a.2 < b.2 || (a.2 == b.2 && a.3
        < b.3)))))
}

/// Once the files are known, every reply brings the job nearer to its end,
/// whatever the reply is. So a driver that answers every command
/// reaches `Finished` after finitely many commands.
pub proof fn law_job_progresses(j: JobView, reply: ReplyView)
    requires
        j.well_formed(),
        j.phase != Phase::Discovering,
        j.phase != Phase::Finished,
    ensures
        rank_below(j.step(reply).rank(), j.rank()),
{
    match j.phase {
        Phase::SettingMode => {
            lemma_next_file(JobView { session: j.session.with_state(SessionState::Ready), ..j });
        },
        Phase::Reading => {
            match reply {
                ReplyView::Content(content) => {},
                _ => {
                    lemma_file_done(j, Some((ErrorKind::LocalRead, reply.reason())));
                },
            }
        },
        Phase::Storing => {
            match reply {
                ReplyView::Failed(reason) => {
                    lemma_file_done(j, Some((ErrorKind::RemoteUpload, reason)));
                },
                _ => {
                    lemma_file_done(j, None);
                },
            }
        },
        _ => {},
    }
}

/// A job is not over while its connection is open: on every path, with or
/// without a failure, the connection is given up first.
pub proof fn law_connection_is_released(j: JobView, reply: ReplyView)
    requires
        j.well_formed(),
    ensures
        j.phase == Phase::Finished ==> !j.connection_open(),
        j.connection_open() && j.step(reply).phase == Phase::Finished ==> j.command()
            == CommandView::Quit && j.step(reply).session.state == SessionState::Closed,
{
    law_step_keeps_well_formed(j, reply);
    if j.phase == Phase::SettingMode {
        lemma_next_file(JobView { session: j.session.with_state(SessionState::Ready), ..j });
    }
    if j.phase == Phase::Reading {
        if reply is Content {
        } else {
            lemma_file_done(j, Some((ErrorKind::LocalRead, reply.reason())));
        }
    }
    if j.phase == Phase::Storing {
        match reply {
            ReplyView::Failed(reason) => {
                lemma_file_done(j, Some((ErrorKind::RemoteUpload, reason)));
            },
            _ => {
                lemma_file_done(j, None);
            },
        }
    }
}

} // verus!
